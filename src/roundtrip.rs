use vstd::bytes::*;
use vstd::prelude::*;

use crate::chunk::{
    round_trips, spec_hash_chunk, zstd_compressed, zstd_decompressed, CHUNK_SIZE,
    COMPRESSION_LEVEL,
};
use crate::errors::AppError;
use crate::format::{
    archive_bytes, digests_bytes, file_bytes, file_fits, files_bytes, record_bytes, records_bytes,
    table_fits, ChunkEntry, FileModel,
};
use crate::header::{
    lemma_magic_lengths, magic_bytes, prefix_bytes, spec_verify_header, version_bytes,
    MAGIC_LEN, VERSION, VERSION_LEN,
};
use crate::reader::{
    all_records_decode, archive_rebuilds, chunk_map, digests_at, record_decodes, parse_file, parse_files, parse_record, parse_records, spec_open,
    spec_rebuild, u32_at, u64_at, ArchiveLayout, CHUNK_TABLE_OFFSET, COUNT_OFFSET,
    RECORD_HEAD_LEN, TIMESTAMP_OFFSET,
};
use crate::writer::{
    all_chunks, all_under_root, chunk_entry, chunks_of, digests_of, first_sights,
    lemma_digest_len, lemma_first_sights_exactly_once, packed_model, packed_models, spec_pack,
    spec_relative, stored_round_trip,
};

verus! {

/// Whether every record has a 16-byte digest and a payload whose length
/// fits its field.
pub open spec fn records_fit(es: Seq<ChunkEntry>) -> bool {
    forall|i: int|
        0 <= i < es.len() ==> (#[trigger] es[i]).0.len() == 16 && es[i].2.len() <= u64::MAX
}

/// A written record reads back as itself.
pub proof fn lemma_parse_record_of(pre: Seq<u8>, e: ChunkEntry, rest: Seq<u8>)
    requires
        e.0.len() == 16,
        e.2.len() <= u64::MAX,
    ensures
        record_bytes(e).len() == RECORD_HEAD_LEN + e.2.len(),
        parse_record(pre + record_bytes(e) + rest, pre.len() as int) == Some(
            (e, (pre.len() + record_bytes(e).len()) as int),
        ),
{
    lemma_auto_spec_u64_to_from_le_bytes();
    let data = pre + record_bytes(e) + rest;
    let p = pre.len() as int;
    let l1 = spec_u64_to_le_bytes(e.1);
    let l2 = spec_u64_to_le_bytes(e.2.len() as u64);
    assert(record_bytes(e) == e.0 + l1 + l2 + e.2);
    assert(data.subrange(p, p + 16) =~= e.0);
    assert(data.subrange(p + 16, p + 24) =~= l1);
    assert(data.subrange(p + 24, p + 32) =~= l2);
    assert(data.subrange(p + 32, p + 32 + e.2.len()) =~= e.2);
    assert(u64_at(data, p + 16) == e.1);
    assert(u64_at(data, p + 24) == e.2.len());
}

/// Written records read back as themselves, ending where they end.
pub proof fn lemma_parse_records_of(pre: Seq<u8>, es: Seq<ChunkEntry>, rest: Seq<u8>)
    requires
        records_fit(es),
    ensures
        parse_records(pre + records_bytes(es) + rest, pre.len() as int, es.len()) == Some(
            (es, (pre.len() + records_bytes(es).len()) as int),
        ),
    decreases es.len(),
{
    if es.len() == 0 {
        assert(es =~= Seq::<ChunkEntry>::empty());
    } else {
        let p = es.drop_last();
        let e = es.last();
        let r = record_bytes(e);
        assert(records_fit(p)) by {
            assert forall|i: int| 0 <= i < p.len() implies (#[trigger] p[i]).0.len() == 16
                && p[i].2.len() <= u64::MAX by {
                assert(p[i] == es[i]);
            }
        }
        assert(es[es.len() - 1] == e);
        let data = pre + records_bytes(es) + rest;
        assert(data =~= pre + records_bytes(p) + (r + rest));
        lemma_parse_records_of(pre, p, r + rest);
        assert(data =~= (pre + records_bytes(p)) + r + rest);
        lemma_parse_record_of(pre + records_bytes(p), e, rest);
        assert(p.push(e) =~= es);
    }
}

/// Written digests read back as themselves.
pub proof fn lemma_digests_of(pre: Seq<u8>, ds: Seq<Seq<u8>>, rest: Seq<u8>)
    requires
        forall|i: int| 0 <= i < ds.len() ==> (#[trigger] ds[i]).len() == 16,
    ensures
        digests_bytes(ds).len() == 16 * ds.len(),
        digests_at(pre + digests_bytes(ds) + rest, pre.len() as int, ds.len()) == ds,
    decreases ds.len(),
{
    let data = pre + digests_bytes(ds) + rest;
    if ds.len() == 0 {
        assert(digests_at(data, pre.len() as int, 0) =~= ds);
    } else {
        let p = ds.drop_last();
        let d = ds.last();
        assert(ds[ds.len() - 1] == d);
        assert forall|i: int| 0 <= i < p.len() implies (#[trigger] p[i]).len() == 16 by {
            assert(p[i] == ds[i]);
        }
        lemma_digests_of(pre, p, d + rest);
        assert(data =~= pre + digests_bytes(p) + (d + rest));
        let at = (pre.len() + 16 * p.len()) as int;
        assert(data.subrange(at, at + 16) =~= d);
        assert(digests_at(data, pre.len() as int, ds.len()) =~= ds) by {
            assert forall|i: int| 0 <= i < ds.len() implies #[trigger] digests_at(
                data,
                pre.len() as int,
                ds.len(),
            )[i] == ds[i] by {
                if i < p.len() {
                    assert(digests_at(data, pre.len() as int, p.len())[i] == p[i]);
                }
            }
        }
    }
}

/// Whether each file entry fits its fields and names a UTF-8 path.
pub open spec fn files_fit(fs: Seq<FileModel>) -> bool {
    forall|i: int|
        0 <= i < fs.len() ==> file_fits(#[trigger] fs[i]) && vstd::utf8::valid_utf8(fs[i].0)
}

/// A written file entry reads back as itself.
pub proof fn lemma_parse_file_of(pre: Seq<u8>, f: FileModel, rest: Seq<u8>)
    requires
        file_fits(f),
        vstd::utf8::valid_utf8(f.0),
    ensures
        parse_file(pre + file_bytes(f) + rest, pre.len() as int) == Ok::<(FileModel, int), AppError>(
            (f, (pre.len() + file_bytes(f).len()) as int),
        ),
{
    lemma_auto_spec_u64_to_from_le_bytes();
    lemma_auto_spec_u32_to_from_le_bytes();
    let data = pre + file_bytes(f) + rest;
    let p = pre.len() as int;
    let a = spec_u32_to_le_bytes(f.0.len() as u32);
    let b = spec_u64_to_le_bytes(f.1);
    let c = spec_u32_to_le_bytes(f.2.len() as u32);
    let q = p + 4 + f.0.len();
    assert(data =~= (pre + a + f.0 + b + c) + digests_bytes(f.2) + rest);
    lemma_digests_of(pre + a + f.0 + b + c, f.2, rest);
    assert(data.subrange(p, p + 4) =~= a);
    assert(u32_at(data, p) == f.0.len());
    assert(data.subrange(p + 4, q) =~= f.0);
    assert(data.subrange(q, q + 8) =~= b);
    assert(data.subrange(q + 8, q + 12) =~= c);
    assert(u64_at(data, q) == f.1);
    assert(u32_at(data, q + 8) == f.2.len());
}

/// Written file entries read back as themselves, ending where they end.
pub proof fn lemma_parse_files_of(pre: Seq<u8>, fs: Seq<FileModel>, rest: Seq<u8>)
    requires
        files_fit(fs),
    ensures
        parse_files(pre + files_bytes(fs) + rest, pre.len() as int, fs.len()) == Ok::<
            (Seq<FileModel>, int),
            AppError,
        >((fs, (pre.len() + files_bytes(fs).len()) as int)),
    decreases fs.len(),
{
    if fs.len() == 0 {
        assert(fs =~= Seq::<FileModel>::empty());
    } else {
        let p = fs.drop_last();
        let f = fs.last();
        let r = file_bytes(f);
        assert(fs[fs.len() - 1] == f);
        assert(files_fit(p)) by {
            assert forall|i: int| 0 <= i < p.len() implies file_fits(#[trigger] p[i])
                && vstd::utf8::valid_utf8(p[i].0) by {
                assert(p[i] == fs[i]);
            }
        }
        let data = pre + files_bytes(fs) + rest;
        assert(data =~= pre + files_bytes(p) + (r + rest));
        lemma_parse_files_of(pre, p, r + rest);
        assert(data =~= (pre + files_bytes(p)) + r + rest);
        lemma_parse_file_of(pre + files_bytes(p), f, rest);
        assert(p.push(f) =~= fs);
    }
}

/// The header this version writes reads back as its version.
pub proof fn lemma_header_of(rest: Seq<u8>)
    ensures
        spec_verify_header(magic_bytes() + rest) == Ok::<Seq<char>, AppError>(VERSION@),
{
    lemma_magic_lengths();
    let data = magic_bytes() + rest;
    let v = data.subrange(MAGIC_LEN - VERSION_LEN, MAGIC_LEN as int);
    assert(data.subrange(0, MAGIC_LEN - VERSION_LEN) =~= prefix_bytes());
    assert(v =~= version_bytes());
    vstd::utf8::encode_utf8_valid_utf8(VERSION@);
    vstd::utf8::encode_utf8_decode_utf8(VERSION@);
    assert(v[2] == version_bytes()[2]);
}

/// A written archive opens: the header, timestamp and chunk table read back
/// as written, and the file table follows.
pub proof fn lemma_open_archive(timestamp: u64, es: Seq<ChunkEntry>, fs: Seq<FileModel>)
    requires
        records_fit(es),
        es.len() <= u64::MAX,
        fs.len() <= u32::MAX,
        files_fit(fs),
    ensures
        ({
            let data = archive_bytes(timestamp, es, fs);
            let fto = CHUNK_TABLE_OFFSET + records_bytes(es).len() + 4;
            &&& spec_open(data) == Ok::<ArchiveLayout, AppError>(
                ArchiveLayout {
                    version: VERSION@,
                    timestamp,
                    chunks: es,
                    file_count: fs.len() as u32,
                    file_table_offset: fto,
                },
            )
            &&& parse_files(data, fto, fs.len()) == Ok::<(Seq<FileModel>, int), AppError>(
                (fs, data.len() as int),
            )
        }),
{
    lemma_magic_lengths();
    lemma_auto_spec_u64_to_from_le_bytes();
    lemma_auto_spec_u32_to_from_le_bytes();
    let data = archive_bytes(timestamp, es, fs);
    let t = spec_u64_to_le_bytes(timestamp);
    let n = spec_u64_to_le_bytes(es.len() as u64);
    let fc = spec_u32_to_le_bytes(fs.len() as u32);
    let head = magic_bytes() + t + n;
    let rb = records_bytes(es);
    let fb = files_bytes(fs);
    assert(data =~= magic_bytes() + (t + n + rb + fc + fb));
    lemma_header_of(t + n + rb + fc + fb);
    assert(data =~= head + rb + (fc + fb));
    assert(data.subrange(TIMESTAMP_OFFSET as int, TIMESTAMP_OFFSET + 8) =~= t);
    assert(data.subrange(COUNT_OFFSET as int, COUNT_OFFSET + 8) =~= n);
    lemma_parse_records_of(head, es, fc + fb);
    let p = (head.len() + rb.len()) as int;
    assert(data.subrange(p, p + 4) =~= fc);
    assert(data =~= (head + rb + fc) + fb + Seq::<u8>::empty());
    lemma_parse_files_of(head + rb + fc, fs, Seq::<u8>::empty());
}

/// The bytes of `cs` joined in order.
pub open spec fn joined(cs: Seq<Seq<u8>>) -> Seq<u8>
    decreases cs.len(),
{
    if cs.len() == 0 {
        Seq::empty()
    } else {
        joined(cs.drop_last()) + cs.last()
    }
}

/// What reading back gives for the chunks `cs`: each compressed and then
/// decompressed, joined in order.
pub open spec fn restored(cs: Seq<Seq<u8>>) -> Seq<u8>
    decreases cs.len(),
{
    if cs.len() == 0 {
        Seq::empty()
    } else {
        restored(cs.drop_last()) + zstd_decompressed(zstd_compressed(cs.last(), COMPRESSION_LEVEL))
    }
}

/// Whether chunks with equal digests are equal.
pub open spec fn no_collisions(cs: Seq<Seq<u8>>) -> bool {
    forall|i: int, j: int|
        0 <= i < cs.len() && 0 <= j < cs.len() && spec_hash_chunk(#[trigger] cs[i])
            == spec_hash_chunk(#[trigger] cs[j]) ==> cs[i] == cs[j]
}

pub proof fn lemma_joined_append(a: Seq<Seq<u8>>, b: Seq<Seq<u8>>)
    ensures
        joined(a + b) == joined(a) + joined(b),
    decreases b.len(),
{
    if b.len() == 0 {
        assert(a + b =~= a);
        assert(joined(a) + joined(b) =~= joined(a));
    } else {
        lemma_joined_append(a, b.drop_last());
        assert((a + b).drop_last() =~= a + b.drop_last());
        assert((a + b).last() == b.last());
        assert(joined(a) + joined(b.drop_last()) + b.last() =~= joined(a) + (joined(
            b.drop_last(),
        ) + b.last()));
    }
}

/// Joining the chunks of `data` gives `data` back.
pub proof fn lemma_chunks_join(data: Seq<u8>)
    ensures
        joined(chunks_of(data)) == data,
    decreases data.len(),
{
    if data.len() == 0 {
        assert(joined(chunks_of(data)) =~= data);
    } else if data.len() <= CHUNK_SIZE {
        let one = seq![data];
        assert(chunks_of(data) == one);
        assert(one.drop_last() =~= Seq::<Seq<u8>>::empty());
        assert(joined(one.drop_last()) == Seq::<u8>::empty());
        assert(one.last() == data);
        assert(joined(one) =~= data);
    } else {
        let head = data.take(CHUNK_SIZE as int);
        let tail = data.skip(CHUNK_SIZE as int);
        lemma_chunks_join(tail);
        lemma_joined_append(seq![head], chunks_of(tail));
        let one = seq![head];
        assert(one.drop_last() =~= Seq::<Seq<u8>>::empty());
        assert(joined(one.drop_last()) == Seq::<u8>::empty());
        assert(one.last() == head);
        assert(joined(one) =~= head);
        assert(chunks_of(data) == one + chunks_of(tail));
        assert(head + tail =~= data);
    }
}

/// Where compression round-trips on every chunk, what reading back gives is
/// the chunks joined.
pub proof fn lemma_restored_is_joined(cs: Seq<Seq<u8>>)
    requires
        forall|k: int|
            0 <= k < cs.len() ==> zstd_decompressed(zstd_compressed(#[trigger] cs[k], COMPRESSION_LEVEL))
                == cs[k],
    ensures
        restored(cs) == joined(cs),
    decreases cs.len(),
{
    if cs.len() > 0 {
        let p = cs.drop_last();
        assert forall|k: int| 0 <= k < p.len() implies zstd_decompressed(
            zstd_compressed(#[trigger] p[k], COMPRESSION_LEVEL),
        ) == p[k] by {
            assert(p[k] == cs[k]);
        }
        lemma_restored_is_joined(p);
        assert(cs[cs.len() - 1] == cs.last());
    }
}

/// With distinct digests, each record's digest maps to its decompressed bytes.
pub proof fn lemma_chunk_map_of(es: Seq<ChunkEntry>)
    requires
        forall|i: int, j: int| 0 <= i < j < es.len() ==> (#[trigger] es[i]).0 != (#[trigger] es[j]).0,
    ensures
        forall|i: int|
            0 <= i < es.len() ==> chunk_map(es).contains_key((#[trigger] es[i]).0) && chunk_map(
                es,
            )[es[i].0] == zstd_decompressed(es[i].2),
    decreases es.len(),
{
    if es.len() > 0 {
        let p = es.drop_last();
        assert forall|i: int, j: int| 0 <= i < j < p.len() implies (#[trigger] p[i]).0 != (
        #[trigger] p[j]).0 by {
            assert(p[i] == es[i]);
            assert(p[j] == es[j]);
        }
        lemma_chunk_map_of(p);
        assert forall|i: int| 0 <= i < es.len() implies chunk_map(es).contains_key(
            (#[trigger] es[i]).0,
        ) && chunk_map(es)[es[i].0] == zstd_decompressed(es[i].2) by {
            if i < p.len() {
                assert(p[i] == es[i]);
                assert(es[i].0 != es[es.len() - 1].0);
            }
        }
    }
}

/// A file whose every chunk maps to its decompressed bytes rebuilds as the
/// restored chunks.
pub proof fn lemma_rebuild_of(m: Map<Seq<u8>, Seq<u8>>, cs: Seq<Seq<u8>>)
    requires
        forall|k: int|
            0 <= k < cs.len() ==> m.contains_key(spec_hash_chunk(#[trigger] cs[k])) && m[spec_hash_chunk(
                cs[k],
            )] == zstd_decompressed(zstd_compressed(cs[k], COMPRESSION_LEVEL)),
    ensures
        spec_rebuild(m, digests_of(cs)) == Some(restored(cs)),
    decreases cs.len(),
{
    if cs.len() > 0 {
        let p = cs.drop_last();
        assert forall|k: int| 0 <= k < p.len() implies m.contains_key(
            spec_hash_chunk(#[trigger] p[k]),
        ) && m[spec_hash_chunk(p[k])] == zstd_decompressed(
            zstd_compressed(p[k], COMPRESSION_LEVEL),
        ) by {
            assert(p[k] == cs[k]);
        }
        lemma_rebuild_of(m, p);
        assert(digests_of(cs).drop_last() =~= digests_of(p));
        assert(digests_of(cs).last() == spec_hash_chunk(cs[cs.len() - 1]));
    }
}

/// Every stored chunk is one of the chunks, and there are no more of them.
pub proof fn lemma_first_sights_from(seen: Set<Seq<u8>>, cs: Seq<Seq<u8>>)
    ensures
        first_sights(seen, cs).len() <= cs.len(),
        forall|i: int|
            0 <= i < first_sights(seen, cs).len() ==> exists|k: int|
                0 <= k < cs.len() && cs[k] == #[trigger] first_sights(seen, cs)[i],
    decreases cs.len(),
{
    if cs.len() > 0 {
        let p = cs.drop_last();
        lemma_first_sights_from(seen, p);
        let f = first_sights(seen, cs);
        let fp = first_sights(seen, p);
        assert forall|i: int| 0 <= i < f.len() implies exists|k: int|
            0 <= k < cs.len() && cs[k] == #[trigger] f[i] by {
            if i < fp.len() {
                assert(f[i] == fp[i]);
                let k = choose|k: int| 0 <= k < p.len() && p[k] == fp[i];
                assert(cs[k] == p[k]);
            } else {
                assert(cs[cs.len() - 1] == f[i]);
            }
        }
    }
}

/// Each chunk of each file is among all the chunks.
pub proof fn lemma_all_chunks_contains(files: Seq<(Seq<u8>, Seq<u8>)>, i: int, k: int)
    requires
        0 <= i < files.len(),
        0 <= k < chunks_of(files[i].1).len(),
    ensures
        exists|j: int|
            0 <= j < all_chunks(files).len() && all_chunks(files)[j] == chunks_of(files[i].1)[k],
    decreases files.len(),
{
    let p = files.drop_last();
    let a = all_chunks(p);
    let b = chunks_of(files.last().1);
    assert(all_chunks(files) == a + b);
    if i < p.len() {
        assert(p[i] == files[i]);
        lemma_all_chunks_contains(p, i, k);
        let j = choose|j: int| 0 <= j < a.len() && a[j] == chunks_of(p[i].1)[k];
        assert((a + b)[j] == a[j]);
    } else {
        assert((a + b)[a.len() + k] == b[k]);
    }
}

/// Every chunk is at most `CHUNK_SIZE` bytes long.
pub proof fn lemma_chunks_of_len(data: Seq<u8>)
    ensures
        forall|k: int|
            0 <= k < chunks_of(data).len() ==> (#[trigger] chunks_of(data)[k]).len() <= CHUNK_SIZE,
    decreases data.len(),
{
    if data.len() > CHUNK_SIZE {
        let tail = data.skip(CHUNK_SIZE as int);
        lemma_chunks_of_len(tail);
        let cs = chunks_of(data);
        assert(cs == seq![data.take(CHUNK_SIZE as int)] + chunks_of(tail));
        assert forall|k: int| 0 <= k < cs.len() implies (#[trigger] cs[k]).len() <= CHUNK_SIZE by {
            if k > 0 {
                assert(cs[k] == chunks_of(tail)[k - 1]);
            }
        }
    } else if data.len() > 0 {
        assert(chunks_of(data) == seq![data]);
    }
}

/// Every chunk of every file is at most `CHUNK_SIZE` bytes long.
pub proof fn lemma_all_chunks_len(files: Seq<(Seq<u8>, Seq<u8>)>)
    ensures
        forall|j: int|
            0 <= j < all_chunks(files).len() ==> (#[trigger] all_chunks(files)[j]).len()
                <= CHUNK_SIZE,
    decreases files.len(),
{
    if files.len() > 0 {
        let p = files.drop_last();
        lemma_all_chunks_len(p);
        let b = chunks_of(files.last().1);
        lemma_chunks_of_len(files.last().1);
        let a = all_chunks(p);
        assert(all_chunks(files) == a + b);
        assert forall|j: int| 0 <= j < (a + b).len() implies (#[trigger] (a + b)[j]).len()
            <= CHUNK_SIZE by {
            if j >= a.len() {
                assert((a + b)[j] == b[j - a.len()]);
            } else {
                assert((a + b)[j] == a[j]);
            }
        }
    }
}

/// The chunk table that packing `files` writes.
pub open spec fn table_entries(files: Seq<(Seq<u8>, Seq<u8>)>) -> Seq<ChunkEntry> {
    first_sights(Set::empty(), all_chunks(files)).map_values(|c: Seq<u8>| chunk_entry(c))
}

/// The written chunk table has distinct digests, fits its fields, and every
/// record decodes within the size ceiling.
pub proof fn lemma_table_entries(files: Seq<(Seq<u8>, Seq<u8>)>)
    requires
        forall|j: int|
            0 <= j < all_chunks(files).len() ==> zstd_compressed(
                #[trigger] all_chunks(files)[j],
                COMPRESSION_LEVEL,
            ).len() <= u64::MAX,
        stored_round_trip(files),
    ensures
        records_fit(table_entries(files)),
        all_records_decode(table_entries(files)),
        table_entries(files).len() <= all_chunks(files).len(),
        forall|i: int, j: int|
            0 <= i < j < table_entries(files).len() ==> (#[trigger] table_entries(files)[i]).0 != (
            #[trigger] table_entries(files)[j]).0,
{
    let all = all_chunks(files);
    let t = first_sights(Set::empty(), all);
    let es = table_entries(files);
    lemma_first_sights_from(Set::empty(), all);
    lemma_first_sights_exactly_once(Set::empty(), all);
    lemma_all_chunks_len(files);
    assert forall|i: int| 0 <= i < es.len() implies (#[trigger] es[i]).0.len() == 16
        && es[i].2.len() <= u64::MAX && record_decodes(es[i]) by {
        lemma_digest_len(t[i]);
        let k = choose|k: int| 0 <= k < all.len() && all[k] == t[i];
        assert(round_trips(t[i]));
    }
    assert forall|i: int, j: int| 0 <= i < j < es.len() implies (#[trigger] es[i]).0 != (
    #[trigger] es[j]).0 by {
        assert(es[i].0 == spec_hash_chunk(t[i]));
        assert(es[j].0 == spec_hash_chunk(t[j]));
    }
}

/// Each packed file rebuilds from the written chunk table as its own bytes.
pub proof fn lemma_file_rebuilds(files: Seq<(Seq<u8>, Seq<u8>)>, i: int)
    requires
        0 <= i < files.len(),
        forall|j: int|
            0 <= j < all_chunks(files).len() ==> zstd_compressed(
                #[trigger] all_chunks(files)[j],
                COMPRESSION_LEVEL,
            ).len() <= u64::MAX,
        stored_round_trip(files),
        no_collisions(all_chunks(files)),
    ensures
        spec_rebuild(chunk_map(table_entries(files)), digests_of(chunks_of(files[i].1))) == Some(
            files[i].1,
        ),
{
    let all = all_chunks(files);
    let t = first_sights(Set::empty(), all);
    let es = table_entries(files);
    lemma_table_entries(files);
    lemma_first_sights_from(Set::empty(), all);
    lemma_first_sights_exactly_once(Set::empty(), all);
    lemma_chunk_map_of(es);
    let m = chunk_map(es);
    let cs = chunks_of(files[i].1);
    assert forall|k: int| 0 <= k < cs.len() implies m.contains_key(
        spec_hash_chunk(#[trigger] cs[k]),
    ) && m[spec_hash_chunk(cs[k])] == zstd_decompressed(zstd_compressed(cs[k], COMPRESSION_LEVEL))
        && zstd_decompressed(zstd_compressed(cs[k], COMPRESSION_LEVEL)) == cs[k] by {
        lemma_all_chunks_contains(files, i, k);
        let j = choose|j: int| 0 <= j < all.len() && all[j] == cs[k];
        assert(!Set::<Seq<u8>>::empty().contains(spec_hash_chunk(all[j])));
        let x = choose|x: int| 0 <= x < t.len() && spec_hash_chunk(t[x]) == spec_hash_chunk(all[j]);
        let y = choose|y: int| 0 <= y < all.len() && all[y] == t[x];
        assert(all[y] == all[j]);
        assert(es[x].0 == spec_hash_chunk(cs[k]));
        assert(round_trips(t[x]));
    }
    lemma_rebuild_of(m, cs);
    lemma_restored_is_joined(cs);
    lemma_chunks_join(files[i].1);
}

/// Packing files and reading the archive back gives the files back: the
/// archive opens with this version and timestamp, every chunk record
/// decodes within the size ceiling, the file table lists each file under
/// its relative path with its size, and each file rebuilds as its own bytes
/// (empty files and exact multiples of the chunk size included).
///
/// Every stored chunk round-trips through compression; the contract of
/// [`ArchiveWriter::pack`](crate::writer::ArchiveWriter::pack) states this of
/// the archives it writes. Chunks are identified by digest alone, so this
/// holds where no two different chunks share a digest; and the archive's
/// length fields must hold the counts and sizes.
#[verifier::rlimit(50)]
pub proof fn lemma_pack_unpack_round_trip(
    root: Seq<u8>,
    files: Seq<(Seq<u8>, Seq<u8>)>,
    timestamp: u64,
)
    requires
        all_under_root(root, files),
        table_fits(packed_models(root, files)),
        all_chunks(files).len() <= u64::MAX,
        forall|j: int|
            0 <= j < all_chunks(files).len() ==> zstd_compressed(
                #[trigger] all_chunks(files)[j],
                COMPRESSION_LEVEL,
            ).len() <= u64::MAX,
        stored_round_trip(files),
        no_collisions(all_chunks(files)),
    ensures
        ({
            let data = spec_pack(root, files, timestamp);
            &&& spec_open(data) matches Ok(l) && {
                &&& l.version == VERSION@
                &&& l.timestamp == timestamp
                &&& all_records_decode(l.chunks)
                &&& archive_rebuilds(data, l)
                &&& parse_files(data, l.file_table_offset, l.file_count as nat) == Ok::<
                    (Seq<FileModel>, int),
                    AppError,
                >((packed_models(root, files), data.len() as int))
                &&& forall|i: int|
                    0 <= i < files.len() ==> spec_rebuild(
                        chunk_map(l.chunks),
                        (#[trigger] packed_models(root, files)[i]).2,
                    ) == Some(files[i].1)
            }
        }),
{
    let es = table_entries(files);
    let fs = packed_models(root, files);
    lemma_table_entries(files);
    assert(files_fit(fs)) by {
        assert forall|i: int| 0 <= i < fs.len() implies file_fits(#[trigger] fs[i])
            && vstd::utf8::valid_utf8(fs[i].0) by {
            assert(fs[i] == packed_model(root, files[i]));
            assert(spec_relative(root, files[i].0) is Some);
        }
    }
    lemma_open_archive(timestamp, es, fs);
    assert forall|i: int| 0 <= i < files.len() implies spec_rebuild(
        chunk_map(es),
        (#[trigger] fs[i]).2,
    ) == Some(files[i].1) by {
        lemma_file_rebuilds(files, i);
        assert(fs[i] == packed_model(root, files[i]));
    }
    let data = spec_pack(root, files, timestamp);
    assert(data == archive_bytes(timestamp, es, fs));
    let l = spec_open(data)->Ok_0;
    assert(archive_rebuilds(data, l));
}

} // verus!
