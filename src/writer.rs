use std::sync::Arc;

use vstd::bytes::*;
use vstd::prelude::*;
use vstd::slice::slice_subrange;
use vstd::string::StringSliceAdditionalSpecFns;

use crate::chunk::{
    round_trips, spec_hash_chunk, zstd_compressed, ChunkHash, ChunkStore, CHUNK_SIZE,
    COMPRESSION_LEVEL,
};
use crate::errors::AppError;
use crate::format::{
    archive_bytes, entries_of, file_fits, models_of, record_bytes, records_bytes, table_fits,
    write_chunks, write_files_metadata, ChunkEntry, ChunkMessage, FileModel, FileRecord,
};
use crate::header::{
    decode_text, lemma_magic_lengths, magic_bytes, patch_u64, write_header, write_placeholder_u64,
    write_timestamp, MAGIC_LEN,
};

verus! {

/// ASCII `/`, which separates path components.
pub const SEPARATOR: u8 = 0x2f;

/// `root` without one trailing separator.
pub open spec fn trimmed_root(root: Seq<u8>) -> Seq<u8> {
    if root.len() > 0 && root.last() == SEPARATOR {
        root.drop_last()
    } else {
        root
    }
}

/// The bytes of `path` after `root` and a separator, if `path` lies under
/// `root` and names something below it.
pub open spec fn spec_relative(root: Seq<u8>, path: Seq<u8>) -> Option<Seq<u8>> {
    let r = trimmed_root(root);
    if path.len() > r.len() + 1 && path.subrange(0, r.len() as int) == r && path[r.len() as int]
        == SEPARATOR {
        Some(path.subrange(r.len() as int + 1, path.len() as int))
    } else {
        None
    }
}

/// `data` cut into windows of `CHUNK_SIZE` bytes; the last may be shorter.
/// Empty data has no chunks.
pub open spec fn chunks_of(data: Seq<u8>) -> Seq<Seq<u8>>
    decreases data.len(),
{
    if data.len() == 0 {
        Seq::empty()
    } else if data.len() <= CHUNK_SIZE {
        seq![data]
    } else {
        seq![data.take(CHUNK_SIZE as int)] + chunks_of(data.skip(CHUNK_SIZE as int))
    }
}

/// The digests in `seen` together with those of `cs`.
pub open spec fn digest_set(seen: Set<Seq<u8>>, cs: Seq<Seq<u8>>) -> Set<Seq<u8>>
    decreases cs.len(),
{
    if cs.len() == 0 {
        seen
    } else {
        digest_set(seen, cs.drop_last()).insert(spec_hash_chunk(cs.last()))
    }
}

/// The chunks of `cs`, in order, whose digest is neither in `seen` nor the
/// digest of an earlier chunk of `cs`: those that are stored.
pub open spec fn first_sights(seen: Set<Seq<u8>>, cs: Seq<Seq<u8>>) -> Seq<Seq<u8>>
    decreases cs.len(),
{
    if cs.len() == 0 {
        Seq::empty()
    } else if digest_set(seen, cs.drop_last()).contains(spec_hash_chunk(cs.last())) {
        first_sights(seen, cs.drop_last())
    } else {
        first_sights(seen, cs.drop_last()).push(cs.last())
    }
}

/// The chunk-table record of a stored chunk.
pub open spec fn chunk_entry(c: Seq<u8>) -> ChunkEntry {
    (spec_hash_chunk(c), c.len() as u64, zstd_compressed(c, COMPRESSION_LEVEL))
}

pub open spec fn digests_of(cs: Seq<Seq<u8>>) -> Seq<Seq<u8>> {
    cs.map_values(|c: Seq<u8>| spec_hash_chunk(c))
}

/// An input file: its path and its contents.
pub type InputFile = (String, Vec<u8>);

pub open spec fn input_view(f: InputFile) -> (Seq<u8>, Seq<u8>) {
    (vstd::utf8::encode_utf8(f.0@), f.1@)
}

pub open spec fn inputs_view(files: Seq<InputFile>) -> Seq<(Seq<u8>, Seq<u8>)> {
    files.map_values(|f: InputFile| input_view(f))
}

/// All chunks of the files, file after file.
pub open spec fn all_chunks(files: Seq<(Seq<u8>, Seq<u8>)>) -> Seq<Seq<u8>>
    decreases files.len(),
{
    if files.len() == 0 {
        Seq::empty()
    } else {
        all_chunks(files.drop_last()) + chunks_of(files.last().1)
    }
}

/// The file-table entry of one packed file.
pub open spec fn packed_model(root: Seq<u8>, f: (Seq<u8>, Seq<u8>)) -> FileModel {
    (spec_relative(root, f.0)->Some_0, f.1.len() as u64, digests_of(chunks_of(f.1)))
}

pub open spec fn packed_models(root: Seq<u8>, files: Seq<(Seq<u8>, Seq<u8>)>) -> Seq<FileModel> {
    files.map_values(|f: (Seq<u8>, Seq<u8>)| packed_model(root, f))
}

/// Whether every file lies under `root` with a UTF-8 relative path.
pub open spec fn all_under_root(root: Seq<u8>, files: Seq<(Seq<u8>, Seq<u8>)>) -> bool {
    forall|i: int|
        0 <= i < files.len() ==> {
            &&& (#[trigger] spec_relative(root, files[i].0)) is Some
            &&& vstd::utf8::valid_utf8(spec_relative(root, files[i].0)->Some_0)
        }
}

/// The archive that packing `files` under `root` at `timestamp` produces.
pub open spec fn spec_pack(
    root: Seq<u8>,
    files: Seq<(Seq<u8>, Seq<u8>)>,
    timestamp: u64,
) -> Seq<u8> {
    archive_bytes(
        timestamp,
        first_sights(Set::empty(), all_chunks(files)).map_values(|c: Seq<u8>| chunk_entry(c)),
        packed_models(root, files),
    )
}

/// Whether every stored chunk of `files` round-trips through compression.
pub open spec fn stored_round_trip(files: Seq<(Seq<u8>, Seq<u8>)>) -> bool {
    forall|i: int|
        0 <= i < first_sights(Set::empty(), all_chunks(files)).len() ==> round_trips(
            #[trigger] first_sights(Set::empty(), all_chunks(files))[i],
        )
}

/// Splitting `cs` after a prefix: the stored chunks and the digest set of
/// the whole are those of the prefix followed by those of the rest.
pub proof fn lemma_first_sights_append(seen: Set<Seq<u8>>, a: Seq<Seq<u8>>, b: Seq<Seq<u8>>)
    ensures
        digest_set(seen, a + b) == digest_set(digest_set(seen, a), b),
        first_sights(seen, a + b) == first_sights(seen, a) + first_sights(
            digest_set(seen, a),
            b,
        ),
    decreases b.len(),
{
    if b.len() == 0 {
        assert(a + b =~= a);
        assert(first_sights(seen, a) + first_sights(digest_set(seen, a), b) =~= first_sights(
            seen,
            a,
        ));
    } else {
        lemma_first_sights_append(seen, a, b.drop_last());
        assert((a + b).drop_last() =~= a + b.drop_last());
        assert((a + b).last() == b.last());
        let s = first_sights(seen, a);
        let t = first_sights(digest_set(seen, a), b.drop_last());
        assert((s + t).push(b.last()) =~= s + t.push(b.last()));
    }
}

/// The store grows by one digest per stored chunk.
pub proof fn lemma_digest_set_len(seen: Set<Seq<u8>>, cs: Seq<Seq<u8>>)
    requires
        seen.finite(),
    ensures
        digest_set(seen, cs).finite(),
        digest_set(seen, cs).len() == seen.len() + first_sights(seen, cs).len(),
        seen.subset_of(digest_set(seen, cs)),
    decreases cs.len(),
{
    if cs.len() > 0 {
        lemma_digest_set_len(seen, cs.drop_last());
    }
}

/// Path of `path` relative to `root`.
pub fn relative_path(root: &str, path: &str) -> (r: Result<String, AppError>)
    ensures
        match spec_relative(root.spec_bytes(), path.spec_bytes()) {
            None => r matches Err(AppError::PathEscapesRoot(p)) && p@ == path@,
            Some(b) => if vstd::utf8::valid_utf8(b) {
                r matches Ok(s) && vstd::utf8::encode_utf8(s@) == b
            } else {
                r == Err::<String, AppError>(AppError::IllegalUTF8)
            },
        },
{
    let rb = root.as_bytes();
    let pb = path.as_bytes();
    let ghost r_spec = trimmed_root(rb@);
    let rlen: usize = if rb.len() > 0 && rb[rb.len() - 1] == SEPARATOR {
        rb.len() - 1
    } else {
        rb.len()
    };
    assert(r_spec =~= rb@.subrange(0, rlen as int));
    if pb.len() <= rlen || pb.len() - rlen < 2 {
        assert(spec_relative(root.spec_bytes(), path.spec_bytes()) is None);
        let p = path.to_owned();
        assert(p@ == path@);
        return Err(AppError::PathEscapesRoot(p));
    }
    let mut i: usize = 0;
    while i < rlen
        invariant
            rlen <= rb@.len(),
            rlen < pb@.len(),
            rb@ == root.spec_bytes(),
            pb@ == path.spec_bytes(),
            r_spec == trimmed_root(rb@),
            r_spec == rb@.subrange(0, rlen as int),
            i <= rlen,
            forall|j: int| 0 <= j < i ==> pb@[j] == rb@[j],
        decreases rlen - i,
    {
        if pb[i] != rb[i] {
            assert(pb@.subrange(0, rlen as int)[i as int] != r_spec[i as int]);
            return Err(AppError::PathEscapesRoot(path.to_owned()));
        }
        i = i + 1;
    }
    assert(pb@.subrange(0, rlen as int) =~= r_spec);
    if pb[rlen] != SEPARATOR {
        return Err(AppError::PathEscapesRoot(path.to_owned()));
    }
    let rel = slice_subrange(pb, rlen + 1, pb.len());
    match decode_text(rel) {
        Some(s) => Ok(s),
        None => Err(AppError::IllegalUTF8),
    }
}

/// Cuts `contents` into chunks, records each in `chunk_store`, and returns
/// the file's metadata with the ordered digests, and a message for each
/// chunk seen for the first time, in reading order.
pub fn process_file(
    file_path: &str,
    input_dir: &str,
    chunk_store: &mut ChunkStore,
    contents: &[u8],
) -> (r: Result<(FileRecord, Vec<ChunkMessage>), AppError>)
    requires
        old(chunk_store)@.finite(),
    ensures
        match spec_relative(input_dir.spec_bytes(), file_path.spec_bytes()) {
            None => r matches Err(AppError::PathEscapesRoot(p)) && p@ == file_path@,
            Some(b) => if !vstd::utf8::valid_utf8(b) {
                r == Err::<(FileRecord, Vec<ChunkMessage>), AppError>(AppError::IllegalUTF8)
            } else {
                r is Ok
            },
        },
        r is Err ==> final(chunk_store)@ == old(chunk_store)@,
        r matches Ok((rec, msgs)) ==> {
            &&& rec.model() == packed_model(
                input_dir.spec_bytes(),
                (file_path.spec_bytes(), contents@),
            )
            &&& entries_of(msgs@) == first_sights(
                old(chunk_store)@,
                chunks_of(contents@),
            ).map_values(|c: Seq<u8>| chunk_entry(c))
            &&& final(chunk_store)@ == digest_set(old(chunk_store)@, chunks_of(contents@))
            &&& forall|i: int|
                0 <= i < first_sights(old(chunk_store)@, chunks_of(contents@)).len()
                    ==> round_trips(
                    #[trigger] first_sights(old(chunk_store)@, chunks_of(contents@))[i],
                )
        },
{
    let rel_path = relative_path(input_dir, file_path)?;
    let ghost seen = chunk_store@;
    let ghost all = chunks_of(contents@);
    let ghost mut done: Seq<Seq<u8>> = Seq::empty();
    let mut hashes: Vec<ChunkHash> = Vec::new();
    let mut msgs: Vec<ChunkMessage> = Vec::new();
    let mut offset: usize = 0;
    assert(contents@.skip(0) =~= contents@);
    assert(done + all =~= all);
    while offset < contents.len()
        invariant
            offset <= contents@.len(),
            spec_relative(input_dir.spec_bytes(), file_path.spec_bytes()) is Some,
            vstd::utf8::valid_utf8(
                spec_relative(input_dir.spec_bytes(), file_path.spec_bytes())->Some_0,
            ),
            all == chunks_of(contents@),
            all == done + chunks_of(contents@.skip(offset as int)),
            hashes@.map_values(|h: ChunkHash| h@) == digests_of(done),
            entries_of(msgs@) == first_sights(seen, done).map_values(
                |c: Seq<u8>| chunk_entry(c),
            ),
            chunk_store@ == digest_set(seen, done),
            forall|i: int|
                0 <= i < first_sights(seen, done).len() ==> round_trips(
                    #[trigger] first_sights(seen, done)[i],
                ),
        decreases contents@.len() - offset,
    {
        let rest_len = contents.len() - offset;
        let end: usize = if rest_len <= CHUNK_SIZE {
            contents.len()
        } else {
            offset + CHUNK_SIZE
        };
        let slice = slice_subrange(contents, offset, end);
        let ghost rest = contents@.skip(offset as int);
        proof {
            if rest_len <= CHUNK_SIZE {
                assert(slice@ =~= rest);
                assert(chunks_of(rest) == seq![rest]);
                assert(contents@.skip(end as int) =~= Seq::<u8>::empty());
                assert(chunks_of(contents@.skip(end as int)) =~= Seq::<Seq<u8>>::empty());
                assert(chunks_of(rest) =~= seq![slice@] + chunks_of(contents@.skip(end as int)));
            } else {
                assert(slice@ =~= rest.take(CHUNK_SIZE as int));
                assert(rest.skip(CHUNK_SIZE as int) =~= contents@.skip(end as int));
            }
        }
        let ghost old_store = chunk_store@;
        let ghost old_msgs = msgs@;
        let result = chunk_store.insert(slice)?;
        let h = result.hash;
        let ghost first = result.compressed_data.is_some();
        proof {
            let nd = done.push(slice@);
            assert(nd.drop_last() =~= done);
            assert(all =~= nd + chunks_of(contents@.skip(end as int)));
        }
        if let Some(compressed) = result.compressed_data {
            let msg = ChunkMessage {
                hash: h,
                compressed_data: compressed,
                original_size: slice.len() as u64,
            };
            msgs.push(msg);
            proof {
                assert(msg.entry() == chunk_entry(slice@));
                assert(entries_of(msgs@) =~= entries_of(old_msgs).push(chunk_entry(slice@)));
            }
        } else {
            assert(entries_of(msgs@) == entries_of(old_msgs));
        }
        let ghost old_hashes = hashes@;
        hashes.push(h);
        proof {
            let nd = done.push(slice@);
            assert(hashes@ == old_hashes.push(h));
            assert(h@ == spec_hash_chunk(slice@));
            assert(old_hashes.map_values(|x: ChunkHash| x@).len() == done.len());
            assert(hashes@.len() == nd.len());
            assert forall|j: int| 0 <= j < nd.len() implies hashes@.map_values(
                |x: ChunkHash| x@,
            )[j] == digests_of(nd)[j] by {
                if j < done.len() {
                    assert(old_hashes.map_values(|x: ChunkHash| x@)[j] == digests_of(done)[j]);
                    assert(hashes@[j] == old_hashes[j]);
                }
            }
            assert(hashes@.map_values(|h: ChunkHash| h@) =~= digests_of(nd));
            assert(nd.drop_last() =~= done);
            assert(nd.last() == slice@);
            assert(digest_set(seen, done) == old_store);
            if first {
                assert(first_sights(seen, nd) == first_sights(seen, done).push(slice@));
                assert(round_trips(slice@));
                assert forall|i: int| 0 <= i < first_sights(seen, nd).len() implies round_trips(
                    #[trigger] first_sights(seen, nd)[i],
                ) by {
                    if i < first_sights(seen, done).len() {
                        assert(first_sights(seen, nd)[i] == first_sights(seen, done)[i]);
                    }
                }
                assert(first_sights(seen, nd).map_values(|c: Seq<u8>| chunk_entry(c))
                    =~= first_sights(seen, done).map_values(|c: Seq<u8>| chunk_entry(c)).push(
                    chunk_entry(slice@),
                ));
            } else {
                assert(first_sights(seen, nd) == first_sights(seen, done));
            }
            assert(entries_of(msgs@) =~= first_sights(seen, nd).map_values(
                |c: Seq<u8>| chunk_entry(c),
            ));
            done = nd;
        }
        offset = end;
    }
    proof {
        assert(contents@.skip(offset as int) =~= Seq::<u8>::empty());
        assert(chunks_of(contents@.skip(offset as int)) =~= Seq::<Seq<u8>>::empty());
        assert(done =~= all);
    }
    let rec = FileRecord {
        path: rel_path,
        original_size: contents.len() as u64,
        chunk_hashes: hashes,
    };
    Ok((rec, msgs))
}

/// Records of a concatenation are the records of each part.
pub proof fn lemma_records_bytes_append(a: Seq<ChunkEntry>, b: Seq<ChunkEntry>)
    ensures
        records_bytes(a + b) == records_bytes(a) + records_bytes(b),
    decreases b.len(),
{
    if b.len() == 0 {
        assert(a + b =~= a);
        assert(records_bytes(a) + records_bytes(b) =~= records_bytes(a));
    } else {
        lemma_records_bytes_append(a, b.drop_last());
        assert((a + b).drop_last() =~= a + b.drop_last());
        assert((a + b).last() == b.last());
        assert(records_bytes(a) + records_bytes(b.drop_last()) + record_bytes(b.last())
            =~= records_bytes(a) + (records_bytes(b.drop_last()) + record_bytes(b.last())));
    }
}

/// A digest is 16 bytes long.
pub proof fn lemma_digest_len(c: Seq<u8>)
    ensures
        spec_hash_chunk(c).len() == 16,
{
    lemma_auto_spec_u128_to_from_le_bytes();
}

/// Builds an archive in memory: header, timestamp and a reserved chunk
/// count first, then the chunk table, then the file table.
pub struct ArchiveWriter {
    out: Vec<u8>,
    chunk_store: ChunkStore,
    input_path: String,
    chunks_count_position: u64,
    timestamp: u64,
}

impl ArchiveWriter {
    /// The bytes written so far.
    pub closed spec fn bytes(&self) -> Seq<u8> {
        self.out@
    }

    /// The directory that packed paths are taken relative to.
    pub closed spec fn root(&self) -> Seq<u8> {
        vstd::utf8::encode_utf8(self.input_path@)
    }

    pub closed spec fn timestamp(&self) -> u64 {
        self.timestamp
    }

    /// Whether nothing has been packed yet.
    pub closed spec fn fresh(&self) -> bool {
        &&& self.out@ == magic_bytes() + spec_u64_to_le_bytes(self.timestamp)
            + spec_u64_to_le_bytes(0)
        &&& self.chunk_store@ == Set::<Seq<u8>>::empty()
        &&& self.chunks_count_position == MAGIC_LEN + 8
    }

    /// Starts an archive of files under `input_dir`, created at `timestamp`
    /// (seconds since the UNIX epoch).
    pub fn new(input_dir: &str, timestamp: u64) -> (w: ArchiveWriter)
        ensures
            w.fresh(),
            w.root() == input_dir.spec_bytes(),
            w.timestamp() == timestamp,
            w.bytes() == magic_bytes() + spec_u64_to_le_bytes(timestamp) + spec_u64_to_le_bytes(
                0,
            ),
    {
        proof {
            lemma_magic_lengths();
            lemma_auto_spec_u64_to_from_le_bytes();
        }
        let mut out: Vec<u8> = Vec::new();
        write_header(&mut out);
        write_timestamp(&mut out, timestamp);
        let chunks_count_position = write_placeholder_u64(&mut out);
        let input_path = input_dir.to_owned();
        ArchiveWriter {
            out,
            chunk_store: ChunkStore::new(),
            input_path,
            chunks_count_position,
            timestamp,
        }
    }

    /// The archive written so far.
    pub fn as_bytes(&self) -> (r: &Vec<u8>)
        ensures
            r@ == self.bytes(),
    {
        &self.out
    }

    /// Packs `files`, each a path under the root and its contents: the chunk
    /// table receives each distinct chunk once, the reserved count is set to
    /// the number of distinct chunks, and the file table follows. Returns the
    /// archive's size in bytes.
    pub fn pack(&mut self, files: &Vec<InputFile>) -> (r: Result<u64, AppError>)
        requires
            old(self).fresh(),
        ensures
            final(self).root() == old(self).root(),
            final(self).timestamp() == old(self).timestamp(),
            r matches Ok(size) ==> {
                &&& final(self).bytes() == spec_pack(
                    old(self).root(),
                    inputs_view(files@),
                    old(self).timestamp(),
                )
                &&& size == final(self).bytes().len()
            },
            r matches Err(e) ==> match e {
                AppError::PathEscapesRoot(_) => !all_under_root(
                    old(self).root(),
                    inputs_view(files@),
                ),
                AppError::IllegalUTF8 => !all_under_root(old(self).root(), inputs_view(files@)),
                AppError::Archive(_) => !table_fits(
                    packed_models(old(self).root(), inputs_view(files@)),
                ),
                _ => false,
            },
            r is Ok <==> (all_under_root(old(self).root(), inputs_view(files@)) && table_fits(
                packed_models(old(self).root(), inputs_view(files@)),
            )),
            r is Ok ==> stored_round_trip(inputs_view(files@)),
    {
        let ghost root = self.root();
        let ghost inp = inputs_view(files@);
        let ghost base = self.out@;
        proof {
            lemma_magic_lengths();
            lemma_auto_spec_u64_to_from_le_bytes();
        }
        if files.len() > u32::MAX as usize {
            return Err(AppError::Archive("too many files for the archive format".to_owned()));
        }
        let mut records: Vec<FileRecord> = Vec::new();
        let mut i: usize = 0;
        while i < files.len()
            invariant
                i <= files@.len(),
                files@.len() <= u32::MAX,
                inp == inputs_view(files@),
                root == self.root(),
                self.timestamp() == old(self).timestamp(),
                self.root() == old(self).root(),
                self.chunks_count_position == MAGIC_LEN + 8,
                base == magic_bytes() + spec_u64_to_le_bytes(self.timestamp)
                    + spec_u64_to_le_bytes(0),
                base.len() == MAGIC_LEN + 16,
                self.chunk_store@ == digest_set(Set::empty(), all_chunks(inp.take(i as int))),
                self.out@ == base + records_bytes(
                    first_sights(Set::empty(), all_chunks(inp.take(i as int))).map_values(
                        |c: Seq<u8>| chunk_entry(c),
                    ),
                ),
                models_of(records@) == packed_models(root, inp.take(i as int)),
                all_under_root(root, inp.take(i as int)),
                table_fits(models_of(records@)),
                forall|j: int|
                    0 <= j < first_sights(Set::empty(), all_chunks(inp.take(i as int))).len()
                        ==> round_trips(
                        #[trigger] first_sights(Set::empty(), all_chunks(inp.take(i as int)))[j],
                    ),
            decreases files@.len() - i,
        {
            let ghost a = all_chunks(inp.take(i as int));
            let ghost b = chunks_of(inp[i as int].1);
            proof {
                lemma_digest_set_len(Set::empty(), a);
                assert(inp.take(i + 1).drop_last() =~= inp.take(i as int));
                assert(all_chunks(inp.take(i + 1)) == a + b);
                assert(input_view(files@[i as int]) == inp[i as int]);
            }
            let fp = files[i].0.as_str();
            let dir = self.input_path.as_str();
            assert(fp.spec_bytes() == inp[i as int].0);
            assert(dir.spec_bytes() == root);
            let (rec, msgs) = match process_file(
                fp,
                dir,
                &mut self.chunk_store,
                files[i].1.as_slice(),
            ) {
                Ok(v) => v,
                Err(e) => {
                    proof {
                        if e is PathEscapesRoot || e is IllegalUTF8 {
                            let sr = spec_relative(root, inp[i as int].0);
                            assert(!(sr is Some && vstd::utf8::valid_utf8(sr->Some_0)));
                            assert(!all_under_root(root, inp));
                        }
                    }
                    return Err(e);
                },
            };
            let path_len = rec.path.as_str().as_bytes().len();
            if path_len > u32::MAX as usize || rec.chunk_hashes.len() > u32::MAX as usize {
                proof {
                    assert(packed_models(root, inp)[i as int] == rec.model());
                    assert(!file_fits(packed_models(root, inp)[i as int]));
                }
                return Err(
                    AppError::Archive("file too large for the archive format".to_owned()),
                );
            }
            write_chunks(&mut self.out, &msgs);
            proof {
                lemma_first_sights_append(Set::empty(), a, b);
                let fa = first_sights(Set::empty(), a);
                let fb = first_sights(digest_set(Set::empty(), a), b);
                assert((fa + fb).map_values(|c: Seq<u8>| chunk_entry(c)) =~= fa.map_values(
                    |c: Seq<u8>| chunk_entry(c),
                ) + fb.map_values(|c: Seq<u8>| chunk_entry(c)));
                lemma_records_bytes_append(
                    fa.map_values(|c: Seq<u8>| chunk_entry(c)),
                    fb.map_values(|c: Seq<u8>| chunk_entry(c)),
                );
                assert(forall|k: int|
                    0 <= k < rec.model().2.len() ==> (#[trigger] rec.model().2[k])
                        == spec_hash_chunk(b[k]));
                assert forall|k: int| 0 <= k < rec.model().2.len() implies (
                #[trigger] rec.model().2[k]).len() == 16 by {
                    lemma_digest_len(b[k]);
                }
            }
            let ghost old_records = records@;
            records.push(rec);
            proof {
                assert(models_of(records@) =~= models_of(old_records).push(rec.model()));
                assert(packed_models(root, inp.take(i + 1)) =~= packed_models(
                    root,
                    inp.take(i as int),
                ).push(packed_model(root, inp[i as int])));
                assert forall|k: int| 0 <= k < i + 1 implies {
                    &&& (#[trigger] spec_relative(root, inp.take(i + 1)[k].0)) is Some
                    &&& vstd::utf8::valid_utf8(spec_relative(root, inp.take(i + 1)[k].0)->Some_0)
                } by {
                    if k < i {
                        assert(inp.take(i + 1)[k] == inp.take(i as int)[k]);
                    }
                }
                assert forall|k: int| 0 <= k < records@.len() implies file_fits(
                    #[trigger] models_of(records@)[k],
                ) by {
                    if k < i {
                        assert(models_of(records@)[k] == models_of(old_records)[k]);
                    }
                }
            }
            i = i + 1;
        }
        let ghost all = all_chunks(inp);
        let ghost table = first_sights(Set::empty(), all).map_values(|c: Seq<u8>| chunk_entry(c));
        proof {
            assert(inp.take(files@.len() as int) =~= inp);
            lemma_digest_set_len(Set::empty(), all);
        }
        let count = self.chunk_store.len();
        let ghost before_patch = self.out@;
        patch_u64(&mut self.out, self.chunks_count_position, count);
        proof {
            assert(self.out@ =~= magic_bytes() + spec_u64_to_le_bytes(self.timestamp)
                + spec_u64_to_le_bytes(count) + records_bytes(table)) by {
                assert(before_patch.subrange(0, MAGIC_LEN + 8) =~= magic_bytes()
                    + spec_u64_to_le_bytes(self.timestamp));
                assert(before_patch.subrange(MAGIC_LEN + 16, before_patch.len() as int)
                    =~= records_bytes(table));
            }
            assert(count == table.len());
        }
        write_files_metadata(&mut self.out, &records);
        proof {
            assert(self.out@ =~= spec_pack(root, inp, self.timestamp));
        }
        Ok(self.out.len() as u64)
    }
}

/// Every chunk's digest is in the digest set, and so is everything in `seen`.
pub proof fn lemma_digest_set_contains(seen: Set<Seq<u8>>, cs: Seq<Seq<u8>>)
    ensures
        seen.subset_of(digest_set(seen, cs)),
        forall|k: int| 0 <= k < cs.len() ==> digest_set(seen, cs).contains(
            spec_hash_chunk(#[trigger] cs[k]),
        ),
        forall|d: Seq<u8>|
            #[trigger] digest_set(seen, cs).contains(d) ==> seen.contains(d) || exists|k: int|
                0 <= k < cs.len() && spec_hash_chunk(cs[k]) == d,
    decreases cs.len(),
{
    if cs.len() > 0 {
        let p = cs.drop_last();
        lemma_digest_set_contains(seen, p);
        assert forall|k: int| 0 <= k < cs.len() implies digest_set(seen, cs).contains(
            spec_hash_chunk(#[trigger] cs[k]),
        ) by {
            if k < cs.len() - 1 {
                assert(cs[k] == p[k]);
            }
        }
        assert forall|d: Seq<u8>| #[trigger] digest_set(seen, cs).contains(d) implies seen.contains(
            d,
        ) || exists|k: int| 0 <= k < cs.len() && spec_hash_chunk(cs[k]) == d by {
            if d != spec_hash_chunk(cs.last()) && !seen.contains(d) {
                let k = choose|k: int| 0 <= k < p.len() && spec_hash_chunk(p[k]) == d;
                assert(cs[k] == p[k]);
            }
        }
    }
}

/// The stored chunks, in the order they are first seen: no digest among them
/// is in `seen`, no two of them share a digest, and every digest of `cs`
/// that `seen` lacks is the digest of one of them.
///
/// Inserting `cs` one after another into a [`ChunkStore`] that holds `seen`
/// (as [`process_file`] does) hands out a payload exactly for these chunks,
/// by the contract of [`ChunkStore::insert`]: each new digest is compressed
/// and emitted once, however many chunks carry it.
pub proof fn lemma_first_sights_exactly_once(seen: Set<Seq<u8>>, cs: Seq<Seq<u8>>)
    ensures
        forall|i: int|
            0 <= i < first_sights(seen, cs).len() ==> !seen.contains(
                spec_hash_chunk(#[trigger] first_sights(seen, cs)[i]),
            ),
        forall|i: int, j: int|
            0 <= i < j < first_sights(seen, cs).len() ==> spec_hash_chunk(
                #[trigger] first_sights(seen, cs)[i],
            ) != spec_hash_chunk(#[trigger] first_sights(seen, cs)[j]),
        forall|k: int|
            0 <= k < cs.len() && !seen.contains(spec_hash_chunk(#[trigger] cs[k])) ==> exists|i: int|
                0 <= i < first_sights(seen, cs).len() && spec_hash_chunk(first_sights(seen, cs)[i])
                    == spec_hash_chunk(cs[k]),
        forall|i: int|
            0 <= i < first_sights(seen, cs).len() ==> digest_set(seen, cs).contains(
                spec_hash_chunk(#[trigger] first_sights(seen, cs)[i]),
            ),
    decreases cs.len(),
{
    if cs.len() > 0 {
        let p = cs.drop_last();
        let c = cs.last();
        let fp = first_sights(seen, p);
        let f = first_sights(seen, cs);
        lemma_first_sights_exactly_once(seen, p);
        lemma_digest_set_contains(seen, p);
        if digest_set(seen, p).contains(spec_hash_chunk(c)) {
            assert(f == fp);
            assert forall|k: int|
                0 <= k < cs.len() && !seen.contains(spec_hash_chunk(#[trigger] cs[k])) implies exists|
                i: int,
            | 0 <= i < f.len() && spec_hash_chunk(f[i]) == spec_hash_chunk(cs[k]) by {
                if k < cs.len() - 1 {
                    assert(cs[k] == p[k]);
                } else {
                    let d = spec_hash_chunk(c);
                    let k2 = choose|k2: int| 0 <= k2 < p.len() && spec_hash_chunk(p[k2]) == d;
                    assert(!seen.contains(spec_hash_chunk(p[k2])));
                }
            }
        } else {
            assert(f == fp.push(c));
            assert forall|i: int| 0 <= i < f.len() implies !seen.contains(
                spec_hash_chunk(#[trigger] f[i]),
            ) by {
                if i < fp.len() {
                    assert(f[i] == fp[i]);
                }
            }
            assert forall|i: int, j: int| 0 <= i < j < f.len() implies spec_hash_chunk(
                #[trigger] f[i],
            ) != spec_hash_chunk(#[trigger] f[j]) by {
                assert(f[i] == fp[i]);
                if j < fp.len() {
                    assert(f[j] == fp[j]);
                }
            }
            assert forall|k: int|
                0 <= k < cs.len() && !seen.contains(spec_hash_chunk(#[trigger] cs[k])) implies exists|
                i: int,
            | 0 <= i < f.len() && spec_hash_chunk(f[i]) == spec_hash_chunk(cs[k]) by {
                if k < cs.len() - 1 {
                    assert(cs[k] == p[k]);
                    let i = choose|i: int|
                        0 <= i < fp.len() && spec_hash_chunk(fp[i]) == spec_hash_chunk(p[k]);
                    assert(f[i] == fp[i]);
                } else {
                    assert(f[fp.len() as int] == c);
                }
            }
        }
        assert forall|i: int| 0 <= i < f.len() implies digest_set(seen, cs).contains(
            spec_hash_chunk(#[trigger] f[i]),
        ) by {
            if i < fp.len() {
                assert(f[i] == fp[i]);
            }
        }
    }
}

/// When every digest of `cs` is already known, nothing new is stored.
pub proof fn lemma_first_sights_known(seen: Set<Seq<u8>>, cs: Seq<Seq<u8>>)
    requires
        forall|k: int| 0 <= k < cs.len() ==> seen.contains(spec_hash_chunk(#[trigger] cs[k])),
    ensures
        first_sights(seen, cs) == Seq::<Seq<u8>>::empty(),
        digest_set(seen, cs) == seen,
    decreases cs.len(),
{
    if cs.len() > 0 {
        let p = cs.drop_last();
        assert forall|k: int| 0 <= k < p.len() implies seen.contains(
            spec_hash_chunk(#[trigger] p[k]),
        ) by {
            assert(p[k] == cs[k]);
        }
        lemma_first_sights_known(seen, p);
        assert(seen.contains(spec_hash_chunk(cs[cs.len() - 1])));
        assert(seen.insert(spec_hash_chunk(cs.last())) =~= seen);
    }
}

/// Packing any number of files with the same contents stores the chunks of
/// one copy, whatever the number of copies; when the contents fill at most
/// one chunk (and are not empty), the chunk table has exactly one record.
pub proof fn lemma_identical_files_dedup(files: Seq<(Seq<u8>, Seq<u8>)>, contents: Seq<u8>)
    requires
        files.len() >= 1,
        forall|i: int| 0 <= i < files.len() ==> (#[trigger] files[i]).1 == contents,
    ensures
        first_sights(Set::empty(), all_chunks(files)) == first_sights(
            Set::empty(),
            chunks_of(contents),
        ),
        0 < contents.len() <= CHUNK_SIZE ==> first_sights(
            Set::empty(),
            all_chunks(files),
        ).len() == 1,
    decreases files.len(),
{
    let cs = chunks_of(contents);
    if files.len() == 1 {
        assert(files.drop_last() =~= Seq::<(Seq<u8>, Seq<u8>)>::empty());
        assert(files[0].1 == contents);
        assert(all_chunks(files.drop_last()) == Seq::<Seq<u8>>::empty());
        assert(all_chunks(files) =~= cs);
    } else {
        let p = files.drop_last();
        assert forall|i: int| 0 <= i < p.len() implies (#[trigger] p[i]).1 == contents by {
            assert(p[i] == files[i]);
        }
        lemma_identical_files_dedup(p, contents);
        let a = all_chunks(p);
        assert(all_chunks(files) == a + cs);
        lemma_first_sights_append(Set::empty(), a, cs);
        lemma_all_chunks_holds_last(p, contents);
        lemma_digest_set_contains(Set::empty(), a);
        assert forall|k: int| 0 <= k < cs.len() implies digest_set(Set::empty(), a).contains(
            spec_hash_chunk(#[trigger] cs[k]),
        ) by {
            assert(a[a.len() - cs.len() + k] == cs[k]);
        }
        lemma_first_sights_known(digest_set(Set::empty(), a), cs);
        assert(first_sights(Set::empty(), a) + Seq::<Seq<u8>>::empty() =~= first_sights(
            Set::empty(),
            a,
        ));
    }
    if 0 < contents.len() <= CHUNK_SIZE {
        assert(cs == seq![contents]);
        let one = seq![contents];
        assert(one.drop_last() =~= Seq::<Seq<u8>>::empty());
        assert(one.last() == contents);
        assert(digest_set(Set::empty(), one.drop_last()) == Set::<Seq<u8>>::empty());
        assert(first_sights(Set::empty(), one.drop_last()) == Seq::<Seq<u8>>::empty());
        assert(first_sights(Set::empty(), one) =~= seq![contents]);
    }
}

/// The chunks of the last file close the run of all chunks.
pub proof fn lemma_all_chunks_holds_last(files: Seq<(Seq<u8>, Seq<u8>)>, contents: Seq<u8>)
    requires
        files.len() >= 1,
        files.last().1 == contents,
    ensures
        all_chunks(files).len() >= chunks_of(contents).len(),
        all_chunks(files).subrange(
            all_chunks(files).len() - chunks_of(contents).len(),
            all_chunks(files).len() as int,
        ) == chunks_of(contents),
{
    let a = all_chunks(files.drop_last());
    let cs = chunks_of(contents);
    assert((a + cs).subrange(a.len() as int, (a + cs).len() as int) =~= cs);
}

} // verus!
