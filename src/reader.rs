use std::collections::HashMap;

use vstd::bytes::*;
use vstd::prelude::*;
use vstd::slice::slice_subrange;

use crate::chunk::{
    decompress_chunk, digest_from_bytes, zstd_decodes, zstd_decompressed, ChunkHash, HASH_LEN,
};
use crate::errors::AppError;
use crate::format::{models_of, ChunkEntry, FileModel, FileRecord};
use crate::header::{
    convert_timestamp_to_date, date_representable, decode_text, lemma_magic_lengths, prefix_bytes, series_bytes, spec_verify_header, verify_header,
    MAGIC_LEN, SERIES_LEN, VERSION_LEN,
};

verus! {

broadcast use vstd::std_specs::hash::group_hash_axioms;

/// Largest size a decompressed chunk may have: 10 MiB.
pub const EXPECTED_MAX_CHUNK_SIZE: usize = 10485760;

/// Offset of the creation timestamp.
pub const TIMESTAMP_OFFSET: usize = 14;

/// Offset of the chunk count.
pub const COUNT_OFFSET: usize = 22;

/// Offset of the chunk table.
pub const CHUNK_TABLE_OFFSET: usize = 30;

/// Bytes of a chunk record before its compressed bytes.
pub const RECORD_HEAD_LEN: usize = 32;

pub open spec fn u64_at(data: Seq<u8>, p: int) -> u64 {
    spec_u64_from_le_bytes(data.subrange(p, p + 8))
}

pub open spec fn u32_at(data: Seq<u8>, p: int) -> u32 {
    spec_u32_from_le_bytes(data.subrange(p, p + 4))
}

/// The chunk record at `p` and the offset after it, if it lies within `data`.
pub open spec fn parse_record(data: Seq<u8>, p: int) -> Option<(ChunkEntry, int)> {
    if p + RECORD_HEAD_LEN > data.len() {
        None
    } else {
        let clen = u64_at(data, p + 24);
        let end = p + RECORD_HEAD_LEN + clen;
        if end > data.len() {
            None
        } else {
            Some(
                (
                    (
                        data.subrange(p, p + 16),
                        u64_at(data, p + 16),
                        data.subrange(p + RECORD_HEAD_LEN, end),
                    ),
                    end,
                ),
            )
        }
    }
}

/// `n` chunk records read one after another from `p`, and the offset after them.
pub open spec fn parse_records(data: Seq<u8>, p: int, n: nat) -> Option<(Seq<ChunkEntry>, int)>
    decreases n,
{
    if n == 0 {
        Some((Seq::empty(), p))
    } else {
        match parse_records(data, p, (n - 1) as nat) {
            None => None,
            Some((es, q)) => match parse_record(data, q) {
                None => None,
                Some((e, r)) => Some((es.push(e), r)),
            },
        }
    }
}

/// `n` digests stored one after another from `p`.
pub open spec fn digests_at(data: Seq<u8>, p: int, n: nat) -> Seq<Seq<u8>> {
    Seq::new(n, |i: int| data.subrange(p + 16 * i, p + 16 * i + 16))
}

/// The file entry at `p` and the offset after it.
pub open spec fn parse_file(data: Seq<u8>, p: int) -> Result<(FileModel, int), AppError> {
    if p + 4 > data.len() {
        Err(AppError::UnexpectedEof)
    } else {
        let q = p + 4 + u32_at(data, p);
        if q > data.len() {
            Err(AppError::UnexpectedEof)
        } else if !vstd::utf8::valid_utf8(data.subrange(p + 4, q)) {
            Err(AppError::IllegalUTF8)
        } else if q + 12 > data.len() {
            Err(AppError::UnexpectedEof)
        } else {
            let n = u32_at(data, q + 8);
            let end = q + 12 + 16 * n;
            if end > data.len() {
                Err(AppError::UnexpectedEof)
            } else {
                Ok(((data.subrange(p + 4, q), u64_at(data, q), digests_at(data, q + 12, n as nat)), end))
            }
        }
    }
}

/// `n` file entries read one after another from `p`, and the offset after them.
pub open spec fn parse_files(data: Seq<u8>, p: int, n: nat) -> Result<(Seq<FileModel>, int), AppError>
    decreases n,
{
    if n == 0 {
        Ok((Seq::empty(), p))
    } else {
        match parse_files(data, p, (n - 1) as nat) {
            Err(e) => Err(e),
            Ok((fs, q)) => match parse_file(data, q) {
                Err(e) => Err(e),
                Ok((f, r)) => Ok((fs.push(f), r)),
            },
        }
    }
}

/// What opening an archive learns before its file table.
pub struct ArchiveLayout {
    pub version: Seq<char>,
    pub timestamp: u64,
    pub chunks: Seq<ChunkEntry>,
    pub file_count: u32,
    pub file_table_offset: int,
}

/// Opening `data`: header, timestamp, chunk count, a scan over the chunk
/// table, and the file count.
pub open spec fn spec_open(data: Seq<u8>) -> Result<ArchiveLayout, AppError> {
    match spec_verify_header(data) {
        Err(e) => Err(e),
        Ok(v) => if data.len() < CHUNK_TABLE_OFFSET {
            Err(AppError::UnexpectedEof)
        } else {
            match parse_records(
                data,
                CHUNK_TABLE_OFFSET as int,
                u64_at(data, COUNT_OFFSET as int) as nat,
            ) {
                None => Err(AppError::UnexpectedEof),
                Some((es, p)) => if p + 4 > data.len() {
                    Err(AppError::UnexpectedEof)
                } else {
                    Ok(
                        ArchiveLayout {
                            version: v,
                            timestamp: u64_at(data, TIMESTAMP_OFFSET as int),
                            chunks: es,
                            file_count: u32_at(data, p),
                            file_table_offset: p + 4,
                        },
                    )
                },
            }
        },
    }
}

/// Once a run of records fails to parse, longer runs fail too.
pub proof fn lemma_parse_records_none(data: Seq<u8>, p: int, m: nat, n: nat)
    requires
        m <= n,
        parse_records(data, p, m) is None,
    ensures
        parse_records(data, p, n) is None,
    decreases n,
{
    if n > m {
        lemma_parse_records_none(data, p, m, (n - 1) as nat);
    }
}

/// Once a run of file entries fails, longer runs fail with the same error.
pub proof fn lemma_parse_files_err(data: Seq<u8>, p: int, m: nat, n: nat)
    requires
        m <= n,
        parse_files(data, p, m) is Err,
    ensures
        parse_files(data, p, n) == parse_files(data, p, m),
    decreases n,
{
    if n > m {
        lemma_parse_files_err(data, p, m, (n - 1) as nat);
    }
}

/// The little-endian `u64` at `p`.
pub fn read_u64(data: &[u8], p: usize) -> (r: u64)
    requires
        p + 8 <= data@.len(),
    ensures
        r == u64_at(data@, p as int),
{
    let _ = data.len();
    u64_from_le_bytes(slice_subrange(data, p, p + 8))
}

/// The little-endian `u32` at `p`.
pub fn read_u32(data: &[u8], p: usize) -> (r: u32)
    requires
        p + 4 <= data@.len(),
    ensures
        r == u32_at(data@, p as int),
{
    let _ = data.len();
    u32_from_le_bytes(slice_subrange(data, p, p + 4))
}

/// An opened archive: the header is checked and the chunk table has been
/// scanned, so its start and the file table's start are known.
pub struct ArchiveReader {
    data: Vec<u8>,
    archive_size: u64,
    squish_creation_time: String,
    number_of_chunks: u64,
    squish_version: String,
    file_count: u32,
    chunk_table_offset: usize,
    file_table_offset: usize,
    ghost_layout: Ghost<ArchiveLayout>,
}

impl ArchiveReader {
    /// The archive's bytes.
    pub closed spec fn bytes(&self) -> Seq<u8> {
        self.data@
    }

    /// What opening learnt.
    pub closed spec fn layout(&self) -> ArchiveLayout {
        self.ghost_layout@
    }

    /// The creation time as local date text.
    pub closed spec fn creation_date(&self) -> Seq<char> {
        self.squish_creation_time@
    }

    pub closed spec fn wf(&self) -> bool {
        &&& spec_open(self.data@) == Ok::<ArchiveLayout, AppError>(self.ghost_layout@)
        &&& self.archive_size == self.data@.len()
        &&& self.number_of_chunks == self.ghost_layout@.chunks.len()
        &&& self.number_of_chunks == u64_at(self.data@, COUNT_OFFSET as int)
        &&& self.squish_version@ == self.ghost_layout@.version
        &&& self.file_count == self.ghost_layout@.file_count
        &&& self.chunk_table_offset == CHUNK_TABLE_OFFSET
        &&& self.file_table_offset == self.ghost_layout@.file_table_offset
        &&& self.file_table_offset <= self.data@.len()
    }

    /// Opens the archive held in `data`: checks the header, reads the
    /// creation time, and scans the chunk table without decompressing it.
    pub fn new(data: Vec<u8>) -> (r: Result<ArchiveReader, AppError>)
        ensures
            r matches Ok(rd) ==> {
                &&& rd.wf()
                &&& rd.bytes() == data@
                &&& spec_open(data@) == Ok::<ArchiveLayout, AppError>(rd.layout())
            },
            r matches Err(e) ==> spec_open(data@) == Err::<ArchiveLayout, AppError>(e) || (
            spec_open(data@) matches Ok(l) && e == AppError::InvalidTimeStamp(l.timestamp)
                && !date_representable(l.timestamp)),
            r is Ok <==> (spec_open(data@) matches Ok(l) && date_representable(l.timestamp)),
    {
        proof {
            lemma_magic_lengths();
        }
        let squish_version = verify_header(data.as_slice())?;
        let len = data.len();
        if len < CHUNK_TABLE_OFFSET {
            return Err(AppError::UnexpectedEof);
        }
        let timestamp = read_u64(data.as_slice(), TIMESTAMP_OFFSET);
        let number_of_chunks = read_u64(data.as_slice(), COUNT_OFFSET);
        let ghost n = number_of_chunks as nat;
        let ghost mut es: Seq<ChunkEntry> = Seq::empty();
        let mut p: usize = CHUNK_TABLE_OFFSET;
        let mut k: u64 = 0;
        while k < number_of_chunks
            invariant
                len == data@.len(),
                CHUNK_TABLE_OFFSET <= p <= len,
                k <= number_of_chunks,
                n == number_of_chunks as nat,
                number_of_chunks == u64_at(data@, COUNT_OFFSET as int),
                es.len() == k,
                spec_verify_header(data@) == Ok::<Seq<char>, AppError>(squish_version@),
                parse_records(data@, CHUNK_TABLE_OFFSET as int, k as nat) == Some((es, p as int)),
            decreases number_of_chunks - k,
        {
            if len - p < RECORD_HEAD_LEN {
                proof {
                    assert(parse_records(data@, CHUNK_TABLE_OFFSET as int, (k + 1) as nat) is None);
                    lemma_parse_records_none(data@, CHUNK_TABLE_OFFSET as int, (k + 1) as nat, n);
                }
                return Err(AppError::UnexpectedEof);
            }
            let clen = read_u64(data.as_slice(), p + 24);
            if clen > (len - p - RECORD_HEAD_LEN) as u64 {
                proof {
                    assert(parse_records(data@, CHUNK_TABLE_OFFSET as int, (k + 1) as nat) is None);
                    lemma_parse_records_none(data@, CHUNK_TABLE_OFFSET as int, (k + 1) as nat, n);
                }
                return Err(AppError::UnexpectedEof);
            }
            proof {
                let e = parse_record(data@, p as int)->Some_0.0;
                es = es.push(e);
            }
            p = p + RECORD_HEAD_LEN + clen as usize;
            k = k + 1;
        }
        if len - p < 4 {
            return Err(AppError::UnexpectedEof);
        }
        let file_count = read_u32(data.as_slice(), p);
        let ghost layout = ArchiveLayout {
            version: squish_version@,
            timestamp,
            chunks: es,
            file_count,
            file_table_offset: p + 4,
        };
        assert(spec_open(data@) == Ok::<ArchiveLayout, AppError>(layout));
        let squish_creation_time = convert_timestamp_to_date(timestamp)?;
        Ok(
            ArchiveReader {
                data,
                archive_size: len as u64,
                squish_creation_time,
                number_of_chunks,
                squish_version,
                file_count,
                chunk_table_offset: CHUNK_TABLE_OFFSET,
                file_table_offset: p + 4,
                ghost_layout: Ghost(layout),
            },
        )
    }
}

/// Whether a record's compressed bytes decode within the size ceiling.
pub open spec fn record_decodes(e: ChunkEntry) -> bool {
    zstd_decodes(e.2) && zstd_decompressed(e.2).len() <= EXPECTED_MAX_CHUNK_SIZE
}

/// Whether the file table parses and every file's digests are all stored.
pub open spec fn archive_rebuilds(data: Seq<u8>, l: ArchiveLayout) -> bool {
    match parse_files(data, l.file_table_offset, l.file_count as nat) {
        Err(_) => false,
        Ok((fs, _)) => forall|i: int|
            0 <= i < fs.len() ==> (#[trigger] spec_rebuild(chunk_map(l.chunks), fs[i].2)) is Some,
    }
}

pub open spec fn all_records_decode(es: Seq<ChunkEntry>) -> bool {
    forall|i: int| 0 <= i < es.len() ==> record_decodes(#[trigger] es[i])
}

/// Decompressed chunks keyed by digest; a later record with the same
/// digest replaces an earlier one.
pub open spec fn chunk_map(es: Seq<ChunkEntry>) -> Map<Seq<u8>, Seq<u8>>
    decreases es.len(),
{
    if es.len() == 0 {
        Map::empty()
    } else {
        chunk_map(es.drop_last()).insert(es.last().0, zstd_decompressed(es.last().2))
    }
}

/// A file's bytes: the chunks of its digests, in order; none if a digest is
/// missing from `m`.
pub open spec fn spec_rebuild(m: Map<Seq<u8>, Seq<u8>>, ds: Seq<Seq<u8>>) -> Option<Seq<u8>>
    decreases ds.len(),
{
    if ds.len() == 0 {
        Some(Seq::empty())
    } else {
        match spec_rebuild(m, ds.drop_last()) {
            None => None,
            Some(b) => if m.contains_key(ds.last()) {
                Some(b + m[ds.last()])
            } else {
                None
            },
        }
    }
}

/// A run of `n` records that parses holds `n` entries, each with a 16-byte
/// digest.
pub proof fn lemma_parse_records_shape(data: Seq<u8>, p: int, n: nat)
    requires
        0 <= p,
        parse_records(data, p, n) is Some,
    ensures
        parse_records(data, p, n)->Some_0.0.len() == n,
        parse_records(data, p, n)->Some_0.1 >= p,
        forall|i: int|
            0 <= i < n ==> (#[trigger] parse_records(data, p, n)->Some_0.0[i]).0.len() == 16,
    decreases n,
{
    if n > 0 {
        lemma_parse_records_shape(data, p, (n - 1) as nat);
        let (a, q) = parse_records(data, p, (n - 1) as nat)->Some_0;
        let e = parse_record(data, q)->Some_0.0;
        let b = parse_records(data, p, n)->Some_0.0;
        assert(b == a.push(e));
        assert forall|i: int| 0 <= i < n implies (#[trigger] b[i]).0.len() == 16 by {
            if i < n - 1 {
                assert(b[i] == a[i]);
            }
        }
    }
}

/// A run of records that parses is parsed the same way in each prefix.
pub proof fn lemma_parse_records_prefix(data: Seq<u8>, p: int, k: nat, n: nat)
    requires
        0 <= p,
        k <= n,
        parse_records(data, p, n) is Some,
    ensures
        parse_records(data, p, k) is Some,
        parse_records(data, p, k)->Some_0.0 == parse_records(data, p, n)->Some_0.0.take(k as int),
    decreases n,
{
    lemma_parse_records_shape(data, p, n);
    if k < n {
        let (a, q) = parse_records(data, p, (n - 1) as nat)->Some_0;
        let e = parse_record(data, q)->Some_0.0;
        let b = parse_records(data, p, n)->Some_0.0;
        assert(b == a.push(e));
        lemma_parse_records_prefix(data, p, k, (n - 1) as nat);
        assert(b.take(k as int) =~= a.take(k as int));
    } else {
        assert(parse_records(data, p, n)->Some_0.0.take(n as int) =~= parse_records(
            data,
            p,
            n,
        )->Some_0.0);
    }
}

/// A 16-byte digest read as an integer identifies it.
pub proof fn lemma_key_injective(a: Seq<u8>, b: Seq<u8>)
    requires
        a.len() == 16,
        b.len() == 16,
        spec_u128_from_le_bytes(a) == spec_u128_from_le_bytes(b),
    ensures
        a == b,
{
    lemma_auto_spec_u128_to_from_le_bytes();
    assert(spec_u128_to_le_bytes(spec_u128_from_le_bytes(a)) == a);
    assert(spec_u128_to_le_bytes(spec_u128_from_le_bytes(b)) == b);
}

/// Decompressed chunks of an archive, looked up by digest.
pub struct ChunkMap {
    index: HashMap<u128, usize>,
    chunks: Vec<Vec<u8>>,
}

impl ChunkMap {
    pub closed spec fn wf(&self) -> bool {
        forall|k: u128| #[trigger] self.index@.contains_key(k) ==> self.index@[k] < self.chunks@.len()
    }

    /// Each stored digest and its decompressed chunk.
    pub closed spec fn view(&self) -> Map<Seq<u8>, Seq<u8>> {
        Map::new(
            |d: Seq<u8>| d.len() == 16 && self.index@.contains_key(spec_u128_from_le_bytes(d)),
            |d: Seq<u8>| self.chunks@[self.index@[spec_u128_from_le_bytes(d)] as int]@,
        )
    }

    /// The decompressed chunk with digest `hash`.
    pub fn get(&self, hash: &ChunkHash) -> (r: Option<&Vec<u8>>)
        requires
            self.wf(),
        ensures
            r.is_some() == self.view().contains_key(hash@),
            r matches Some(v) ==> v@ == self.view()[hash@],
    {
        let key = u128_from_le_bytes(hash.as_slice());
        match self.index.get(&key) {
            Some(i) => Some(&self.chunks[*i]),
            None => None,
        }
    }

    /// Rebuilds one file from its digests; a digest that no record holds is
    /// a `MissingChunk` error naming the file.
    pub fn rebuild_file(&self, entry: &FileRecord) -> (r: Result<Vec<u8>, AppError>)
        requires
            self.wf(),
        ensures
            r matches Ok(v) ==> spec_rebuild(self.view(), entry.model().2) == Some(v@),
            r matches Err(e) ==> (spec_rebuild(self.view(), entry.model().2) is None && (
            e matches AppError::MissingChunk(p) && p@ == entry.path@)),
            spec_rebuild(self.view(), entry.model().2) is None ==> r is Err,
    {
        let ghost ds = entry.model().2;
        let mut out: Vec<u8> = Vec::new();
        let mut i: usize = 0;
        while i < entry.chunk_hashes.len()
            invariant
                self.wf(),
                i <= entry.chunk_hashes@.len(),
                ds == entry.model().2,
                ds.len() == entry.chunk_hashes@.len(),
                spec_rebuild(self.view(), ds.take(i as int)) == Some(out@),
            decreases entry.chunk_hashes@.len() - i,
        {
            proof {
                assert(ds.take(i + 1).drop_last() =~= ds.take(i as int));
                assert(ds[i as int] == entry.chunk_hashes@[i as int]@);
            }
            match self.get(&entry.chunk_hashes[i]) {
                Some(data) => {
                    out.extend_from_slice(data.as_slice());
                    proof {
                        assert(out@ =~= spec_rebuild(self.view(), ds.take(i + 1))->Some_0);
                    }
                },
                None => {
                    proof {
                        assert(spec_rebuild(self.view(), ds.take(i + 1)) is None);
                        lemma_rebuild_none(self.view(), ds, (i + 1) as nat);
                    }
                    return Err(AppError::MissingChunk(entry.path.clone()));
                },
            }
            i = i + 1;
        }
        assert(ds.take(ds.len() as int) =~= ds);
        Ok(out)
    }
}

/// A missing digest in a prefix leaves the whole file unbuilt.
pub proof fn lemma_rebuild_none(m: Map<Seq<u8>, Seq<u8>>, ds: Seq<Seq<u8>>, k: nat)
    requires
        k <= ds.len(),
        spec_rebuild(m, ds.take(k as int)) is None,
    ensures
        spec_rebuild(m, ds) is None,
    decreases ds.len() - k,
{
    if k < ds.len() {
        assert(ds.take(k as int + 1).drop_last() =~= ds.take(k as int));
        lemma_rebuild_none(m, ds, k + 1);
    } else {
        assert(ds.take(k as int) =~= ds);
    }
}

/// Reads the file entry at `p`.
pub fn read_file_entry(data: &[u8], p: usize) -> (r: Result<(FileRecord, usize), AppError>)
    requires
        p <= data@.len(),
    ensures
        r matches Ok((rec, q)) ==> parse_file(data@, p as int) == Ok::<(FileModel, int), AppError>(
            (rec.model(), q as int),
        ),
        r matches Err(e) ==> parse_file(data@, p as int) == Err::<(FileModel, int), AppError>(e),
{
    let len = data.len();
    if len - p < 4 {
        return Err(AppError::UnexpectedEof);
    }
    let plen = read_u32(data, p) as usize;
    if len - p - 4 < plen {
        return Err(AppError::UnexpectedEof);
    }
    let q = p + 4 + plen;
    let path_bytes = slice_subrange(data, p + 4, q);
    let path = match decode_text(path_bytes) {
        Some(s) => s,
        None => {
            return Err(AppError::IllegalUTF8);
        },
    };
    if len - q < 12 {
        return Err(AppError::UnexpectedEof);
    }
    let original_size = read_u64(data, q);
    let n = read_u32(data, q + 8) as usize;
    let room = (len - q - 12) / HASH_LEN;
    if n > room {
        return Err(AppError::UnexpectedEof);
    }
    let start = q + 12;
    let mut hashes: Vec<ChunkHash> = Vec::new();
    let mut i: usize = 0;
    while i < n
        invariant
            len == data@.len(),
            start + HASH_LEN * n <= len,
            i <= n,
            hashes@.len() == i,
            hashes@.map_values(|h: ChunkHash| h@) =~= digests_at(data@, start as int, i as nat),
        decreases n - i,
    {
        let at = start + HASH_LEN * i;
        let d = digest_from_bytes(slice_subrange(data, at, at + HASH_LEN));
        let ghost before = hashes@;
        hashes.push(d);
        proof {
            assert(d@ == data@.subrange(start + 16 * i, start + 16 * i + 16));
            assert forall|j: int| 0 <= j < i + 1 implies hashes@.map_values(
                |h: ChunkHash| h@,
            )[j] == #[trigger] digests_at(data@, start as int, (i + 1) as nat)[j] by {
                if j < i {
                    assert(hashes@[j] == before[j]);
                    assert(before.map_values(|h: ChunkHash| h@)[j] == digests_at(
                        data@,
                        start as int,
                        i as nat,
                    )[j]);
                }
            }
            assert(hashes@.map_values(|h: ChunkHash| h@) =~= digests_at(
                data@,
                start as int,
                (i + 1) as nat,
            ));
        }
        i = i + 1;
    }
    let rec = FileRecord { path, original_size, chunk_hashes: hashes };
    Ok((rec, start + HASH_LEN * n))
}

impl ArchiveReader {
    /// Reads the file table.
    pub fn read_file_table(&self) -> (r: Result<Vec<FileRecord>, AppError>)
        requires
            self.wf(),
        ensures
            r matches Ok(v) ==> parse_files(
                self.bytes(),
                self.layout().file_table_offset,
                self.layout().file_count as nat,
            ) matches Ok((fs, _)) && fs == models_of(v@),
            r matches Err(e) ==> parse_files(
                self.bytes(),
                self.layout().file_table_offset,
                self.layout().file_count as nat,
            ) == Err::<(Seq<FileModel>, int), AppError>(e),
    {
        let ghost fto = self.layout().file_table_offset;
        let ghost fc = self.file_count as nat;
        let mut files: Vec<FileRecord> = Vec::new();
        let mut p = self.file_table_offset;
        assert(models_of(files@) =~= Seq::<FileModel>::empty());
        let mut k: u32 = 0;
        while k < self.file_count
            invariant
                self.wf(),
                fto == self.file_table_offset,
                fc == self.file_count,
                k <= self.file_count,
                p <= self.data@.len(),
                parse_files(self.data@, fto, k as nat) == Ok::<(Seq<FileModel>, int), AppError>(
                    (models_of(files@), p as int),
                ),
            decreases self.file_count - k,
        {
            match read_file_entry(self.data.as_slice(), p) {
                Ok((rec, q)) => {
                    proof {
                        assert(models_of(files@.push(rec)) =~= models_of(files@).push(rec.model()));
                    }
                    files.push(rec);
                    p = q;
                },
                Err(e) => {
                    proof {
                        assert(parse_files(self.data@, fto, (k + 1) as nat) == Err::<
                            (Seq<FileModel>, int),
                            AppError,
                        >(e));
                        lemma_parse_files_err(self.data@, fto, (k + 1) as nat, fc);
                    }
                    return Err(e);
                },
            }
            k = k + 1;
        }
        Ok(files)
    }

    /// Decompresses every chunk-table record into a map keyed by digest,
    /// refusing any chunk that decodes to more than `EXPECTED_MAX_CHUNK_SIZE`.
    pub fn read_chunks(&self) -> (r: Result<ChunkMap, AppError>)
        requires
            self.wf(),
        ensures
            r matches Ok(m) ==> m.wf() && m.view() == chunk_map(self.layout().chunks),
            r is Ok <==> all_records_decode(self.layout().chunks),
            r matches Err(e) ==> e == AppError::CorruptData,
    {
        let ghost all = self.layout().chunks;
        let ghost n = self.number_of_chunks as nat;
        proof {
            lemma_parse_records_shape(self.data@, CHUNK_TABLE_OFFSET as int, n);
        }
        let mut map = ChunkMap { index: HashMap::new(), chunks: Vec::new() };
        let mut p: usize = self.chunk_table_offset;
        let mut k: u64 = 0;
        assert(map.view() =~= chunk_map(all.take(0)));
        while k < self.number_of_chunks
            invariant
                self.wf(),
                all == self.layout().chunks,
                n == self.number_of_chunks,
                all.len() == n,
                forall|i: int| 0 <= i < all.len() ==> (#[trigger] all[i]).0.len() == 16,
                k <= self.number_of_chunks,
                parse_records(self.data@, CHUNK_TABLE_OFFSET as int, k as nat) == Some(
                    (all.take(k as int), p as int),
                ),
                map.wf(),
                map.view() == chunk_map(all.take(k as int)),
                forall|i: int| 0 <= i < k ==> record_decodes(#[trigger] all[i]),
            decreases self.number_of_chunks - k,
        {
            proof {
                lemma_parse_records_prefix(self.data@, CHUNK_TABLE_OFFSET as int, (k + 1) as nat, n);
                assert(all.take(k + 1).drop_last() =~= all.take(k as int));
                assert(parse_record(self.data@, p as int) is Some);
                let e = parse_record(self.data@, p as int)->Some_0.0;
                assert(parse_records(self.data@, CHUNK_TABLE_OFFSET as int, (k + 1) as nat)->Some_0.0
                    == all.take(k as int).push(e));
                assert(all.take(k + 1)[k as int] == all[k as int]);
            }
            let data = self.data.as_slice();
            let len = data.len();
            let digest = digest_from_bytes(slice_subrange(data, p, p + HASH_LEN));
            let clen64 = read_u64(data, p + 24);
            assert(p + RECORD_HEAD_LEN + clen64 <= data@.len());
            let clen = clen64 as usize;
            let payload = slice_subrange(data, p + RECORD_HEAD_LEN, p + RECORD_HEAD_LEN + clen);
            let chunk = match decompress_chunk(payload, EXPECTED_MAX_CHUNK_SIZE) {
                Ok(c) => c,
                Err(e) => {
                    proof {
                        assert(!record_decodes(all[k as int]));
                    }
                    return Err(e);
                },
            };
            let key = u128_from_le_bytes(digest.as_slice());
            let ghost old_map = map.view();
            let ghost old_index = map.index@;
            let idx = map.chunks.len();
            map.index.insert(key, idx);
            map.chunks.push(chunk);
            proof {
                let e = all[k as int];
                assert(e.0 == digest@);
                assert(e.2 == payload@);
                assert forall|d: Seq<u8>| #[trigger] map.view().contains_key(d) == chunk_map(
                    all.take(k + 1),
                ).contains_key(d) by {
                    if d.len() == 16 && spec_u128_from_le_bytes(d) == key {
                        lemma_key_injective(d, digest@);
                    }
                }
                assert forall|d: Seq<u8>| #[trigger] map.view().contains_key(d) implies map.view()[d]
                    == chunk_map(all.take(k + 1))[d] by {
                    if spec_u128_from_le_bytes(d) == key {
                        lemma_key_injective(d, digest@);
                    } else {
                        assert(old_index.contains_key(spec_u128_from_le_bytes(d)));
                        assert(old_map.contains_key(d));
                    }
                }
                assert(map.view() =~= chunk_map(all.take(k + 1)));
            }
            p = p + RECORD_HEAD_LEN + clen;
            k = k + 1;
        }
        assert(all.take(n as int) =~= all);
        Ok(map)
    }

    /// Rebuilds every file of the archive: its relative path and its bytes.
    pub fn unpack(&self) -> (r: Result<Vec<(String, Vec<u8>)>, AppError>)
        requires
            self.wf(),
        ensures
            r matches Ok(out) ==> parse_files(
                self.bytes(),
                self.layout().file_table_offset,
                self.layout().file_count as nat,
            ) matches Ok((fs, _)) && out@.len() == fs.len() && forall|i: int|
                0 <= i < fs.len() ==> {
                    &&& vstd::utf8::encode_utf8((#[trigger] out@[i]).0@) == fs[i].0
                    &&& spec_rebuild(chunk_map(self.layout().chunks), fs[i].2) == Some(out@[i].1@)
                },
            r matches Err(e) ==> if !all_records_decode(self.layout().chunks) {
                e == AppError::CorruptData
            } else {
                match parse_files(
                    self.bytes(),
                    self.layout().file_table_offset,
                    self.layout().file_count as nat,
                ) {
                    Err(pe) => e == pe,
                    Ok((fs, _)) => e matches AppError::MissingChunk(p) && exists|i: int|
                        0 <= i < fs.len() && spec_rebuild(chunk_map(self.layout().chunks), fs[i].2)
                            is None && vstd::utf8::encode_utf8(p@) == fs[i].0,
                }
            },
            r is Ok <==> (all_records_decode(self.layout().chunks) && archive_rebuilds(
                self.bytes(),
                self.layout(),
            )),
    {
        let map = self.read_chunks()?;
        let files = self.read_file_table()?;
        let ghost fs = models_of(files@);
        let mut out: Vec<(String, Vec<u8>)> = Vec::new();
        let mut i: usize = 0;
        while i < files.len()
            invariant
                map.wf(),
                map.view() == chunk_map(self.layout().chunks),
                fs == models_of(files@),
                fs.len() == files@.len(),
                all_records_decode(self.layout().chunks),
                forall|j: int|
                    0 <= j < i ==> (#[trigger] spec_rebuild(chunk_map(self.layout().chunks), fs[j].2))
                        is Some,
                parse_files(
                    self.bytes(),
                    self.layout().file_table_offset,
                    self.layout().file_count as nat,
                ) matches Ok((x, _)) && x == fs,
                i <= files@.len(),
                out@.len() == i,
                forall|j: int|
                    0 <= j < i ==> {
                        &&& vstd::utf8::encode_utf8((#[trigger] out@[j]).0@) == files@[j].model().0
                        &&& spec_rebuild(chunk_map(self.layout().chunks), files@[j].model().2)
                            == Some(out@[j].1@)
                    },
            decreases files@.len() - i,
        {
            let data = match map.rebuild_file(&files[i]) {
                Ok(d) => d,
                Err(e) => {
                    proof {
                        let k = i as int;
                        assert(fs[k] == files@[k].model());
                        assert(spec_rebuild(chunk_map(self.layout().chunks), fs[k].2) is None);
                        assert(e->MissingChunk_0@ == files@[k].path@);
                    }
                    return Err(e);
                },
            };
            out.push((files[i].path.clone(), data));
            i = i + 1;
        }
        proof {
            assert forall|j: int| 0 <= j < files@.len() implies models_of(files@)[j]
                == files@[j].model() by {}
        }
        Ok(out)
    }
}

/// Path and original size of one archived file.
pub struct FileEntry {
    pub path: String,
    pub original_size: u64,
}

/// Overview of an archive, read from its header and file table.
pub struct ArchiveSummary {
    pub unique_chunks: u64,
    pub total_original_size: u64,
    pub archive_size: u64,
    pub squish_creation_date: String,
    pub squish_version: String,
    pub files: Vec<FileEntry>,
}

/// Sum of the original sizes of `fs`.
pub open spec fn total_size(fs: Seq<FileModel>) -> int
    decreases fs.len(),
{
    if fs.len() == 0 {
        0
    } else {
        total_size(fs.drop_last()) + fs.last().1
    }
}

impl ArchiveReader {
    /// Lists the archive: its file paths and sizes, the total original size
    /// (saturating at `u64::MAX`), the archive size, the number of distinct
    /// chunks, and the creation time and version. No chunk is decompressed.
    pub fn get_summary(&self) -> (r: Result<ArchiveSummary, AppError>)
        requires
            self.wf(),
        ensures
            r matches Ok(s) ==> parse_files(
                self.bytes(),
                self.layout().file_table_offset,
                self.layout().file_count as nat,
            ) matches Ok((fs, _)) && {
                &&& s.unique_chunks == self.layout().chunks.len()
                &&& s.archive_size == self.bytes().len()
                &&& s.squish_version@ == self.layout().version
                &&& s.squish_creation_date@ == self.creation_date()
                &&& s.total_original_size == if total_size(fs) > u64::MAX {
                    u64::MAX as int
                } else {
                    total_size(fs)
                }
                &&& s.files@.len() == fs.len()
                &&& forall|i: int|
                    0 <= i < fs.len() ==> {
                        &&& vstd::utf8::encode_utf8((#[trigger] s.files@[i]).path@) == fs[i].0
                        &&& s.files@[i].original_size == fs[i].1
                    }
            },
            r matches Err(e) ==> parse_files(
                self.bytes(),
                self.layout().file_table_offset,
                self.layout().file_count as nat,
            ) == Err::<(Seq<FileModel>, int), AppError>(e),
    {
        let records = self.read_file_table()?;
        let ghost fs = models_of(records@);
        let mut files: Vec<FileEntry> = Vec::new();
        let mut total: u64 = 0;
        let mut i: usize = 0;
        while i < records.len()
            invariant
                fs == models_of(records@),
                i <= records@.len(),
                files@.len() == i,
                total == if total_size(fs.take(i as int)) > u64::MAX {
                    u64::MAX as int
                } else {
                    total_size(fs.take(i as int))
                },
                forall|j: int|
                    0 <= j < i ==> {
                        &&& vstd::utf8::encode_utf8((#[trigger] files@[j]).path@) == fs[j].0
                        &&& files@[j].original_size == fs[j].1
                    },
            decreases records@.len() - i,
        {
            let size = records[i].original_size;
            proof {
                assert(fs.take(i + 1).drop_last() =~= fs.take(i as int));
                assert(fs[i as int] == records@[i as int].model());
                assert(total_size(fs.take(i as int)) >= 0) by {
                    lemma_total_size_nonneg(fs.take(i as int));
                }
            }
            total = if total > u64::MAX - size {
                u64::MAX
            } else {
                total + size
            };
            files.push(FileEntry { path: records[i].path.clone(), original_size: size });
            i = i + 1;
        }
        assert(fs.take(fs.len() as int) =~= fs);
        Ok(
            ArchiveSummary {
                unique_chunks: self.number_of_chunks,
                total_original_size: total,
                archive_size: self.archive_size,
                squish_creation_date: self.squish_creation_time.clone(),
                squish_version: self.squish_version.clone(),
                files,
            },
        )
    }
}

pub proof fn lemma_total_size_nonneg(fs: Seq<FileModel>)
    ensures
        total_size(fs) >= 0,
    decreases fs.len(),
{
    if fs.len() > 0 {
        lemma_total_size_nonneg(fs.drop_last());
    }
}

/// An archive whose magic prefix is damaged, or whose version differs from
/// the running one in its major or minor component, does not open: it is
/// refused with a format error.
pub proof fn lemma_header_rejection(data: Seq<u8>)
    requires
        data.len() >= MAGIC_LEN,
        data.subrange(0, MAGIC_LEN - VERSION_LEN) != prefix_bytes() || data.subrange(
            MAGIC_LEN - VERSION_LEN,
            MAGIC_LEN - VERSION_LEN + SERIES_LEN,
        ) != series_bytes(),
    ensures
        spec_open(data) == Err::<ArchiveLayout, AppError>(AppError::InvalidFormat) || spec_open(data)
            == Err::<ArchiveLayout, AppError>(AppError::IncompatibleVersion),
{
    lemma_magic_lengths();
    let v = data.subrange(MAGIC_LEN - VERSION_LEN, MAGIC_LEN as int);
    assert(v.subrange(0, SERIES_LEN as int) =~= data.subrange(
        MAGIC_LEN - VERSION_LEN,
        MAGIC_LEN - VERSION_LEN + SERIES_LEN,
    ));
}

} // verus!
