use std::sync::Arc;

use vstd::bytes::*;
use vstd::prelude::*;

use crate::chunk::ChunkHash;
use crate::header::{magic_bytes, write_u32, write_u64};

verus! {

/// One chunk-table record as written: digest, original chunk length and
/// compressed bytes.
pub type ChunkEntry = (Seq<u8>, u64, Seq<u8>);

/// One file-table entry as written: path bytes, original size and the
/// ordered digests.
pub type FileModel = (Seq<u8>, u64, Seq<Seq<u8>>);

/// A newly seen chunk on its way to the chunk table.
pub struct ChunkMessage {
    pub hash: ChunkHash,
    pub compressed_data: Arc<Vec<u8>>,
    pub original_size: u64,
}

impl ChunkMessage {
    pub open spec fn entry(&self) -> ChunkEntry {
        (self.hash@, self.original_size, self.compressed_data@)
    }
}

/// Metadata of one packed file.
pub struct FileRecord {
    /// Path relative to the packed root.
    pub path: String,
    pub original_size: u64,
    pub chunk_hashes: Vec<ChunkHash>,
}

impl FileRecord {
    pub open spec fn model(&self) -> FileModel {
        (
            vstd::utf8::encode_utf8(self.path@),
            self.original_size,
            self.chunk_hashes@.map_values(|h: ChunkHash| h@),
        )
    }
}

pub open spec fn entries_of(msgs: Seq<ChunkMessage>) -> Seq<ChunkEntry> {
    msgs.map_values(|m: ChunkMessage| m.entry())
}

pub open spec fn models_of(files: Seq<FileRecord>) -> Seq<FileModel> {
    files.map_values(|f: FileRecord| f.model())
}

/// Bytes of one chunk record.
pub open spec fn record_bytes(e: ChunkEntry) -> Seq<u8> {
    e.0 + spec_u64_to_le_bytes(e.1) + spec_u64_to_le_bytes(e.2.len() as u64) + e.2
}

/// Bytes of a run of chunk records.
pub open spec fn records_bytes(es: Seq<ChunkEntry>) -> Seq<u8>
    decreases es.len(),
{
    if es.len() == 0 {
        Seq::empty()
    } else {
        records_bytes(es.drop_last()) + record_bytes(es.last())
    }
}

/// Bytes of a run of digests.
pub open spec fn digests_bytes(ds: Seq<Seq<u8>>) -> Seq<u8>
    decreases ds.len(),
{
    if ds.len() == 0 {
        Seq::empty()
    } else {
        digests_bytes(ds.drop_last()) + ds.last()
    }
}

/// Bytes of one file-table entry.
pub open spec fn file_bytes(f: FileModel) -> Seq<u8> {
    spec_u32_to_le_bytes(f.0.len() as u32) + f.0 + spec_u64_to_le_bytes(f.1)
        + spec_u32_to_le_bytes(f.2.len() as u32) + digests_bytes(f.2)
}

/// Bytes of a run of file-table entries.
pub open spec fn files_bytes(fs: Seq<FileModel>) -> Seq<u8>
    decreases fs.len(),
{
    if fs.len() == 0 {
        Seq::empty()
    } else {
        files_bytes(fs.drop_last()) + file_bytes(fs.last())
    }
}

/// The file table: the file count, then each entry.
pub open spec fn file_table_bytes(fs: Seq<FileModel>) -> Seq<u8> {
    spec_u32_to_le_bytes(fs.len() as u32) + files_bytes(fs)
}

/// Whether the lengths and counts of a file entry fit their fields.
pub open spec fn file_fits(f: FileModel) -> bool {
    &&& f.0.len() <= u32::MAX
    &&& f.2.len() <= u32::MAX
    &&& forall|i: int| 0 <= i < f.2.len() ==> (#[trigger] f.2[i]).len() == 16
}

/// Whether a file table can be written and read back as it is.
pub open spec fn table_fits(fs: Seq<FileModel>) -> bool {
    &&& fs.len() <= u32::MAX
    &&& forall|i: int| 0 <= i < fs.len() ==> file_fits(#[trigger] fs[i])
}

/// A whole archive: header, timestamp, chunk count, chunk table, file table.
pub open spec fn archive_bytes(
    timestamp: u64,
    chunks: Seq<ChunkEntry>,
    files: Seq<FileModel>,
) -> Seq<u8> {
    magic_bytes() + spec_u64_to_le_bytes(timestamp) + spec_u64_to_le_bytes(chunks.len() as u64)
        + records_bytes(chunks) + file_table_bytes(files)
}

/// Appends one chunk record: digest, original length, compressed length,
/// compressed bytes.
pub fn write_chunk_record(out: &mut Vec<u8>, msg: &ChunkMessage)
    ensures
        final(out)@ == old(out)@ + record_bytes(msg.entry()),
{
    out.extend_from_slice(msg.hash.as_slice());
    write_u64(out, msg.original_size);
    let data: &Vec<u8> = &*msg.compressed_data;
    write_u64(out, data.len() as u64);
    out.extend_from_slice(data.as_slice());
    assert(final(out)@ =~= old(out)@ + record_bytes(msg.entry()));
}

/// Appends the records of `msgs` in order: the single writer of the chunk
/// table.
pub fn write_chunks(out: &mut Vec<u8>, msgs: &Vec<ChunkMessage>)
    ensures
        final(out)@ == old(out)@ + records_bytes(entries_of(msgs@)),
{
    let mut i: usize = 0;
    while i < msgs.len()
        invariant
            i <= msgs@.len(),
            out@ == old(out)@ + records_bytes(entries_of(msgs@.take(i as int))),
        decreases msgs@.len() - i,
    {
        write_chunk_record(out, &msgs[i]);
        proof {
            let t = entries_of(msgs@.take(i + 1));
            assert(t.drop_last() =~= entries_of(msgs@.take(i as int)));
            assert(t.last() == msgs@[i as int].entry());
        }
        i = i + 1;
    }
    assert(msgs@.take(msgs@.len() as int) =~= msgs@);
}

/// Appends `hashes` one after another.
pub fn write_digests(out: &mut Vec<u8>, hashes: &Vec<ChunkHash>)
    ensures
        final(out)@ == old(out)@ + digests_bytes(hashes@.map_values(|h: ChunkHash| h@)),
{
    let mut i: usize = 0;
    while i < hashes.len()
        invariant
            i <= hashes@.len(),
            out@ == old(out)@ + digests_bytes(
                hashes@.take(i as int).map_values(|h: ChunkHash| h@),
            ),
        decreases hashes@.len() - i,
    {
        out.extend_from_slice(hashes[i].as_slice());
        proof {
            let t = hashes@.take(i + 1).map_values(|h: ChunkHash| h@);
            assert(t.drop_last() =~= hashes@.take(i as int).map_values(|h: ChunkHash| h@));
        }
        i = i + 1;
    }
    assert(hashes@.take(hashes@.len() as int) =~= hashes@);
}

/// Appends one file-table entry.
pub fn write_file_entry(out: &mut Vec<u8>, file: &FileRecord)
    requires
        file_fits(file.model()),
    ensures
        final(out)@ == old(out)@ + file_bytes(file.model()),
{
    let path = file.path.as_str().as_bytes();
    write_u32(out, path.len() as u32);
    out.extend_from_slice(path);
    write_u64(out, file.original_size);
    write_u32(out, file.chunk_hashes.len() as u32);
    write_digests(out, &file.chunk_hashes);
    assert(final(out)@ =~= old(out)@ + file_bytes(file.model()));
}

/// Appends the file table: the number of files, then one entry per file.
pub fn write_files_metadata(out: &mut Vec<u8>, files: &Vec<FileRecord>)
    requires
        table_fits(models_of(files@)),
    ensures
        final(out)@ == old(out)@ + file_table_bytes(models_of(files@)),
{
    write_u32(out, files.len() as u32);
    let ghost start = out@;
    let mut i: usize = 0;
    while i < files.len()
        invariant
            i <= files@.len(),
            table_fits(models_of(files@)),
            out@ == start + files_bytes(models_of(files@.take(i as int))),
        decreases files@.len() - i,
    {
        proof {
            assert(models_of(files@)[i as int] == files@[i as int].model());
        }
        write_file_entry(out, &files[i]);
        proof {
            let t = models_of(files@.take(i + 1));
            assert(t.drop_last() =~= models_of(files@.take(i as int)));
        }
        i = i + 1;
    }
    assert(files@.take(files@.len() as int) =~= files@);
    assert(final(out)@ =~= old(out)@ + file_table_bytes(models_of(files@)));
}

} // verus!
