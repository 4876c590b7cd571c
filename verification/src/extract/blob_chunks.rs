// the frames of an osm pbf file: each blob is a 4-byte big-endian header length, a header of that
// length naming the blob's type and data size, and the data. scanning records where each blob
// lies, without reading its data.
use vstd::prelude::*;
use crate::text::str_eq;

verus! {

/// What a blob holds: the file header, or data.
#[derive(Clone, Copy, PartialEq, Eq, Debug, Structural)]
pub enum chunk_type {
    header,
    data,
}

/// Where a blob lies in the file: its frame (`first_byte`, `chunk_size` bytes) and its data
/// (`data_first_byte`, `data_size` bytes).
pub struct blob_chunk {
    pub id: i64,
    pub file_id: u32,
    pub first_byte: u64,
    pub chunk_size: u64,
    pub data_first_byte: u64,
    pub data_size: u64,
    pub chunk_type: chunk_type,
}

/// Progress of a scan: bytes framed so far out of the file's size.
pub struct progress {
    pub total_bytes: u64,
    pub bytes_read: u64,
}

/// The number four bytes spell, most significant first.
pub open spec fn be_u32_value(b: Seq<u8>) -> int {
    b[0] * 0x100_0000 + b[1] * 0x1_0000 + b[2] * 0x100 + b[3]
}

/// The header length a frame starts with: its first four bytes, big-endian.
pub fn frame_header_len(len_buf: &[u8; 4]) -> (n: u32)
    ensures
        n == be_u32_value(len_buf@),
{
    let b0 = len_buf[0] as u32;
    let b1 = len_buf[1] as u32;
    let b2 = len_buf[2] as u32;
    let b3 = len_buf[3] as u32;
    b0 * 0x100_0000 + b1 * 0x1_0000 + b2 * 0x100 + b3
}

/// The type of a blob whose header names `blob_type`: the file header for `OSMHeader`, data for
/// anything else.
pub open spec fn type_of_blob(blob_type: Seq<char>) -> chunk_type {
    if blob_type == "OSMHeader"@ {
        chunk_type::header
    } else {
        chunk_type::data
    }
}

/// The frames scanned so far: they follow one another from the start of the file, each one's
/// data right after its header, and the scan stands at the end of the last.
pub struct blob_scan {
    pub file_id: u32,
    pub offset: u64,
    pub chunks: Vec<blob_chunk>,
}

impl blob_scan {
    /// The frames tile the file from its first byte up to `offset`.
    pub open spec fn wf(&self) -> bool {
        &&& forall|i: int|
            0 <= i < self.chunks@.len() ==> {
                let c = #[trigger] self.chunks@[i];
                &&& c.file_id == self.file_id
                &&& c.id == 0
                &&& c.data_first_byte + c.data_size == c.first_byte + c.chunk_size
                &&& c.first_byte + 4 <= c.data_first_byte
                &&& c.first_byte + c.chunk_size <= u64::MAX
            }
        &&& self.chunks@.len() > 0 ==> self.chunks@[0].first_byte == 0
        &&& forall|i: int|
            0 <= i < self.chunks@.len() - 1 ==> #[trigger] self.chunks@[i + 1].first_byte
                == self.chunks@[i].first_byte + self.chunks@[i].chunk_size
        &&& self.offset == if self.chunks@.len() == 0 {
            0
        } else {
            self.chunks@.last().first_byte + self.chunks@.last().chunk_size
        }
    }

    /// A scan of file `file_id` that has framed nothing.
    pub fn new(file_id: u32) -> (s: Self)
        ensures
            s.wf(),
            s.file_id == file_id,
            s.offset == 0,
            s.chunks@.len() == 0,
    {
        blob_scan { file_id, offset: 0, chunks: Vec::new() }
    }

    /// Records the blob at the current offset, whose header is `header_len` bytes long and names
    /// type `blob_type` and `datasize` bytes of data, and moves past it.
    pub fn add_blob(&mut self, header_len: u32, blob_type: &str, datasize: u32)
        requires
            old(self).wf(),
            old(self).offset + 4 + header_len + datasize <= u64::MAX,
        ensures
            final(self).wf(),
            final(self).file_id == old(self).file_id,
            final(self).offset == old(self).offset + 4 + header_len + datasize,
            final(self).chunks@.len() == old(self).chunks@.len() + 1,
            forall|i: int|
                0 <= i < old(self).chunks@.len() ==> #[trigger] final(self).chunks@[i] == old(
                    self,
                ).chunks@[i],
            ({
                let c = final(self).chunks@.last();
                &&& c.id == 0
                &&& c.file_id == old(self).file_id
                &&& c.first_byte == old(self).offset
                &&& c.chunk_size == 4 + header_len + datasize
                &&& c.data_first_byte == old(self).offset + 4 + header_len
                &&& c.data_size == datasize
                &&& c.chunk_type == type_of_blob(blob_type@)
            }),
    {
        let chunk_size: u64 = 4 + header_len as u64 + datasize as u64;
        let kind = if str_eq(blob_type, "OSMHeader") {
            chunk_type::header
        } else {
            chunk_type::data
        };
        let c = blob_chunk {
            id: 0,
            file_id: self.file_id,
            first_byte: self.offset,
            chunk_size,
            data_first_byte: self.offset + 4 + header_len as u64,
            data_size: datasize as u64,
            chunk_type: kind,
        };
        let ghost before = self.chunks@;
        self.chunks.push(c);
        self.offset = self.offset + chunk_size;
        assert(forall|i: int| 0 <= i < before.len() ==> self.chunks@[i] == before[i]);
    }

    /// How far the scan has come in a file of `total_bytes` bytes.
    pub fn progress(&self, total_bytes: u64) -> (p: progress)
        ensures
            p.total_bytes == total_bytes,
            p.bytes_read == self.offset,
    {
        progress { total_bytes, bytes_read: self.offset }
    }
}

} // verus!
