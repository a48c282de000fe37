use vstd::prelude::*;

use crate::error::D88Error;

verus! {

/// Number of entries in the track-offset table; also the most sectors read per track.
pub const MAX_SECTOR: u16 = 164;

/// Byte length of the disk header.
pub const HEADER_SIZE: usize = 688;

/// Byte length of a sector header.
pub const SECTOR_HEADER_SIZE: usize = 16;

/// Little-endian 16-bit value at `p`.
pub open spec fn le16(b: Seq<u8>, p: int) -> int {
    b[p] + 256 * b[p + 1]
}

/// Little-endian 32-bit value at `p`.
pub open spec fn le32(b: Seq<u8>, p: int) -> int {
    le16(b, p) + 65536 * le16(b, p + 2)
}

pub fn read_u16_le(b: &[u8], p: usize) -> (r: u16)
    requires
        p + 2 <= b.len(),
    ensures
        r == le16(b@, p as int),
{
    b[p] as u16 + (b[p + 1] as u16) * 256
}

pub fn read_u32_le(b: &[u8], p: usize) -> (r: u32)
    requires
        p + 4 <= b.len(),
    ensures
        r == le32(b@, p as int),
{
    read_u16_le(b, p) as u32 + (read_u16_le(b, p + 2) as u32) * 65536
}

/// Copies `b[start..start + len]` into a new vector.
pub(crate) fn copy_bytes(b: &[u8], start: usize, len: usize) -> (r: Vec<u8>)
    requires
        start + len <= b.len(),
    ensures
        r@ == b@.subrange(start as int, start + len),
{
    let mut r: Vec<u8> = Vec::with_capacity(len);
    let mut i: usize = 0;
    while i < len
        invariant
            i <= len,
            start + len <= b.len(),
            r@ == b@.subrange(start as int, start + i),
        decreases len - i,
    {
        r.push(b[start + i]);
        i = i + 1;
        assert(r@ =~= b@.subrange(start as int, start + i));
    }
    r
}

/// The disk header: name, protection, type, size and the track-offset table.
#[derive(Debug, Clone)]
#[allow(non_camel_case_types)]
pub struct D88_Header {
    pub disk_name: Vec<u8>,
    pub reserved: Vec<u8>,
    pub write_protect: u8,
    pub disk_type: u8,
    pub disk_size: u32,
    pub track_tbl: Vec<u32>,
}

impl D88_Header {
    /// The fixed field lengths hold.
    pub open spec fn wf(&self) -> bool {
        &&& self.disk_name@.len() == 17
        &&& self.reserved@.len() == 9
        &&& self.track_tbl@.len() == MAX_SECTOR
    }

    /// `self` holds exactly the header stored at the start of `b`.
    pub open spec fn decoded_from(&self, b: Seq<u8>) -> bool {
        &&& self.wf()
        &&& self.disk_name@ == b.subrange(0, 17)
        &&& self.reserved@ == b.subrange(17, 26)
        &&& self.write_protect == b[26]
        &&& self.disk_type == b[27]
        &&& self.disk_size == le32(b, 28)
        &&& forall|k: int| 0 <= k < MAX_SECTOR ==> #[trigger] self.track_tbl@[k] == le32(b, 32 + 4 * k)
    }

    /// An all-zero header: no name, no tracks.
    pub fn new() -> (r: D88_Header)
        ensures
            r.wf(),
            forall|i: int| 0 <= i < 17 ==> r.disk_name@[i] == 0,
            r.write_protect == 0,
            r.disk_type == 0,
            r.disk_size == 0,
            forall|k: int| 0 <= k < MAX_SECTOR ==> #[trigger] r.track_tbl@[k] == 0,
    {
        D88_Header {
            disk_name: vec![0u8; 17],
            reserved: vec![0u8; 9],
            write_protect: 0,
            disk_type: 0,
            disk_size: 0,
            track_tbl: vec![0u32; 164],
        }
    }

    /// Decodes the header at the start of `b`; fails with `IoError` when `b`
    /// is shorter than the header.
    pub fn from_bytes(b: &[u8]) -> (r: Result<D88_Header, D88Error>)
        ensures
            b@.len() < HEADER_SIZE <==> r is Err,
            r is Err ==> r == Err::<D88_Header, D88Error>(D88Error::IoError),
            r matches Ok(h) ==> h.decoded_from(b@),
    {
        if b.len() < HEADER_SIZE {
            return Err(D88Error::IoError);
        }
        let disk_name = copy_bytes(b, 0, 17);
        let reserved = copy_bytes(b, 17, 9);
        let mut track_tbl: Vec<u32> = Vec::with_capacity(164);
        let mut k: usize = 0;
        while k < 164
            invariant
                k <= 164,
                b@.len() >= HEADER_SIZE,
                track_tbl@.len() == k,
                forall|j: int| 0 <= j < k ==> #[trigger] track_tbl@[j] == le32(b@, 32 + 4 * j),
            decreases 164 - k,
        {
            track_tbl.push(read_u32_le(b, 32 + 4 * k));
            k = k + 1;
        }
        Ok(D88_Header {
            disk_name,
            reserved,
            write_protect: b[26],
            disk_type: b[27],
            disk_size: read_u32_le(b, 28),
            track_tbl,
        })
    }
}

impl Default for D88_Header {
    fn default() -> (r: D88_Header)
        ensures
            r.wf(),
            forall|i: int| 0 <= i < 17 ==> r.disk_name@[i] == 0,
            r.write_protect == 0,
            r.disk_type == 0,
            r.disk_size == 0,
            forall|k: int| 0 <= k < MAX_SECTOR ==> #[trigger] r.track_tbl@[k] == 0,
    {
        D88_Header::new()
    }
}

/// A sector header as stored in front of each sector's data.
#[derive(Debug, Clone, Copy, Default)]
#[allow(non_camel_case_types)]
pub struct D88_SectorHdr {
    pub track: u8,
    pub side: u8,
    pub sec: u8,
    pub sec_size: u8,
    pub number_of_sec: u16,
    pub density: u8,
    pub deleted_mark: u8,
    pub status: u8,
    pub reserved: [u8; 5],
    pub size_of_data: u16,
}

impl D88_SectorHdr {
    /// `self` holds exactly the sector header stored at `p` in `b`.
    pub open spec fn decoded_from(&self, b: Seq<u8>, p: int) -> bool {
        &&& self.track == b[p]
        &&& self.side == b[p + 1]
        &&& self.sec == b[p + 2]
        &&& self.sec_size == b[p + 3]
        &&& self.number_of_sec == le16(b, p + 4)
        &&& self.density == b[p + 6]
        &&& self.deleted_mark == b[p + 7]
        &&& self.status == b[p + 8]
        &&& self.reserved@ == b.subrange(p + 9, p + 14)
        &&& self.size_of_data == le16(b, p + 14)
    }

    /// Decodes the sector header at `p`; fails with `IoError` when fewer than
    /// its sixteen bytes remain there.
    pub fn from_bytes(b: &[u8], p: usize) -> (r: Result<D88_SectorHdr, D88Error>)
        ensures
            p + SECTOR_HEADER_SIZE > b@.len() <==> r is Err,
            r is Err ==> r == Err::<D88_SectorHdr, D88Error>(D88Error::IoError),
            r matches Ok(h) ==> h.decoded_from(b@, p as int),
    {
        if p > b.len() || b.len() - p < SECTOR_HEADER_SIZE {
            return Err(D88Error::IoError);
        }
        let reserved: [u8; 5] = [b[p + 9], b[p + 10], b[p + 11], b[p + 12], b[p + 13]];
        assert(reserved@ =~= b@.subrange(p + 9, p + 14));
        Ok(D88_SectorHdr {
            track: b[p],
            side: b[p + 1],
            sec: b[p + 2],
            sec_size: b[p + 3],
            number_of_sec: read_u16_le(b, p + 4),
            density: b[p + 6],
            deleted_mark: b[p + 7],
            status: b[p + 8],
            reserved,
            size_of_data: read_u16_le(b, p + 14),
        })
    }
}

} // verus!
