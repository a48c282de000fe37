use vstd::prelude::*;

use crate::error::D88Error;
use crate::format::{copy_bytes, le16, D88_SectorHdr, SECTOR_HEADER_SIZE};
use crate::text::{decimal, dec_digits, enclose};

verus! {

/// Declared payload length of the sector record at `p`.
pub open spec fn payload_len(b: Seq<u8>, p: int) -> int {
    le16(b, p + 14)
}

/// Bytes taken by the sector record at `p`: its header and its payload.
pub open spec fn footprint(b: Seq<u8>, p: int) -> int {
    SECTOR_HEADER_SIZE + payload_len(b, p)
}

/// The whole sector record at `p` (header and declared payload) lies inside `b`.
pub open spec fn sector_fits(b: Seq<u8>, p: int) -> bool {
    &&& 0 <= p
    &&& p + SECTOR_HEADER_SIZE <= b.len()
    &&& p + footprint(b, p) <= b.len()
}

/// Label of a sector status byte.
pub open spec fn status_text(status: u8) -> Seq<char> {
    if status == 0x00 {
        "OK"@
    } else if status == 0x10 {
        "DELETED"@
    } else if status == 0xa0 {
        "ID CRC Err"@
    } else if status == 0xb0 {
        "Data CRC Err"@
    } else if status == 0xe0 {
        "No Addr Mark"@
    } else if status == 0xf0 {
        "No Data Mark"@
    } else {
        "??"@
    }
}

/// Label of a density byte: double, single or high density.
pub open spec fn density_text(density: u8) -> Seq<char> {
    if density == 0x00 {
        "D"@
    } else if density == 0x40 {
        "S"@
    } else if density == 0x01 {
        "HD"@
    } else {
        "??"@
    }
}

/// Label of a deleted-mark byte.
pub open spec fn mark_text(mark: u8) -> Seq<char> {
    if mark == 0x00 {
        "NORMAL"@
    } else if mark == 0x10 {
        "DELETED"@
    } else {
        "??"@
    }
}

/// Nominal sector size for a size exponent: 128 times two to the exponent.
pub open spec fn nominal_size(e: nat) -> nat
    decreases e,
{
    if e == 0 {
        128
    } else {
        2 * nominal_size((e - 1) as nat)
    }
}

proof fn lemma_nominal_size_grows(i: nat, e: nat)
    requires
        i <= e,
    ensures
        nominal_size(i) <= nominal_size(e),
    decreases e - i,
{
    if i < e {
        lemma_nominal_size_grows(i, (e - 1) as nat);
    }
}

pub fn status_label(status: u8) -> (r: &'static str)
    ensures
        r@ == status_text(status),
{
    match status {
        0x00 => "OK",
        0x10 => "DELETED",
        0xa0 => "ID CRC Err",
        0xb0 => "Data CRC Err",
        0xe0 => "No Addr Mark",
        0xf0 => "No Data Mark",
        _ => "??",
    }
}

pub fn density_label(density: u8) -> (r: &'static str)
    ensures
        r@ == density_text(density),
{
    match density {
        0x00 => "D",
        0x40 => "S",
        0x01 => "HD",
        _ => "??",
    }
}

pub fn mark_label(mark: u8) -> (r: &'static str)
    ensures
        r@ == mark_text(mark),
{
    match mark {
        0x00 => "NORMAL",
        0x10 => "DELETED",
        _ => "??",
    }
}

/// One decoded sector: its header, where its payload starts in the image,
/// and the payload itself.
#[derive(Debug, Default)]
pub struct Sector {
    pub offset: u64,
    pub header: D88_SectorHdr,
    pub data: Vec<u8>,
}

impl Sector {
    /// `self` is the sector record stored at `p` in `b`.
    pub open spec fn decoded_from(&self, b: Seq<u8>, p: int) -> bool {
        &&& self.header.decoded_from(b, p)
        &&& self.offset == p + SECTOR_HEADER_SIZE
        &&& self.data@ == b.subrange(p + SECTOR_HEADER_SIZE, p + footprint(b, p))
    }

    /// An empty sector with an all-zero header.
    pub fn new() -> (r: Sector)
        ensures
            r.offset == 0,
            r.data@.len() == 0,
            r.header.sec == 0,
            r.header.size_of_data == 0,
    {
        Sector {
            offset: 0,
            header: D88_SectorHdr {
                track: 0,
                side: 0,
                sec: 0,
                sec_size: 0,
                number_of_sec: 0,
                density: 0,
                deleted_mark: 0,
                status: 0,
                reserved: [0u8; 5],
                size_of_data: 0,
            },
            data: Vec::new(),
        }
    }

    /// Nominal size of the sector, from its size exponent; `None` where it
    /// does not fit in 64 bits.
    pub fn nominal_size(&self) -> (r: Option<u64>)
        ensures
            r is Some <==> nominal_size(self.header.sec_size as nat) <= u64::MAX,
            r matches Some(v) ==> v == nominal_size(self.header.sec_size as nat),
    {
        let e = self.header.sec_size;
        let mut size: u64 = 128;
        let mut i: u8 = 0;
        while i < e
            invariant
                i <= e,
                e == self.header.sec_size,
                size == nominal_size(i as nat),
            decreases e - i,
        {
            if size > u64::MAX / 2 {
                proof {
                    lemma_nominal_size_grows((i + 1) as nat, e as nat);
                }
                return None;
            }
            size = size * 2;
            i = i + 1;
        }
        Some(size)
    }

    /// Whether the nominal size and the declared payload length disagree.
    /// Only the payload length is used to read data; a disagreement is worth
    /// a warning.
    pub fn size_mismatch(&self) -> (r: bool)
        ensures
            r == (nominal_size(self.header.sec_size as nat) != self.header.size_of_data),
    {
        match self.nominal_size() {
            Some(v) => v != self.header.size_of_data as u64,
            None => true,
        }
    }

    pub fn get_track(&self) -> (r: String)
        ensures
            r@ == "Track("@ + dec_digits(self.header.track as nat) + ")"@,
    {
        enclose("Track(", decimal(self.header.track as u64).as_str(), ")")
    }

    pub fn get_side(&self) -> (r: String)
        ensures
            r@ == "Side("@ + dec_digits(self.header.side as nat) + ")"@,
    {
        enclose("Side(", decimal(self.header.side as u64).as_str(), ")")
    }

    pub fn get_sector(&self) -> (r: String)
        ensures
            r@ == "Sector("@ + dec_digits(self.header.sec as nat) + ")"@,
    {
        enclose("Sector(", decimal(self.header.sec as u64).as_str(), ")")
    }

    /// The nominal size, or `??` where it does not fit in 64 bits.
    pub fn get_sector_size(&self) -> (r: String)
        ensures
            nominal_size(self.header.sec_size as nat) <= u64::MAX ==> r@ == "Size("@ + dec_digits(
                nominal_size(self.header.sec_size as nat),
            ) + " byte/sec)"@,
            nominal_size(self.header.sec_size as nat) > u64::MAX ==> r@ == "Size("@ + "??"@
                + " byte/sec)"@,
    {
        match self.nominal_size() {
            Some(v) => enclose("Size(", decimal(v).as_str(), " byte/sec)"),
            None => enclose("Size(", "??", " byte/sec)"),
        }
    }

    pub fn get_num_of_sector(&self) -> (r: String)
        ensures
            r@ == "NumOfSector("@ + dec_digits(self.header.number_of_sec as nat) + " sec/track)"@,
    {
        enclose("NumOfSector(", decimal(self.header.number_of_sec as u64).as_str(), " sec/track)")
    }

    pub fn get_status(&self) -> (r: String)
        ensures
            r@ == "Status("@ + status_text(self.header.status) + ")"@,
    {
        enclose("Status(", status_label(self.header.status), ")")
    }

    pub fn get_density(&self) -> (r: String)
        ensures
            r@ == "Density("@ + density_text(self.header.density) + ")"@,
    {
        enclose("Density(", density_label(self.header.density), ")")
    }

    pub fn get_mark(&self) -> (r: String)
        ensures
            r@ == "Mark("@ + mark_text(self.header.deleted_mark) + ")"@,
    {
        enclose("Mark(", mark_label(self.header.deleted_mark), ")")
    }

    pub fn get_data_size(&self) -> (r: String)
        ensures
            r@ == "DataSize("@ + dec_digits(self.header.size_of_data as nat) + " byte), "@,
    {
        enclose("DataSize(", decimal(self.header.size_of_data as u64).as_str(), " byte), ")
    }

    /// Decodes the sector record whose header starts at `offset` in `image`.
    ///
    /// A zero offset means "absent" and fails with `FormatError`; a record
    /// that runs past the end of the image fails with `IoError`. On success
    /// the result is the number of bytes the record takes, sixteen plus the
    /// declared payload length, which is where the next record starts.
    pub fn preset(&mut self, image: &[u8], offset: u64) -> (r: Result<u64, D88Error>)
        ensures
            offset == 0 ==> r == Err::<u64, D88Error>(D88Error::FormatError),
            offset != 0 && !sector_fits(image@, offset as int) ==> r == Err::<u64, D88Error>(
                D88Error::IoError,
            ),
            offset != 0 && sector_fits(image@, offset as int) ==> {
                &&& r == Ok::<u64, D88Error>(footprint(image@, offset as int) as u64)
                &&& final(self).decoded_from(image@, offset as int)
            },
            r is Ok ==> r == Ok::<u64, D88Error>((SECTOR_HEADER_SIZE + final(self).header.size_of_data) as u64),
            r is Err ==> *final(self) == *old(self),
    {
        if offset == 0 {
            return Err(D88Error::FormatError);
        }
        let len = image.len();
        if offset > len as u64 {
            return Err(D88Error::IoError);
        }
        let p = offset as usize;
        let header = match D88_SectorHdr::from_bytes(image, p) {
            Ok(h) => h,
            Err(e) => return Err(e),
        };
        let start = p + SECTOR_HEADER_SIZE;
        let n = header.size_of_data as usize;
        if len - start < n {
            return Err(D88Error::IoError);
        }
        let data = copy_bytes(image, start, n);
        self.offset = start as u64;
        self.header = header;
        self.data = data;
        Ok((SECTOR_HEADER_SIZE + n) as u64)
    }
}

} // verus!
