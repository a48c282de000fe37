use vstd::prelude::*;

use crate::disk::{track_bases, Disk};
use crate::error::D88Error;
use crate::format::{le32, D88_Header, HEADER_SIZE, MAX_SECTOR};
use crate::sector::Sector;
use crate::track::{lemma_sector_sort_puts_least_first, stable_sort_of};

verus! {

/// The track-offset table stored in the header of `b`.
pub open spec fn image_table(b: Seq<u8>) -> Seq<u32> {
    Seq::new(MAX_SECTOR as nat, |k: int| le32(b, 32 + 4 * k) as u32)
}

/// `b` holds a whole header and at least one track that decodes.
pub open spec fn image_opens(b: Seq<u8>) -> bool {
    &&& b.len() >= HEADER_SIZE
    &&& track_bases(b, image_table(b)).len() > 0
}

/// The sector at (`track`, `side`, `sector`), all counted from zero: the
/// `sector`-th sector of the disk's `track * 2 + side`-th track, if there is one.
pub open spec fn lookup(d: Disk, track: int, side: int, sector: int) -> Option<Sector> {
    let t = track * 2 + side;
    if 0 <= side < 2 && 0 <= t < d.track_tbl@.len() && 0 <= sector < d.track_tbl@[t].sector_tbl@.len() {
        Some(d.track_tbl@[t].sector_tbl@[sector])
    } else {
        None
    }
}

/// `after` is `before` with each track's sectors stably sorted by the key
/// (file offset, or sector number).
pub open spec fn tracks_sorted_from(after: Disk, before: Disk, by_offset: bool) -> bool {
    &&& after.header == before.header
    &&& after.track_tbl@.len() == before.track_tbl@.len()
    &&& forall|i: int|
        0 <= i < after.track_tbl@.len() ==> {
            &&& (#[trigger] after.track_tbl@[i]).number_of_sector == before.track_tbl@[i].number_of_sector
            &&& stable_sort_of(after.track_tbl@[i].sector_tbl@, before.track_tbl@[i].sector_tbl@, by_offset)
        }
}

proof fn lemma_header_table(h: D88_Header, b: Seq<u8>)
    requires
        h.decoded_from(b),
        b.len() >= HEADER_SIZE,
    ensures
        h.track_tbl@ == image_table(b),
{
    assert(h.track_tbl@ =~= image_table(b));
}

/// An opened disk image: the image bytes, while it is open, and the disk
/// decoded from them.
#[derive(Default)]
pub struct D88FileIO {
    pub image: Option<Vec<u8>>,
    pub disk: Disk,
}

impl D88FileIO {
    /// Decodes `image`. When it decodes (a whole header and at least one
    /// track) the result holds the image and its disk; otherwise it is not
    /// open and its disk has no track.
    pub fn open(image: Vec<u8>) -> (r: D88FileIO)
        ensures
            image_opens(image@) <==> r.image is Some,
            r.image is Some ==> r.image == Some(image) && r.disk.decoded_from(image@),
            r.image is None ==> r.disk.track_tbl@.len() == 0,
    {
        let mut disk = Disk::new();
        match disk.preset(image.as_slice()) {
            Ok(_) => {
                proof {
                    lemma_header_table(disk.header, image@);
                }
                D88FileIO { image: Some(image), disk }
            },
            Err(_) => {
                proof {
                    if image@.len() >= HEADER_SIZE {
                        lemma_header_table(disk.header, image@);
                    }
                }
                D88FileIO { image: None, disk: Disk::new() }
            },
        }
    }

    /// Whether an image is open.
    pub fn is_open(&self) -> (r: bool)
        ensures
            r == self.image is Some,
    {
        self.image.is_some()
    }

    /// Decodes the header of the open image again; fails with `IoError`
    /// when no image is open or it is shorter than a header.
    pub fn read_d88_header(&mut self) -> (r: Result<D88_Header, D88Error>)
        ensures
            *final(self) == *old(self),
            old(self).image is None ==> r == Err::<D88_Header, D88Error>(D88Error::IoError),
            old(self).image matches Some(b) ==> {
                &&& b@.len() < HEADER_SIZE <==> r is Err
                &&& r is Err ==> r == Err::<D88_Header, D88Error>(D88Error::IoError)
                &&& r matches Ok(h) ==> h.decoded_from(b@)
            },
    {
        match &self.image {
            Some(b) => D88_Header::from_bytes(b.as_slice()),
            None => Err(D88Error::IoError),
        }
    }

    /// Sorts every track's sectors by sector number (logical order).
    pub fn sector_sort(&mut self)
        ensures
            final(self).image == old(self).image,
            tracks_sorted_from(final(self).disk, old(self).disk, false),
    {
        self.sort_tracks(false);
    }

    /// Sorts every track's sectors by file offset (physical order).
    pub fn file_offset_sort(&mut self)
        ensures
            final(self).image == old(self).image,
            tracks_sorted_from(final(self).disk, old(self).disk, true),
    {
        self.sort_tracks(true);
    }

    fn sort_tracks(&mut self, by_offset: bool)
        ensures
            final(self).image == old(self).image,
            tracks_sorted_from(final(self).disk, old(self).disk, by_offset),
    {
        let ghost before = self.disk;
        let n = self.disk.track_tbl.len();
        let mut i: usize = 0;
        while i < n
            invariant
                n == before.track_tbl@.len(),
                self.image == old(self).image,
                before == old(self).disk,
                self.disk.header == before.header,
                self.disk.track_tbl@.len() == n,
                i <= n,
                forall|j: int|
                    0 <= j < i ==> {
                        &&& (#[trigger] self.disk.track_tbl@[j]).number_of_sector == before.track_tbl@[j].number_of_sector
                        &&& stable_sort_of(self.disk.track_tbl@[j].sector_tbl@, before.track_tbl@[j].sector_tbl@, by_offset)
                    },
                forall|j: int| i <= j < n ==> #[trigger] self.disk.track_tbl@[j] == before.track_tbl@[j],
            decreases n - i,
        {
            if by_offset {
                self.disk.track_tbl[i].file_offset_sort();
            } else {
                self.disk.track_tbl[i].sector_sort();
            }
            i = i + 1;
        }
    }

    /// The sector at (`track`, `side`, `sector`), all counted from zero:
    /// the `sector`-th sector, in the current order, of the disk's
    /// `track * 2 + side`-th track. Fails when `side` is not 0 or 1 or
    /// either position is out of range.
    pub fn get_sector(&self, track: usize, side: usize, sector: usize) -> (r: Result<&Sector, ()>)
        ensures
            r is Ok <==> lookup(self.disk, track as int, side as int, sector as int) is Some,
            r matches Ok(s) ==> lookup(self.disk, track as int, side as int, sector as int) == Some(*s),
    {
        let len = self.disk.track_tbl.len();
        if side >= 2 || track >= len || len - track <= track + side {
            return Err(());
        }
        let t = &self.disk.track_tbl[track * 2 + side];
        if sector >= t.sector_tbl.len() {
            return Err(());
        }
        Ok(&t.sector_tbl[sector])
    }
}

/// After the logical-order sort, the sector at track 0, side 0, sector 0 is
/// the one with the least sector number on that physical track.
pub proof fn lemma_first_sector_after_sort_is_least(before: Disk, after: Disk)
    requires
        tracks_sorted_from(after, before, false),
        lookup(after, 0, 0, 0) is Some,
    ensures
        before.track_tbl@[0].sector_tbl@.contains(lookup(after, 0, 0, 0)->0),
        forall|j: int|
            0 <= j < before.track_tbl@[0].sector_tbl@.len() ==> (lookup(after, 0, 0, 0)->0).header.sec
                <= (#[trigger] before.track_tbl@[0].sector_tbl@[j]).header.sec,
{
    lemma_sector_sort_puts_least_first(before.track_tbl@[0].sector_tbl@, after.track_tbl@[0].sector_tbl@);
}

} // verus!
