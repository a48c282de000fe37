use vstd::prelude::*;

use crate::error::D88Error;
use crate::format::{D88_Header, HEADER_SIZE, MAX_SECTOR};
use crate::text::{dec_digits, decimal, enclose};
use crate::track::{sector_pos, track_bytes, track_fits, Track};

verus! {

/// Table entry `k` points at a track that does not decode.
pub open spec fn entry_fails(b: Seq<u8>, tbl: Seq<u32>, k: int) -> bool {
    tbl[k] != 0 && !track_fits(b, tbl[k] as int)
}

/// The build has stopped before entry `k`: an earlier non-zero entry failed.
pub open spec fn scan_stopped(b: Seq<u8>, tbl: Seq<u32>, k: nat) -> bool
    decreases k,
{
    if k == 0 {
        false
    } else {
        scan_stopped(b, tbl, (k - 1) as nat) || entry_fails(b, tbl, k - 1)
    }
}

/// Offsets of the tracks built from the first `k` table entries, in table
/// order: zero entries are skipped, and nothing is taken after the first
/// entry whose track does not decode.
pub open spec fn scan_bases(b: Seq<u8>, tbl: Seq<u32>, k: nat) -> Seq<u32>
    decreases k,
{
    if k == 0 {
        seq![]
    } else {
        let prev = scan_bases(b, tbl, (k - 1) as nat);
        if !scan_stopped(b, tbl, (k - 1) as nat) && tbl[k - 1] != 0 && track_fits(b, tbl[k - 1] as int) {
            prev.push(tbl[k - 1])
        } else {
            prev
        }
    }
}

/// Offsets of all the tracks that the build takes from the table.
pub open spec fn track_bases(b: Seq<u8>, tbl: Seq<u32>) -> Seq<u32> {
    scan_bases(b, tbl, MAX_SECTOR as nat)
}

/// Bytes taken by all the tracks at `bases`.
pub open spec fn total_bytes(b: Seq<u8>, bases: Seq<u32>) -> int
    decreases bases.len(),
{
    if bases.len() == 0 {
        0
    } else {
        total_bytes(b, bases.drop_last()) + track_bytes(b, bases.last() as int)
    }
}

/// `x`, or `usize::MAX` where `x` is larger.
pub open spec fn saturate(x: int) -> int {
    if x > usize::MAX {
        usize::MAX as int
    } else {
        x
    }
}

/// What `String::from_utf8_lossy` makes of `b`.
pub uninterp spec fn utf8_lossy(b: Seq<u8>) -> Seq<char>;

/// Relies on `String::from_utf8_lossy`: the text that `b` encodes in UTF-8,
/// each invalid sequence replaced by U+FFFD; it depends on `b` alone.
#[verifier::external_body]
fn lossy_text(b: &[u8]) -> (r: String)
    ensures
        r@ == utf8_lossy(b@),
{
    String::from_utf8_lossy(b).into_owned()
}

/// The bytes of a name field before its first zero byte, or all of them.
pub open spec fn name_bytes(name: Seq<u8>) -> Seq<u8>
    decreases name.len(),
{
    if name.len() == 0 || name[0] == 0 {
        seq![]
    } else {
        seq![name[0]] + name_bytes(name.drop_first())
    }
}

proof fn lemma_name_bytes(name: Seq<u8>, n: int)
    requires
        0 <= n <= name.len(),
        forall|j: int| 0 <= j < n ==> #[trigger] name[j] != 0,
        n == name.len() || name[n] == 0,
    ensures
        name_bytes(name) == name.subrange(0, n),
    decreases n,
{
    if n > 0 {
        lemma_name_bytes(name.drop_first(), n - 1);
        assert(name_bytes(name) =~= name.subrange(0, n));
    } else {
        assert(name_bytes(name) =~= name.subrange(0, n));
    }
}

/// Label of a write-protect byte.
pub open spec fn protect_text(wp: u8) -> Seq<char> {
    if wp == 0x10 {
        "Protected"@
    } else if wp == 0x00 {
        "No Protected"@
    } else {
        "!! Illegal !!"@
    }
}

/// Label of a disk-type byte.
pub open spec fn disk_type_text(t: u8) -> Seq<char> {
    if t == 0x00 {
        "2D"@
    } else if t == 0x10 {
        "2DD"@
    } else if t == 0x20 {
        "2HD"@
    } else {
        "??"@
    }
}

pub fn protect_label(wp: u8) -> (r: &'static str)
    ensures
        r@ == protect_text(wp),
{
    match wp {
        0x10 => "Protected",
        0x00 => "No Protected",
        _ => "!! Illegal !!",
    }
}

pub fn disk_type_label(t: u8) -> (r: &'static str)
    ensures
        r@ == disk_type_text(t),
{
    match t {
        0x00 => "2D",
        0x10 => "2DD",
        0x20 => "2HD",
        _ => "??",
    }
}

/// A decoded disk image: its header and its tracks, in table order.
#[derive(Debug, Default)]
pub struct Disk {
    pub header: D88_Header,
    pub track_tbl: Vec<Track>,
}

impl Disk {
    /// The tracks are exactly those the header's table yields on `b`.
    pub open spec fn tracks_decoded_from(&self, b: Seq<u8>) -> bool {
        let bases = track_bases(b, self.header.track_tbl@);
        &&& self.track_tbl@.len() == bases.len()
        &&& forall|i: int|
            0 <= i < bases.len() ==> #[trigger] self.track_tbl@[i].decoded_from(b, bases[i] as int)
    }

    /// `self` is the disk stored in `b`.
    pub open spec fn decoded_from(&self, b: Seq<u8>) -> bool {
        &&& self.header.decoded_from(b)
        &&& self.tracks_decoded_from(b)
    }

    /// The disk name: the name field up to its first zero byte, decoded
    /// leniently as UTF-8.
    pub fn get_disk_name(&self) -> (r: String)
        ensures
            r@ == "Name("@ + utf8_lossy(name_bytes(self.header.disk_name@)) + ")"@,
    {
        let name = &self.header.disk_name;
        let mut n: usize = 0;
        while n < name.len() && name[n] != 0
            invariant
                n <= name@.len(),
                forall|j: int| 0 <= j < n ==> #[trigger] name@[j] != 0,
            decreases name@.len() - n,
        {
            n = n + 1;
        }
        proof {
            lemma_name_bytes(name@, n as int);
        }
        let text = lossy_text(crate::format::copy_bytes(name.as_slice(), 0, n).as_slice());
        enclose("Name(", text.as_str(), ")")
    }

    pub fn get_disk_write_protect(&self) -> (r: String)
        ensures
            r@ == "("@ + protect_text(self.header.write_protect) + ")"@,
    {
        enclose("(", protect_label(self.header.write_protect), ")")
    }

    pub fn get_disk_type(&self) -> (r: String)
        ensures
            r@ == "Type("@ + disk_type_text(self.header.disk_type) + " Disk)"@,
    {
        enclose("Type(", disk_type_label(self.header.disk_type), " Disk)")
    }

    pub fn get_disk_size(&self) -> (r: String)
        ensures
            r@ == "DiskSize("@ + dec_digits(self.header.disk_size as nat) + " byte)"@,
    {
        enclose("DiskSize(", decimal(self.header.disk_size as u64).as_str(), " byte)")
    }

    /// A disk with an all-zero header and no tracks.
    pub fn new() -> (r: Disk)
        ensures
            r.header.wf(),
            r.track_tbl@.len() == 0,
    {
        Disk { header: D88_Header::new(), track_tbl: Vec::new() }
    }

    /// Decodes the tracks that the header's offset table points at.
    ///
    /// Entries are taken in table order; zero entries are skipped, and the
    /// first entry whose track does not decode ends the build: later entries
    /// are not tried. Fails with `FormatError` when no track decodes.
    /// Otherwise returns the bytes taken by all the tracks (at most
    /// `usize::MAX`).
    pub fn preset_track(&mut self, image: &[u8]) -> (r: Result<usize, D88Error>)
        requires
            old(self).header.wf(),
        ensures
            final(self).header == old(self).header,
            final(self).tracks_decoded_from(image@),
            r is Err <==> final(self).track_tbl@.len() == 0,
            r is Err ==> r == Err::<usize, D88Error>(D88Error::FormatError),
            r matches Ok(n) ==> n == saturate(
                total_bytes(image@, track_bases(image@, old(self).header.track_tbl@)),
            ),
    {
        let ghost b = image@;
        let ghost tbl = self.header.track_tbl@;
        let mut tracks: Vec<Track> = Vec::new();
        let mut total: usize = 0;
        let mut stopped = false;
        let mut k: usize = 0;
        while k < 164
            invariant
                b == image@,
                tbl == self.header.track_tbl@,
                tbl.len() == MAX_SECTOR,
                k <= MAX_SECTOR,
                stopped == scan_stopped(b, tbl, k as nat),
                tracks@.len() == scan_bases(b, tbl, k as nat).len(),
                forall|i: int|
                    0 <= i < tracks@.len() ==> #[trigger] tracks@[i].decoded_from(
                        b,
                        scan_bases(b, tbl, k as nat)[i] as int,
                    ),
                total == saturate(total_bytes(b, scan_bases(b, tbl, k as nat))),
            decreases MAX_SECTOR - k,
        {
            let ghost prev = scan_bases(b, tbl, k as nat);
            let entry = self.header.track_tbl[k];
            if !stopped && entry != 0 {
                let mut track = Track::new();
                match track.preset(image, entry as u64) {
                    Ok(n) => {
                        assert(prev.push(entry).drop_last() =~= prev);
                        total = total.saturating_add(n);
                        tracks.push(track);
                    },
                    Err(_) => {
                        stopped = true;
                    },
                }
            }
            k = k + 1;
        }
        self.track_tbl = tracks;
        if self.track_tbl.len() == 0 {
            Err(D88Error::FormatError)
        } else {
            Ok(total)
        }
    }

    /// Decodes a whole image: the header, then the tracks as `preset_track`
    /// does. An image shorter than the header fails with `IoError` and leaves
    /// no track.
    pub fn preset(&mut self, image: &[u8]) -> (r: Result<usize, D88Error>)
        ensures
            image@.len() < HEADER_SIZE ==> r == Err::<usize, D88Error>(D88Error::IoError),
            image@.len() < HEADER_SIZE ==> final(self).track_tbl@.len() == 0,
            image@.len() >= HEADER_SIZE ==> {
                &&& final(self).decoded_from(image@)
                &&& r is Err <==> final(self).track_tbl@.len() == 0
                &&& r is Err ==> r == Err::<usize, D88Error>(D88Error::FormatError)
                &&& r matches Ok(n) ==> n == saturate(
                    total_bytes(image@, track_bases(image@, final(self).header.track_tbl@)),
                )
            },
    {
        match D88_Header::from_bytes(image) {
            Ok(h) => {
                self.header = h;
                self.preset_track(image)
            },
            Err(e) => {
                self.track_tbl = Vec::new();
                Err(e)
            },
        }
    }
}


/// Number of non-zero entries among the first `k` of the table.
pub open spec fn nonzero_entries(tbl: Seq<u32>, k: nat) -> nat
    decreases k,
{
    if k == 0 {
        0
    } else {
        nonzero_entries(tbl, (k - 1) as nat) + if tbl[k - 1] != 0 {
            1nat
        } else {
            0nat
        }
    }
}

/// The tracks taken from the first `j` entries stand, in the same order, at
/// the front of those taken from the first `m`.
proof fn lemma_scan_prefix(b: Seq<u8>, tbl: Seq<u32>, j: nat, m: nat)
    requires
        j <= m,
    ensures
        scan_bases(b, tbl, j).len() <= scan_bases(b, tbl, m).len(),
        forall|i: int|
            0 <= i < scan_bases(b, tbl, j).len() ==> #[trigger] scan_bases(b, tbl, m)[i]
                == scan_bases(b, tbl, j)[i],
    decreases m - j,
{
    if j < m {
        lemma_scan_prefix(b, tbl, j, (m - 1) as nat);
    }
}

/// A non-zero table entry that the build reaches, and whose track decodes,
/// yields a track whose first sector record starts exactly at that entry's
/// offset.
pub proof fn lemma_track_starts_at_its_entry(d: Disk, b: Seq<u8>, k: int)
    requires
        d.decoded_from(b),
        0 <= k < MAX_SECTOR,
        d.header.track_tbl@[k] != 0,
        track_fits(b, d.header.track_tbl@[k] as int),
        !scan_stopped(b, d.header.track_tbl@, k as nat),
    ensures
        exists|i: int|
            0 <= i < d.track_tbl@.len() && (#[trigger] d.track_tbl@[i]).sector_tbl@[0].decoded_from(
                b,
                d.header.track_tbl@[k] as int,
            ),
{
    let tbl = d.header.track_tbl@;
    let entry = tbl[k];
    lemma_scan_prefix(b, tbl, (k + 1) as nat, MAX_SECTOR as nat);
    let i = scan_bases(b, tbl, k as nat).len() as int;
    assert(scan_bases(b, tbl, (k + 1) as nat) == scan_bases(b, tbl, k as nat).push(entry));
    assert(track_bases(b, tbl)[i] == entry);
    assert(d.track_tbl@[i].decoded_from(b, entry as int));
    let t = d.track_tbl@[i];
    assert(t.sector_tbl@.len() >= 1);
    assert(t.sector_tbl@[0].decoded_from(b, sector_pos(b, entry as int, 0int as nat)));
}

proof fn lemma_scan_counts_nonzero(b: Seq<u8>, tbl: Seq<u32>, k: nat)
    requires
        k <= tbl.len(),
        forall|j: int| 0 <= j < tbl.len() && #[trigger] tbl[j] != 0 ==> track_fits(b, tbl[j] as int),
    ensures
        !scan_stopped(b, tbl, k),
        scan_bases(b, tbl, k).len() == nonzero_entries(tbl, k),
    decreases k,
{
    if k > 0 {
        lemma_scan_counts_nonzero(b, tbl, (k - 1) as nat);
    }
}

/// When every non-zero table entry points at a track that decodes, the disk
/// has exactly one track per non-zero entry: zero entries leave no gap.
pub proof fn lemma_tracks_are_compacted(d: Disk, b: Seq<u8>)
    requires
        d.decoded_from(b),
        forall|k: int|
            0 <= k < MAX_SECTOR && #[trigger] d.header.track_tbl@[k] != 0 ==> track_fits(
                b,
                d.header.track_tbl@[k] as int,
            ),
    ensures
        d.track_tbl@.len() == nonzero_entries(d.header.track_tbl@, MAX_SECTOR as nat),
{
    lemma_scan_counts_nonzero(b, d.header.track_tbl@, MAX_SECTOR as nat);
}

} // verus!
