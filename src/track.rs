use vstd::prelude::*;

use crate::error::D88Error;
use crate::format::{le16, MAX_SECTOR, SECTOR_HEADER_SIZE};
use crate::sector::{footprint, sector_fits, Sector};

verus! {

/// Where the `i`-th sector record of the track starting at `base` begins:
/// each record starts right after the previous one.
pub open spec fn sector_pos(b: Seq<u8>, base: int, i: nat) -> int
    decreases i,
{
    if i == 0 {
        base
    } else {
        let p = sector_pos(b, base, (i - 1) as nat);
        p + footprint(b, p)
    }
}

/// Sector count declared by the first sector of the track at `base`.
pub open spec fn track_target(b: Seq<u8>, base: int) -> int {
    le16(b, base + 4)
}

/// Number of sectors read for the track at `base`: the declared count, at
/// least one and at most `MAX_SECTOR`.
pub open spec fn track_len(b: Seq<u8>, base: int) -> nat {
    let t = track_target(b, base);
    if t <= 1 {
        1
    } else if t >= MAX_SECTOR {
        MAX_SECTOR as nat
    } else {
        t as nat
    }
}

/// The track at `base` decodes: `base` is a real offset and every sector
/// record up to the declared count lies inside `b`.
pub open spec fn track_fits(b: Seq<u8>, base: int) -> bool {
    &&& base != 0
    &&& forall|i: nat| i < track_len(b, base) ==> sector_fits(b, #[trigger] sector_pos(b, base, i))
}

/// Bytes taken by the decoded track at `base`.
pub open spec fn track_bytes(b: Seq<u8>, base: int) -> int {
    sector_pos(b, base, track_len(b, base)) - base
}

/// Sector records follow one another: later ones start further on.
pub proof fn lemma_sector_pos_grows(b: Seq<u8>, base: int, i: nat, j: nat)
    requires
        i < j,
        forall|k: nat| k < j ==> sector_fits(b, #[trigger] sector_pos(b, base, k)),
    ensures
        sector_pos(b, base, i) + SECTOR_HEADER_SIZE <= sector_pos(b, base, j),
    decreases j - i,
{
    assert(sector_fits(b, sector_pos(b, base, i)));
    if i + 1 < j {
        lemma_sector_pos_grows(b, base, i + 1, j);
    }
}

/// The key a sort orders sectors by: the file offset, or the sector number.
pub open spec fn sort_key(s: Sector, by_offset: bool) -> int {
    if by_offset {
        s.offset as int
    } else {
        s.header.sec as int
    }
}

/// `out[i] == inp[p[i]]` for every `i`, where `p` is a bijection on the indices.
pub open spec fn is_permutation(out: Seq<Sector>, inp: Seq<Sector>, p: Seq<int>) -> bool {
    &&& out.len() == inp.len()
    &&& p.len() == inp.len()
    &&& forall|i: int| 0 <= i < p.len() ==> 0 <= #[trigger] p[i] < inp.len() && out[i] == inp[p[i]]
    &&& forall|i: int, j: int| 0 <= i < j < p.len() ==> #[trigger] p[i] != #[trigger] p[j]
    &&& forall|k: int| 0 <= k < inp.len() ==> #[trigger] p.contains(k)
}

/// `s` is in ascending order of the key.
pub open spec fn sorted_by(s: Seq<Sector>, by_offset: bool) -> bool {
    forall|i: int, j: int|
        0 <= i < j < s.len() ==> sort_key(#[trigger] s[i], by_offset) <= sort_key(
            #[trigger] s[j],
            by_offset,
        )
}

/// Entries of `out` with equal keys come in the order of their source indices `p`.
pub open spec fn keeps_ties(out: Seq<Sector>, p: Seq<int>, by_offset: bool) -> bool {
    forall|i: int, j: int|
        0 <= i < j < out.len() && sort_key(#[trigger] out[i], by_offset) == sort_key(
            #[trigger] out[j],
            by_offset,
        ) ==> p[i] < p[j]
}

/// `out` is the stable sort of `inp` by the key: sorted, and a rearrangement
/// of `inp` that keeps entries with equal keys in their earlier order.
pub open spec fn stable_sort_of(out: Seq<Sector>, inp: Seq<Sector>, by_offset: bool) -> bool {
    &&& sorted_by(out, by_offset)
    &&& exists|p: Seq<int>| #[trigger] is_permutation(out, inp, p) && keeps_ties(out, p, by_offset)
}

fn key_of(s: &Sector, by_offset: bool) -> (k: u64)
    ensures
        k == sort_key(*s, by_offset),
{
    if by_offset {
        s.offset
    } else {
        s.header.sec as u64
    }
}

/// Index of the first entry of `v` with the least key.
fn first_min(v: &Vec<Sector>, by_offset: bool) -> (m: usize)
    requires
        v@.len() > 0,
    ensures
        m < v@.len(),
        forall|t: int| 0 <= t < v@.len() ==> sort_key(v@[m as int], by_offset) <= sort_key(#[trigger] v@[t], by_offset),
        forall|t: int| 0 <= t < m ==> sort_key(v@[m as int], by_offset) < sort_key(#[trigger] v@[t], by_offset),
{
    let mut m: usize = 0;
    let mut best = key_of(&v[0], by_offset);
    let mut j: usize = 1;
    while j < v.len()
        invariant
            m < j <= v@.len(),
            best == sort_key(v@[m as int], by_offset),
            forall|t: int| 0 <= t < j ==> sort_key(v@[m as int], by_offset) <= sort_key(#[trigger] v@[t], by_offset),
            forall|t: int| 0 <= t < m ==> sort_key(v@[m as int], by_offset) < sort_key(#[trigger] v@[t], by_offset),
        decreases v@.len() - j,
    {
        let k = key_of(&v[j], by_offset);
        if k < best {
            m = j;
            best = k;
        }
        j = j + 1;
    }
    m
}

/// Stable selection sort of `v` by the key.
fn sort_sectors(v: &mut Vec<Sector>, by_offset: bool)
    ensures
        stable_sort_of(final(v)@, old(v)@, by_offset),
{
    let ghost inp = v@;
    let ghost n = inp.len() as int;
    let mut out: Vec<Sector> = Vec::new();
    let ghost mut p: Seq<int> = Seq::empty();
    let ghost mut ridx: Seq<int> = Seq::new(inp.len(), |i: int| i);
    assert forall|k: int| 0 <= k < n implies #[trigger] p.contains(k) || ridx.contains(k) by {
        assert(ridx[k] == k);
    }
    while v.len() > 0
        invariant
            inp.len() == n,
            out@.len() + v@.len() == n,
            p.len() == out@.len(),
            ridx.len() == v@.len(),
            forall|i: int| 0 <= i < out@.len() ==> 0 <= #[trigger] p[i] < n && out@[i] == inp[p[i]],
            forall|j: int| 0 <= j < v@.len() ==> 0 <= #[trigger] ridx[j] < n && v@[j] == inp[ridx[j]],
            forall|i: int, j: int| 0 <= i < j < p.len() ==> #[trigger] p[i] != #[trigger] p[j],
            forall|i: int, j: int| 0 <= i < p.len() && 0 <= j < ridx.len() ==> #[trigger] p[i] != #[trigger] ridx[j],
            forall|i: int, j: int| 0 <= i < j < ridx.len() ==> #[trigger] ridx[i] < #[trigger] ridx[j],
            forall|k: int| 0 <= k < n ==> #[trigger] p.contains(k) || ridx.contains(k),
            sorted_by(out@, by_offset),
            keeps_ties(out@, p, by_offset),
            forall|i: int, j: int| 0 <= i < out@.len() && 0 <= j < v@.len() ==>
                sort_key(#[trigger] out@[i], by_offset) <= sort_key(#[trigger] v@[j], by_offset),
            forall|i: int, j: int| 0 <= i < out@.len() && 0 <= j < v@.len() && sort_key(#[trigger] out@[i], by_offset)
                == sort_key(#[trigger] v@[j], by_offset) ==> p[i] < ridx[j],
        decreases v@.len(),
    {
        let m = first_min(v, by_offset);
        let ghost old_v = v@;
        let ghost old_out = out@;
        let ghost old_p = p;
        let ghost old_ridx = ridx;
        let s = v.remove(m);
        out.push(s);
        proof {
            p = old_p.push(old_ridx[m as int]);
            ridx = old_ridx.remove(m as int);
            assert forall|j: int| 0 <= j < v@.len() implies (j < m ==> #[trigger] v@[j] == old_v[j] && ridx[j] == old_ridx[j])
                && (j >= m ==> v@[j] == old_v[j + 1] && ridx[j] == old_ridx[j + 1]) by {}
            assert forall|k: int| 0 <= k < n implies #[trigger] p.contains(k) || ridx.contains(k) by {
                assert(old_p.contains(k) || old_ridx.contains(k));
                if old_p.contains(k) {
                    let i = choose|i: int| 0 <= i < old_p.len() && #[trigger] old_p[i] == k;
                    assert(p[i] == k);
                } else {
                    let j = choose|j: int| 0 <= j < old_ridx.len() && #[trigger] old_ridx[j] == k;
                    if j == m {
                        assert(p[old_p.len() as int] == k);
                    } else if j < m {
                        assert(ridx[j] == k);
                    } else {
                        assert(ridx[j - 1] == k);
                    }
                }
            }
            assert forall|i: int, j: int| 0 <= i < j < out@.len() && sort_key(#[trigger] out@[i], by_offset)
                == sort_key(#[trigger] out@[j], by_offset) implies p[i] < p[j] by {
                if j == old_out.len() {
                    assert(out@[j] == old_v[m as int]);
                }
            }
            assert forall|i: int, j: int| 0 <= i < j < out@.len() implies sort_key(#[trigger] out@[i], by_offset)
                <= sort_key(#[trigger] out@[j], by_offset) by {
                if j == old_out.len() {
                    assert(out@[j] == old_v[m as int]);
                }
            }
        }
    }
    proof {
        assert(is_permutation(out@, inp, p));
    }
    *v = out;
}

/// A decoded track: the sector count declared by its first sector and its
/// sectors in their current order.
#[derive(Debug, Default)]
pub struct Track {
    pub number_of_sector: u16,
    pub sector_tbl: Vec<Sector>,
}

impl Track {
    /// `self` is the track whose first sector record starts at `base` in `b`,
    /// with its sectors in file order.
    pub open spec fn decoded_from(&self, b: Seq<u8>, base: int) -> bool {
        &&& self.number_of_sector == track_target(b, base)
        &&& self.sector_tbl@.len() == track_len(b, base)
        &&& forall|i: int|
            0 <= i < self.sector_tbl@.len() ==> #[trigger] self.sector_tbl@[i].decoded_from(
                b,
                sector_pos(b, base, i as nat),
            )
    }

    /// The sectors stand in strictly ascending order of their offsets.
    pub open spec fn in_file_order(&self) -> bool {
        forall|i: int, j: int|
            0 <= i < j < self.sector_tbl@.len() ==> #[trigger] self.sector_tbl@[i].offset
                < #[trigger] self.sector_tbl@[j].offset
    }

    /// Sorts the sectors by sector number, keeping sectors with equal
    /// numbers in their earlier order.
    pub fn sector_sort(&mut self)
        ensures
            final(self).number_of_sector == old(self).number_of_sector,
            stable_sort_of(final(self).sector_tbl@, old(self).sector_tbl@, false),
    {
        sort_sectors(&mut self.sector_tbl, false);
    }

    /// Sorts the sectors by file offset, keeping sectors with equal offsets
    /// in their earlier order.
    pub fn file_offset_sort(&mut self)
        ensures
            final(self).number_of_sector == old(self).number_of_sector,
            stable_sort_of(final(self).sector_tbl@, old(self).sector_tbl@, true),
    {
        sort_sectors(&mut self.sector_tbl, true);
    }

    /// An empty track.
    pub fn new() -> (r: Track)
        ensures
            r.number_of_sector == 0,
            r.sector_tbl@.len() == 0,
    {
        Track { number_of_sector: 0, sector_tbl: Vec::new() }
    }

    /// Decodes the track whose first sector record starts at `offset`.
    ///
    /// Sectors are read one after another until as many have been read as
    /// the first one declares, or `MAX_SECTOR` of them. Fails with
    /// `FormatError`, leaving `self` as it was, when `offset` is zero or a
    /// sector before that count does not decode. On success returns the bytes
    /// taken by all the sectors read.
    pub fn preset(&mut self, image: &[u8], offset: u64) -> (r: Result<usize, D88Error>)
        ensures
            track_fits(image@, offset as int) <==> r is Ok,
            r is Err ==> r == Err::<usize, D88Error>(D88Error::FormatError) && *final(self)
                == *old(self),
            r matches Ok(n) ==> {
                &&& final(self).decoded_from(image@, offset as int)
                &&& final(self).in_file_order()
                &&& n == track_bytes(image@, offset as int)
            },
    {
        if offset == 0 {
            return Err(D88Error::FormatError);
        }
        let ghost b = image@;
        let ghost base = offset as int;
        let len = image.len();
        let mut sectors: Vec<Sector> = Vec::new();
        let mut pos: u64 = offset;
        let mut size: usize = 0;
        let mut target: u16 = 0;
        let mut count: u16 = 0;
        loop
            invariant
                b == image@,
                len == b.len(),
                *self == *old(self),
                base == offset,
                base != 0,
                count == sectors@.len(),
                count < MAX_SECTOR,
                pos == sector_pos(b, base, count as nat),
                size == pos - base,
                count > 0 ==> pos <= b.len(),
                count > 0 ==> target == track_target(b, base),
                count > 0 ==> count < track_len(b, base),
                forall|i: nat| i < count ==> sector_fits(b, #[trigger] sector_pos(b, base, i)),
                forall|i: int|
                    0 <= i < count ==> #[trigger] sectors@[i].decoded_from(
                        b,
                        sector_pos(b, base, i as nat),
                    ),
            decreases MAX_SECTOR - count,
        {
            let mut sector = Sector::new();
            let n = match sector.preset(image, pos) {
                Ok(n) => n,
                Err(_) => return Err(D88Error::FormatError),
            };
            if count == 0 {
                target = sector.header.number_of_sec;
            }
            sectors.push(sector);
            count = count + 1;
            size = size + n as usize;
            if count >= target || count >= MAX_SECTOR {
                assert(count == track_len(b, base));
                assert forall|i: int, j: int| 0 <= i < j < sectors@.len() implies #[trigger] sectors@[i].offset
                    < #[trigger] sectors@[j].offset by {
                    lemma_sector_pos_grows(b, base, i as nat, j as nat);
                    assert(sectors@[i].decoded_from(b, sector_pos(b, base, i as nat)));
                    assert(sectors@[j].decoded_from(b, sector_pos(b, base, j as nat)));
                }
                self.number_of_sector = target;
                self.sector_tbl = sectors;
                return Ok(size);
            }
            pos = pos + n;
        }
    }
}


/// A strictly increasing map from `0..n` into `0..n` is the identity.
proof fn lemma_increasing_index_map_is_identity(q: Seq<int>, i: int)
    requires
        0 <= i < q.len(),
        forall|k: int| 0 <= k < q.len() ==> 0 <= #[trigger] q[k] < q.len(),
        forall|a: int, c: int| 0 <= a < c < q.len() ==> #[trigger] q[a] < #[trigger] q[c],
    ensures
        q[i] == i,
{
    lemma_index_map_lower(q, i);
    lemma_index_map_upper(q, i);
}

proof fn lemma_index_map_lower(q: Seq<int>, i: int)
    requires
        0 <= i < q.len(),
        forall|k: int| 0 <= k < q.len() ==> 0 <= #[trigger] q[k] < q.len(),
        forall|a: int, c: int| 0 <= a < c < q.len() ==> #[trigger] q[a] < #[trigger] q[c],
    ensures
        q[i] >= i,
    decreases i,
{
    if i > 0 {
        lemma_index_map_lower(q, i - 1);
        assert(q[i - 1] < q[i]);
    }
}

proof fn lemma_index_map_upper(q: Seq<int>, i: int)
    requires
        0 <= i < q.len(),
        forall|k: int| 0 <= k < q.len() ==> 0 <= #[trigger] q[k] < q.len(),
        forall|a: int, c: int| 0 <= a < c < q.len() ==> #[trigger] q[a] < #[trigger] q[c],
    ensures
        q[i] <= i,
    decreases q.len() - i,
{
    if i + 1 < q.len() {
        lemma_index_map_upper(q, i + 1);
        assert(q[i] < q[i + 1]);
    }
}

/// Sorting a track that is in file order by sector number, and then by file
/// offset, gives back the order the track had.
pub proof fn lemma_sector_then_offset_sort_restores(before: Track, by_sector: Track, after: Track)
    requires
        before.in_file_order(),
        stable_sort_of(by_sector.sector_tbl@, before.sector_tbl@, false),
        stable_sort_of(after.sector_tbl@, by_sector.sector_tbl@, true),
    ensures
        after.sector_tbl@ == before.sector_tbl@,
{
    let t0 = before.sector_tbl@;
    let t1 = by_sector.sector_tbl@;
    let t2 = after.sector_tbl@;
    let by_sec_perm = choose|p: Seq<int>| #[trigger] is_permutation(t1, t0, p) && keeps_ties(t1, p, false);
    let by_off_perm = choose|p: Seq<int>| #[trigger] is_permutation(t2, t1, p) && keeps_ties(t2, p, true);
    let q = Seq::new(t2.len(), |i: int| by_sec_perm[by_off_perm[i]]);
    assert forall|i: int| 0 <= i < q.len() implies 0 <= #[trigger] q[i] < q.len() && t2[i] == t0[q[i]] by {
        assert(0 <= by_off_perm[i] < t1.len());
    }
    assert forall|a: int, c: int| 0 <= a < c < q.len() implies #[trigger] q[a] < #[trigger] q[c] by {
        assert(by_off_perm[a] != by_off_perm[c]);
        assert(0 <= by_off_perm[a] < t1.len() && 0 <= by_off_perm[c] < t1.len());
        if by_off_perm[a] < by_off_perm[c] {
            assert(by_sec_perm[by_off_perm[a]] != by_sec_perm[by_off_perm[c]]);
        } else {
            assert(by_sec_perm[by_off_perm[c]] != by_sec_perm[by_off_perm[a]]);
        }
        assert(sort_key(t2[a], true) <= sort_key(t2[c], true));
        if q[a] > q[c] {
            assert(t0[q[c]].offset < t0[q[a]].offset);
        }
    }
    assert forall|i: int| 0 <= i < t2.len() implies #[trigger] t2[i] == t0[i] by {
        lemma_increasing_index_map_is_identity(q, i);
    }
    assert(t2 =~= t0);
}

/// After a sort by sector number the first sector has the least sector
/// number of the track, and is one of the track's sectors.
pub proof fn lemma_sector_sort_puts_least_first(before: Seq<Sector>, after: Seq<Sector>)
    requires
        stable_sort_of(after, before, false),
        after.len() > 0,
    ensures
        before.contains(after[0]),
        forall|j: int| 0 <= j < before.len() ==> after[0].header.sec <= (#[trigger] before[j]).header.sec,
{
    let p = choose|p: Seq<int>| #[trigger] is_permutation(after, before, p) && keeps_ties(after, p, false);
    assert(before[p[0]] == after[0]);
    assert forall|j: int| 0 <= j < before.len() implies after[0].header.sec <= (#[trigger] before[j]).header.sec by {
        assert(p.contains(j));
        let i = choose|i: int| 0 <= i < p.len() && p[i] == j;
        assert(after[i] == before[j]);
        if i > 0 {
            assert(sort_key(after[0], false) <= sort_key(after[i], false));
        }
    }
}

} // verus!
