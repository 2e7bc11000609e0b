use vstd::prelude::*;

use crate::pattern::match_at;
use crate::pattern::Pattern;
use crate::pattern::PatternByte;
use vstd::slice::slice_subrange;
use vstd::slice::slice_to_vec;

verus! {

/// A hit as the contracts speak of it: an absolute address and the bytes
/// that the window covered.
pub struct SpecHit {
    pub address: int,
    pub bytes: Seq<u8>,
}

/// A found occurrence: the absolute address of the match start and the
/// exact bytes read there, bytes under wildcard positions included.
#[derive(Debug, Clone)]
pub struct ScanResult {
    pub address: usize,
    pub matched_bytes: Vec<u8>,
}

impl View for ScanResult {
    type V = SpecHit;

    open spec fn view(&self) -> SpecHit {
        SpecHit { address: self.address as int, bytes: self.matched_bytes@ }
    }
}

/// What one region yielded when it was read: its start address and, when
/// the read succeeded, the bytes obtained (possibly fewer than the region
/// announced).  A failed read carries no bytes and is skipped silently.
pub struct RegionRead {
    pub start: usize,
    pub bytes: Option<Vec<u8>>,
}

/// A read region as the contracts speak of it.
pub struct SpecRegionRead {
    pub start: int,
    pub bytes: Option<Seq<u8>>,
}

impl View for RegionRead {
    type V = SpecRegionRead;

    open spec fn view(&self) -> SpecRegionRead {
        SpecRegionRead {
            start: self.start as int,
            bytes: match self.bytes {
                Some(b) => Some(b@),
                None => None,
            },
        }
    }
}

/// The results of a scan, viewed one by one.
pub open spec fn hits_of(rs: Seq<ScanResult>) -> Seq<SpecHit> {
    rs.map_values(|x: ScanResult| x@)
}

/// The read regions of a scan, viewed one by one.
pub open spec fn reads_of(rs: Seq<RegionRead>) -> Seq<SpecRegionRead> {
    rs.map_values(|x: RegionRead| x@)
}

/// The first offset that the sliding window no longer tests in a buffer:
/// the window stops short of the last position at which it would still fit.
pub open spec fn scan_end(pat: Seq<PatternByte>, data: Seq<u8>) -> int {
    if data.len() >= pat.len() {
        data.len() - pat.len()
    } else {
        0
    }
}

/// The hit that offset `off` of a buffer contributes.
pub open spec fn hit_at(pat: Seq<PatternByte>, start: int, data: Seq<u8>, off: int) -> SpecHit {
    SpecHit { address: start + off, bytes: data.subrange(off, off + pat.len()) }
}

/// The hits among offsets `[0, i)` of one buffer, in ascending offset order.
pub open spec fn hits_upto(pat: Seq<PatternByte>, start: int, data: Seq<u8>, i: int) -> Seq<
    SpecHit,
>
    decreases i,
{
    if i <= 0 {
        Seq::empty()
    } else if match_at(pat, data, i - 1) {
        hits_upto(pat, start, data, i - 1).push(hit_at(pat, start, data, i - 1))
    } else {
        hits_upto(pat, start, data, i - 1)
    }
}

/// Every hit the sliding window finds in one buffer.
pub open spec fn region_hits(pat: Seq<PatternByte>, start: int, data: Seq<u8>) -> Seq<SpecHit> {
    hits_upto(pat, start, data, scan_end(pat, data))
}

/// The hits one read region contributes: none when its read failed.
pub open spec fn read_hits(pat: Seq<PatternByte>, rd: SpecRegionRead) -> Seq<SpecHit> {
    match rd.bytes {
        Some(d) => region_hits(pat, rd.start, d),
        None => Seq::empty(),
    }
}

/// All hits of the first `j` regions, in region enumeration order.
pub open spec fn all_hits_upto(pat: Seq<PatternByte>, rds: Seq<SpecRegionRead>, j: int) -> Seq<
    SpecHit,
>
    decreases j,
{
    if j <= 0 {
        Seq::empty()
    } else {
        all_hits_upto(pat, rds, j - 1) + read_hits(pat, rds[j - 1])
    }
}

/// All hits of every region, in region enumeration order.
pub open spec fn all_hits(pat: Seq<PatternByte>, rds: Seq<SpecRegionRead>) -> Seq<SpecHit> {
    all_hits_upto(pat, rds, rds.len() as int)
}

/// The first `max` elements of `s`, or all of `s` when it is shorter.
pub open spec fn clamp(s: Seq<SpecHit>, max: int) -> Seq<SpecHit> {
    if s.len() <= max {
        s
    } else {
        s.take(max)
    }
}

/// What a whole scan returns: the hits of every region in enumeration
/// order, then ascending offsets within each region, cut off at `max`
/// results.
pub open spec fn scan_spec(pat: Seq<PatternByte>, rds: Seq<SpecRegionRead>, max: int) -> Seq<
    SpecHit,
> {
    clamp(all_hits(pat, rds), max)
}

proof fn lemma_hits_upto_prefix(pat: Seq<PatternByte>, start: int, data: Seq<u8>, i: int, k: int)
    requires
        0 <= i <= k,
    ensures
        hits_upto(pat, start, data, i).is_prefix_of(hits_upto(pat, start, data, k)),
    decreases k,
{
    if k > i {
        lemma_hits_upto_prefix(pat, start, data, i, k - 1);
        let a = hits_upto(pat, start, data, i);
        let c = hits_upto(pat, start, data, k);
        assert(a =~= c.subrange(0, a.len() as int));
    } else {
        let a = hits_upto(pat, start, data, i);
        assert(a =~= a.subrange(0, a.len() as int));
    }
}

proof fn lemma_all_hits_upto_prefix(pat: Seq<PatternByte>, rds: Seq<SpecRegionRead>, j: int, k: int)
    requires
        0 <= j <= k,
    ensures
        all_hits_upto(pat, rds, j).is_prefix_of(all_hits_upto(pat, rds, k)),
    decreases k,
{
    if k > j {
        lemma_all_hits_upto_prefix(pat, rds, j, k - 1);
        let a = all_hits_upto(pat, rds, j);
        let c = all_hits_upto(pat, rds, k);
        assert(a =~= c.subrange(0, a.len() as int));
    } else {
        let a = all_hits_upto(pat, rds, j);
        assert(a =~= a.subrange(0, a.len() as int));
    }
}

proof fn lemma_prefix_take(a: Seq<SpecHit>, b: Seq<SpecHit>, m: int)
    requires
        a.is_prefix_of(b),
        0 <= m <= a.len(),
    ensures
        a.take(m) == b.take(m),
{
    assert(a.take(m) =~= b.take(m));
}

/// Whether addresses strictly ascend through a hit list.
pub open spec fn hits_ascending(hs: Seq<SpecHit>) -> bool {
    forall|i: int, j: int|
        0 <= i < j < hs.len() ==> #[trigger] hs[i].address < #[trigger] hs[j].address
}

/// Whether the readable regions of a snapshot lie in ascending address
/// order without overlap, the order in which the platform enumeration
/// hands regions out.
pub open spec fn reads_ordered(rds: Seq<SpecRegionRead>) -> bool {
    forall|i: int, j: int|
        #![trigger rds[i], rds[j]]
        0 <= i < j < rds.len() ==> match (rds[i].bytes, rds[j].bytes) {
            (Some(a), Some(b)) => rds[i].start + a.len() <= rds[j].start,
            _ => true,
        }
}

/// Whether some readable region among the first `j` covers address `a`.
spec fn in_region_before(rds: Seq<SpecRegionRead>, j: int, a: int) -> bool {
    exists|m: int|
        0 <= m < j && ((#[trigger] rds[m]).bytes matches Some(d) && rds[m].start <= a
            < rds[m].start + d.len())
}

proof fn lemma_hits_upto_bounds(pat: Seq<PatternByte>, start: int, data: Seq<u8>, i: int)
    requires
        0 <= i,
    ensures
        hits_ascending(hits_upto(pat, start, data, i)),
        forall|k: int|
            0 <= k < hits_upto(pat, start, data, i).len() ==> start <= (#[trigger] hits_upto(
                pat,
                start,
                data,
                i,
            )[k]).address < start + i,
    decreases i,
{
    if i > 0 {
        lemma_hits_upto_bounds(pat, start, data, i - 1);
    }
}

proof fn lemma_all_hits_upto_ascending(pat: Seq<PatternByte>, rds: Seq<SpecRegionRead>, j: int)
    requires
        reads_ordered(rds),
        0 <= j <= rds.len(),
    ensures
        hits_ascending(all_hits_upto(pat, rds, j)),
        forall|k: int|
            0 <= k < all_hits_upto(pat, rds, j).len() ==> in_region_before(
                rds,
                j,
                (#[trigger] all_hits_upto(pat, rds, j)[k]).address,
            ),
    decreases j,
{
    if j > 0 {
        lemma_all_hits_upto_ascending(pat, rds, j - 1);
        let a = all_hits_upto(pat, rds, j - 1);
        let b = read_hits(pat, rds[j - 1]);
        let c = all_hits_upto(pat, rds, j);
        match rds[j - 1].bytes {
            Some(d) => {
                lemma_hits_upto_bounds(pat, rds[j - 1].start, d, scan_end(pat, d));
                assert(forall|k: int|
                    0 <= k < b.len() ==> rds[j - 1].start <= (#[trigger] b[k]).address < rds[j
                        - 1].start + d.len());
            },
            None => {},
        }
        assert(forall|k: int| 0 <= k < a.len() ==> c[k] == a[k]);
        assert(forall|k: int| a.len() <= k < c.len() ==> c[k] == b[k - a.len()]);
        assert forall|k: int| 0 <= k < c.len() implies in_region_before(
            rds,
            j,
            (#[trigger] c[k]).address,
        ) by {
            if k < a.len() {
                let m = choose|m: int|
                    0 <= m < j - 1 && ((#[trigger] rds[m]).bytes matches Some(d) && rds[m].start
                        <= a[k].address < rds[m].start + d.len());
                assert(0 <= m < j && (rds[m].bytes matches Some(d) && rds[m].start <= c[k].address
                    < rds[m].start + d.len()));
            } else {
                assert(rds[j - 1].bytes matches Some(d) && rds[j - 1].start <= c[k].address < rds[j
                    - 1].start + d.len());
            }
        }
        assert forall|p: int, q: int| 0 <= p < q < c.len() implies (#[trigger] c[p]).address < (
        #[trigger] c[q]).address by {
            if q < a.len() {
            } else if p >= a.len() {
            } else {
                let m = choose|m: int|
                    0 <= m < j - 1 && ((#[trigger] rds[m]).bytes matches Some(d) && rds[m].start
                        <= a[p].address < rds[m].start + d.len());
                assert(rds[m].bytes matches Some(dm) && rds[j - 1].bytes matches Some(dj)
                    ==> rds[m].start + dm.len() <= rds[j - 1].start);
                assert(c[p].address < rds[j - 1].start);
                assert(c[q].address >= rds[j - 1].start);
            }
        }
    }
}

/// Law: when the readable regions of a snapshot stand in ascending,
/// non-overlapping address order — as the platform enumeration produces
/// them — a scan whose regions contain exactly K pattern occurrences at
/// window offsets returns exactly `min(K, max)` results, in strictly
/// ascending address order.  `all_hits` counts those occurrences.
pub proof fn lemma_scan_count_and_order(
    pat: Seq<PatternByte>,
    rds: Seq<SpecRegionRead>,
    max: int,
)
    requires
        0 <= max,
        reads_ordered(rds),
    ensures
        scan_spec(pat, rds, max).len() == vstd::math::min(all_hits(pat, rds).len() as int, max),
        hits_ascending(scan_spec(pat, rds, max)),
{
    lemma_all_hits_upto_ascending(pat, rds, rds.len() as int);
    let full = all_hits(pat, rds);
    let out = scan_spec(pat, rds, max);
    assert(forall|k: int| 0 <= k < out.len() ==> out[k] == full[k]);
}

/// Law: a scan that sees no regions at all, or whose every region failed
/// to read, returns no results — an empty list, never an error.
pub proof fn lemma_scan_nothing_readable(
    pat: Seq<PatternByte>,
    rds: Seq<SpecRegionRead>,
    max: int,
)
    requires
        0 <= max,
        forall|k: int| 0 <= k < rds.len() ==> (#[trigger] rds[k]).bytes is None,
    ensures
        scan_spec(pat, rds, max) == Seq::<SpecHit>::empty(),
{
    lemma_all_hits_upto_none(pat, rds, rds.len() as int);
}

proof fn lemma_all_hits_upto_none(pat: Seq<PatternByte>, rds: Seq<SpecRegionRead>, j: int)
    requires
        j <= rds.len(),
        forall|k: int| 0 <= k < rds.len() ==> (#[trigger] rds[k]).bytes is None,
    ensures
        all_hits_upto(pat, rds, j) == Seq::<SpecHit>::empty(),
    decreases j,
{
    if j > 0 {
        lemma_all_hits_upto_none(pat, rds, j - 1);
        assert(all_hits_upto(pat, rds, j) =~= Seq::<SpecHit>::empty());
    }
}

/// Scans one region's bytes against the pattern, appending every hit to
/// `results` in ascending offset order and stopping as soon as
/// `max_results` results are held.  `start` is the region's base address;
/// each hit's address is `start` plus its offset.
pub fn scan_region(
    pattern: &Pattern,
    start: usize,
    data: &[u8],
    max_results: usize,
    results: &mut Vec<ScanResult>,
)
    requires
        start + data@.len() <= usize::MAX,
        old(results)@.len() <= max_results,
    ensures
        hits_of(final(results)@) == clamp(
            hits_of(old(results)@) + region_hits(pattern@, start as int, data@),
            max_results as int,
        ),
{
    let ghost pat = pattern@;
    let ghost base = hits_of(old(results)@);
    let plen = pattern.len();
    let dlen = data.len();
    let end = if dlen >= plen {
        dlen - plen
    } else {
        0
    };
    assert(end as int == scan_end(pat, data@));
    let mut i: usize = 0;
    while i < end && results.len() < max_results
        invariant
            pat == pattern@,
            base == hits_of(old(results)@),
            start + data@.len() <= usize::MAX,
            plen == pat.len(),
            dlen == data@.len(),
            end as int == scan_end(pat, data@),
            end <= dlen,
            i <= end,
            results@.len() <= max_results,
            hits_of(results@) == clamp(
                base + hits_upto(pat, start as int, data@, i as int),
                max_results as int,
            ),
        decreases end - i,
    {
        let ghost sofar = base + hits_upto(pat, start as int, data@, i as int);
        proof {
            assert(hits_of(results@).len() == results@.len());
            assert(sofar.len() < max_results);
        }
        if pattern.matches(data, i) {
            let matched = slice_to_vec(slice_subrange(data, i, i + plen));
            results.push(ScanResult { address: start + i, matched_bytes: matched });
            proof {
                let h = hit_at(pat, start as int, data@, i as int);
                assert(hits_of(results@) =~= sofar.push(h));
                assert(sofar.push(h) =~= base + hits_upto(pat, start as int, data@, i as int + 1));
            }
        } else {
            assert(hits_upto(pat, start as int, data@, i as int + 1) == hits_upto(
                pat,
                start as int,
                data@,
                i as int,
            ));
        }
        i += 1;
    }
    proof {
        let full = base + region_hits(pat, start as int, data@);
        if i < end {
            lemma_hits_upto_prefix(pat, start as int, data@, i as int, end as int);
            let part = base + hits_upto(pat, start as int, data@, i as int);
            assert(part =~= full.subrange(0, part.len() as int));
            assert(part.is_prefix_of(full));
            assert(part.len() >= max_results);
            lemma_prefix_take(part, full, max_results as int);
            if part.len() <= max_results {
                assert(part.take(part.len() as int) =~= part);
            }
        }
    }
}

/// One whole scan over a snapshot of read regions: regions in enumeration
/// order, each readable region's buffer swept from low to high offsets,
/// stopping once `max_results` results are collected.  Regions whose read
/// failed contribute nothing and raise no error.
pub fn scan_regions(pattern: &Pattern, reads: &Vec<RegionRead>, max_results: usize) -> (r: Vec<
    ScanResult,
>)
    requires
        forall|k: int|
            0 <= k < reads@.len() ==> match (#[trigger] reads@[k]).bytes {
                Some(b) => reads@[k].start + b@.len() <= usize::MAX,
                None => true,
            },
    ensures
        hits_of(r@) == scan_spec(pattern@, reads_of(reads@), max_results as int),
{
    let ghost pat = pattern@;
    let ghost rds = reads_of(reads@);
    let mut results: Vec<ScanResult> = Vec::new();
    let mut j: usize = 0;
    assert(hits_of(results@) =~= clamp(all_hits_upto(pat, rds, 0), max_results as int));
    while j < reads.len() && results.len() < max_results
        invariant
            pat == pattern@,
            rds == reads_of(reads@),
            rds.len() == reads@.len(),
            forall|k: int|
                0 <= k < reads@.len() ==> match (#[trigger] reads@[k]).bytes {
                    Some(b) => reads@[k].start + b@.len() <= usize::MAX,
                    None => true,
                },
            j <= reads@.len(),
            results@.len() <= max_results,
            hits_of(results@) == clamp(all_hits_upto(pat, rds, j as int), max_results as int),
        decreases reads@.len() - j,
    {
        let ghost before = all_hits_upto(pat, rds, j as int);
        proof {
            assert(hits_of(results@).len() == results@.len());
            assert(before.len() < max_results);
            assert(rds[j as int] == reads@[j as int]@);
        }
        let rd = &reads[j];
        match &rd.bytes {
            Some(buf) => {
                scan_region(pattern, rd.start, buf.as_slice(), max_results, &mut results);
                proof {
                    assert(read_hits(pat, rds[j as int]) == region_hits(
                        pat,
                        rd.start as int,
                        buf@,
                    ));
                    assert(all_hits_upto(pat, rds, j as int + 1) == before + read_hits(
                        pat,
                        rds[j as int],
                    ));
                    assert(hits_of(results@).len() == results@.len());
                }
            },
            None => {
                proof {
                    assert(read_hits(pat, rds[j as int]) =~= Seq::<SpecHit>::empty());
                    assert(all_hits_upto(pat, rds, j as int + 1) =~= before + Seq::empty());
                    assert(before + Seq::<SpecHit>::empty() =~= before);
                }
            },
        }
        j += 1;
    }
    proof {
        let full = all_hits(pat, rds);
        if j < reads@.len() {
            lemma_all_hits_upto_prefix(pat, rds, j as int, rds.len() as int);
            let part = all_hits_upto(pat, rds, j as int);
            assert(part.len() >= max_results);
            lemma_prefix_take(part, full, max_results as int);
            if part.len() <= max_results {
                assert(part.take(part.len() as int) =~= part);
            }
        }
    }
    results
}

} // verus!
