//! The boundary scanner: one sequential pass over the file's bytes that cuts
//! it into chunk ranges, one range per record block. A cut falls immediately
//! after a blank line, that is after a line-break byte whose predecessor is a
//! line-break as well (or that opens the file); the tail after the last cut is
//! always closed as a final range, so the last record is never dropped.

use vstd::prelude::*;
use crate::is_line_break;

verus! {

/// Half-open byte interval `[start, end)` into the file content.
#[derive(Clone, Copy, PartialEq, Eq, Structural, Debug)]
pub struct ChunkRange {
    pub start: usize,
    pub end: usize,
}

/// A cut position: `p` sits immediately after a line-break whose predecessor
/// is a line-break too, or after a line-break that opens the content.
pub open spec fn is_cut(s: Seq<u8>, p: int) -> bool {
    1 <= p <= s.len() && is_line_break(s[p - 1]) && (p == 1 || is_line_break(s[p - 2]))
}

/// The scan state after reading `s`: the ranges closed so far, and the
/// position of the last cut (0 before any cut).
pub open spec fn scan_state(s: Seq<u8>) -> (Seq<(int, int)>, int)
    decreases s.len(),
{
    if s.len() == 0 {
        (Seq::empty(), 0)
    } else {
        let prev = scan_state(s.drop_last());
        if is_cut(s, s.len() as int) {
            (prev.0.push((prev.1, s.len() as int)), s.len() as int)
        } else {
            prev
        }
    }
}

/// All chunk ranges of the content: one per cut, plus the final tail range.
pub open spec fn chunk_ranges(s: Seq<u8>) -> Seq<(int, int)> {
    scan_state(s).0.push((scan_state(s).1, s.len() as int))
}

/// Cuts read the same through any extension of the content they fit in.
proof fn lemma_cut_prefix(s: Seq<u8>, t: Seq<u8>, p: int)
    requires
        t == s.drop_last(),
        s.len() > 0,
        p <= t.len(),
    ensures
        is_cut(s, p) == is_cut(t, p),
{
}

/// The ranges of the scan state partition `[0, last)` and end at exactly the
/// cut positions; `last` is the latest cut, or 0 before any.
pub proof fn lemma_scan_state(s: Seq<u8>)
    ensures
        ({
            let (r, last) = scan_state(s);
            &&& 0 <= last <= s.len()
            &&& (r.len() == 0 ==> last == 0)
            &&& (r.len() > 0 ==> r[0].0 == 0 && r[r.len() - 1].1 == last)
            &&& forall|j: int, k: int|
                #![trigger r[j], r[k]]
                0 <= j && k == j + 1 && k < r.len() ==> r[j].1 == r[k].0
            &&& forall|j: int|
                0 <= j < r.len() ==> 0 <= (#[trigger] r[j]).0 <= r[j].1 && is_cut(s, r[j].1)
            &&& forall|p: int| is_cut(s, p) ==> exists|j: int| 0 <= j < r.len() && (#[trigger] r[j].1) == p
        }),
    decreases s.len(),
{
    if s.len() > 0 {
        let t = s.drop_last();
        lemma_scan_state(t);
        let (r0, last0) = scan_state(t);
        assert forall|j: int| 0 <= j < r0.len() implies 0 <= (#[trigger] r0[j]).0 <= r0[j].1
            && is_cut(s, r0[j].1) by {
            lemma_cut_prefix(s, t, r0[j].1);
        }
        let (r, last) = scan_state(s);
        assert forall|p: int| is_cut(s, p) implies exists|j: int|
            0 <= j < r.len() && (#[trigger] r[j].1) == p by {
            if p <= t.len() {
                lemma_cut_prefix(s, t, p);
                let j = choose|j: int| 0 <= j < r0.len() && r0[j].1 == p;
                assert(r[j].1 == p);
            } else {
                assert(p == s.len());
                assert(r[r.len() - 1].1 == p);
            }
        }
    }
}

/// The chunk ranges are contiguous, non-overlapping, cover `[0, len)` whole
/// (the tail after the last cut included), and their inner ends are exactly
/// the cut positions.
#[verifier::rlimit(50)]
pub proof fn lemma_chunk_ranges_partition(s: Seq<u8>)
    ensures
        ({
            let r = chunk_ranges(s);
            &&& r.len() >= 1
            &&& r[0].0 == 0
            &&& r[r.len() - 1].1 == s.len()
            &&& forall|j: int, k: int|
                #![trigger r[j], r[k]]
                0 <= j && k == j + 1 && k < r.len() ==> r[j].1 == r[k].0
            &&& forall|j: int| 0 <= j < r.len() ==> 0 <= (#[trigger] r[j]).0 <= r[j].1 <= s.len()
            &&& forall|j: int| 0 <= j < r.len() - 1 ==> is_cut(s, (#[trigger] r[j]).1)
            &&& forall|p: int| is_cut(s, p) ==> exists|j: int|
                0 <= j < r.len() - 1 && (#[trigger] r[j]).1 == p
        }),
{
    lemma_scan_state(s);
    let r0 = scan_state(s).0;
    let last0 = scan_state(s).1;
    let r = chunk_ranges(s);
    assert(r.len() == r0.len() + 1);
    assert(forall|j: int| 0 <= j < r0.len() ==> (#[trigger] r[j]) == r0[j]);
    assert(r[r.len() - 1] == (last0, s.len() as int));
    assert forall|j: int| 0 <= j < r.len() implies 0 <= (#[trigger] r[j].0) <= r[j].1 <= s.len() by {
        if j < r0.len() {
            assert(r0[j].0 <= r0[j].1 && is_cut(s, r0[j].1));
        }
    }
    assert forall|j: int, k: int|
        #![trigger r[j], r[k]]
        0 <= j && k == j + 1 && k < r.len() implies r[j].1 == r[k].0 by {
        if k == r0.len() {
            assert(r0[r0.len() - 1].1 == last0);
        } else {
            assert(r0[j].1 == r0[k].0);
        }
    }
    assert forall|p: int| is_cut(s, p) implies exists|j: int|
        0 <= j < r.len() - 1 && (#[trigger] r[j]).1 == p by {
        let j = choose|j: int| 0 <= j < r0.len() && (#[trigger] r0[j]).1 == p;
        assert(r[j].1 == p);
    }
}

/// Content without a single cut anywhere forms exactly one chunk range,
/// spanning the whole content.
pub proof fn lemma_single_block_ranges(s: Seq<u8>)
    requires
        forall|p: int| !is_cut(s, p),
    ensures
        chunk_ranges(s) == seq![(0int, s.len() as int)],
    decreases s.len(),
{
    lemma_no_cut_scan(s);
    assert(chunk_ranges(s) =~= seq![(0int, s.len() as int)]);
}

proof fn lemma_no_cut_scan(s: Seq<u8>)
    requires
        forall|p: int| !is_cut(s, p),
    ensures
        scan_state(s) == (Seq::<(int, int)>::empty(), 0int),
    decreases s.len(),
{
    if s.len() > 0 {
        let t = s.drop_last();
        assert forall|p: int| !is_cut(t, p) by {
            if 1 <= p <= t.len() {
                lemma_cut_prefix(s, t, p);
            }
        }
        lemma_no_cut_scan(t);
    }
}

/// Scans the content and returns its chunk ranges.
pub fn scan_chunks(bytes: &[u8]) -> (r: Vec<ChunkRange>)
    ensures
        r@.len() == chunk_ranges(bytes@).len(),
        forall|j: int| 0 <= j < r@.len() ==> (#[trigger] r@[j]).start as int == chunk_ranges(
            bytes@,
        )[j].0 && r@[j].end as int == chunk_ranges(bytes@)[j].1,
{
    let mut out: Vec<ChunkRange> = Vec::new();
    let mut last: usize = 0;
    let mut i: usize = 0;
    proof {
        assert(bytes@.subrange(0, 0) =~= Seq::<u8>::empty());
    }
    while i < bytes.len()
        invariant
            i <= bytes@.len(),
            last == scan_state(bytes@.subrange(0, i as int)).1,
            out@.len() == scan_state(bytes@.subrange(0, i as int)).0.len(),
            forall|j: int| 0 <= j < out@.len() ==> (#[trigger] out@[j]).start as int == scan_state(
                bytes@.subrange(0, i as int),
            ).0[j].0 && out@[j].end as int == scan_state(bytes@.subrange(0, i as int)).0[j].1,
        decreases bytes@.len() - i,
    {
        proof {
            let pre = bytes@.subrange(0, i as int);
            let post = bytes@.subrange(0, i + 1);
            assert(post.drop_last() =~= pre);
            assert(post.last() == bytes@[i as int]);
        }
        if bytes[i] == 10 && (i == 0 || bytes[i - 1] == 10) {
            out.push(ChunkRange { start: last, end: i + 1 });
            last = i + 1;
        }
        i += 1;
    }
    proof {
        assert(bytes@.subrange(0, bytes@.len() as int) =~= bytes@);
    }
    out.push(ChunkRange { start: last, end: bytes.len() });
    out
}

} // verus!
