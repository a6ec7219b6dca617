//! Gap structure of a trace with missing samples: which gaps can be bridged
//! by interpolation, and which samples the gap fill fabricates.
//!
//! A sample is *missing* when it was never recorded (it is NaN in the float
//! trace). A run of missing samples with a recorded sample on both sides is an
//! interior gap and gets interpolated; a run that touches either end of the
//! trace has nothing to anchor it and stays missing.

use vstd::prelude::*;

verus! {

/// Some sample before index `i` is present.
pub open spec fn present_before(missing: Seq<bool>, i: int) -> bool {
    exists|j: int| 0 <= j < i && !missing[j]
}

/// Some sample after index `i` is present.
pub open spec fn present_after(missing: Seq<bool>, i: int) -> bool {
    exists|j: int| i < j < missing.len() && !missing[j]
}

/// Sample `i` is missing but lies in an interior gap (a present sample
/// somewhere on each side), so the fill bridges it.
pub open spec fn in_interior_gap(missing: Seq<bool>, i: int) -> bool {
    &&& missing[i]
    &&& present_before(missing, i)
    &&& present_after(missing, i)
}

/// One interior gap: `left` is the last present sample before it, `right`
/// the first present sample after it; the missing samples are those strictly
/// between.
#[derive(Clone, Copy, Debug, PartialEq, Eq)]
pub struct GapSpan {
    pub left: usize,
    pub right: usize,
}

/// `span` is a maximal interior gap of `missing`.
pub open spec fn is_interior_gap(missing: Seq<bool>, span: GapSpan) -> bool {
    &&& span.left + 1 < span.right < missing.len()
    &&& !missing[span.left as int]
    &&& !missing[span.right as int]
    &&& forall|k: int| span.left < k < span.right ==> #[trigger] missing[k]
}

/// Sample `i` lies inside one of `spans`.
pub open spec fn covered_by(spans: Seq<GapSpan>, i: int) -> bool {
    exists|s: int| 0 <= s < spans.len() && spans[s].left < i < #[trigger] spans[s].right
}

/// The interior gaps of a trace, in order. Each is a maximal run of missing
/// samples with a present sample on both sides, and together they contain
/// exactly the missing samples that have a present sample on both sides.
pub fn interior_gaps(missing: &[bool]) -> (spans: Vec<GapSpan>)
    ensures
        forall|s: int| 0 <= s < spans.len() ==> is_interior_gap(missing@, #[trigger] spans@[s]),
        forall|s: int, t: int|
            0 <= s < t < spans.len() ==> #[trigger] spans@[s].right <= #[trigger] spans@[t].left,
        forall|i: int|
            0 <= i < missing@.len() ==> (in_interior_gap(missing@, i) <==> covered_by(spans@, i)),
{
    let n = missing.len();
    let mut spans: Vec<GapSpan> = Vec::new();
    let mut i: usize = 0;
    while i < n
        invariant
            n == missing@.len(),
            i <= n,
            i < n ==> (i == 0 || !missing@[i - 1] || !missing@[i as int]),
            forall|s: int| 0 <= s < spans.len() ==> is_interior_gap(missing@, #[trigger] spans@[s]),
            forall|s: int| 0 <= s < spans.len() ==> #[trigger] spans@[s].right <= i,
            forall|s: int, t: int|
                0 <= s < t < spans.len() ==> #[trigger] spans@[s].right <= #[trigger] spans@[t].left,
            forall|k: int| 0 <= k < i ==> (in_interior_gap(missing@, k) ==> covered_by(spans@, k)),
        decreases n - i,
    {
        if !missing[i] {
            i = i + 1;
            continue;
        }
        let gap_start = i;
        while i < n && missing[i]
            invariant
                n == missing@.len(),
                gap_start <= i <= n,
                forall|k: int| gap_start <= k < i ==> #[trigger] missing@[k],
            decreases n - i,
        {
            i = i + 1;
        }
        let gap_end = i;
        assert(gap_end == n || !missing@[gap_end as int]);
        assert(gap_start == 0 || !missing@[gap_start - 1]);
        if gap_start == 0 || gap_end == n {
            assert forall|k: int| gap_start <= k < gap_end implies !in_interior_gap(missing@, k) by {
                if gap_start == 0 && present_before(missing@, k) {
                    let j = choose|j: int| 0 <= j < k && !missing@[j];
                    assert(missing@[j]);
                }
                if gap_end == n && present_after(missing@, k) {
                    let j = choose|j: int| k < j < missing@.len() && !missing@[j];
                    assert(missing@[j]);
                }
            }
            continue;
        }
        let span = GapSpan { left: gap_start - 1, right: gap_end };
        let ghost old_spans = spans@;
        spans.push(span);
        assert forall|k: int| 0 <= k < i && in_interior_gap(missing@, k) implies covered_by(
            spans@,
            k,
        ) by {
            {
                if k < gap_start {
                    let s = choose|s: int|
                        0 <= s < old_spans.len() && old_spans[s].left < k < #[trigger] old_spans[s].right;
                    assert(spans@[s] == old_spans[s]);
                    assert(spans@[s].left < k < spans@[s].right);
                } else {
                    let last = spans@.len() - 1;
                    assert(spans@[last] == span);
                    assert(spans@[last].left < k < spans@[last].right);
                }
            }
        }
    }
    assert forall|i: int|
        0 <= i < missing@.len() && covered_by(spans@, i) implies in_interior_gap(missing@, i) by {
        let s = choose|s: int| 0 <= s < spans@.len() && spans@[s].left < i < #[trigger] spans@[s].right;
        let sp = spans@[s];
        assert(is_interior_gap(missing@, sp));
        assert(missing@[i]);
        assert(!missing@[sp.left as int]);
        assert(!missing@[sp.right as int]);
    }
    spans
}

/// Which samples the gap fill fabricates, flagged so that windows built on
/// them can be identified: exactly the missing samples of interior gaps, all
/// of which the fill bridges. Missing samples at either edge are not flagged:
/// they stay missing in the output, where they are already visible.
pub fn interpolation_mask(missing: &[bool]) -> (mask: Vec<bool>)
    ensures
        mask@.len() == missing@.len(),
        forall|i: int| 0 <= i < missing@.len() ==> mask@[i] == in_interior_gap(missing@, i),
{
    let n = missing.len();
    let mut mask: Vec<bool> = Vec::new();
    let mut i: usize = 0;
    while i < n
        invariant
            n == missing@.len(),
            i <= n,
            mask@.len() == i,
            i < n ==> (i == 0 || !missing@[i - 1] || !missing@[i as int]),
            forall|q: int| 0 <= q < i ==> mask@[q] == in_interior_gap(missing@, q),
        decreases n - i,
    {
        if !missing[i] {
            mask.push(false);
            i = i + 1;
            continue;
        }
        let gap_start = i;
        while i < n && missing[i]
            invariant
                n == missing@.len(),
                gap_start <= i <= n,
                forall|k: int| gap_start <= k < i ==> #[trigger] missing@[k],
            decreases n - i,
        {
            i = i + 1;
        }
        let gap_end = i;
        assert(gap_end == n || !missing@[gap_end as int]);
        assert(gap_start == 0 || !missing@[gap_start - 1]);
        let fill = gap_start > 0 && gap_end < n;
        proof {
            assert forall|q: int| gap_start <= q < gap_end implies fill == in_interior_gap(missing@, q) by {
                assert(missing@[q]);
                if fill {
                    assert(!missing@[gap_start - 1]);
                    assert(!missing@[gap_end as int]);
                } else if gap_start == 0 && present_before(missing@, q) {
                    let j = choose|j: int| 0 <= j < q && !missing@[j];
                    assert(missing@[j]);
                } else if gap_end == n && present_after(missing@, q) {
                    let j = choose|j: int| q < j < missing@.len() && !missing@[j];
                    assert(missing@[j]);
                }
            }
        }
        let mut k: usize = gap_start;
        while k < gap_end
            invariant
                n == missing@.len(),
                gap_start <= k <= gap_end <= n,
                mask@.len() == k,
                forall|q: int| 0 <= q < gap_start ==> mask@[q] == in_interior_gap(missing@, q),
                forall|q: int| gap_start <= q < k ==> mask@[q] == fill,
            decreases gap_end - k,
        {
            mask.push(fill);
            k = k + 1;
        }
    }
    mask
}

/// Number of set flags among `flags[start .. start + k]`.
pub open spec fn flagged_in(flags: Seq<bool>, start: int, k: int) -> nat
    decreases k,
{
    if k <= 0 {
        0
    } else {
        flagged_in(flags, start, k - 1) + if flags[start + k - 1] {
            1nat
        } else {
            0nat
        }
    }
}

/// `flagged_in` counts every set flag of the range: it is the number of set
/// flags among `flags[start .. start + k]`, i.e. the length of that range
/// filtered down to the set flags.
pub proof fn lemma_flagged_in_is_filter_len(flags: Seq<bool>, start: int, k: int)
    requires
        0 <= start,
        0 <= k,
        start + k <= flags.len(),
    ensures
        flagged_in(flags, start, k) == flags.subrange(start, start + k).filter(|b: bool| b).len(),
    decreases k,
{
    reveal(Seq::filter);
    if k > 0 {
        lemma_flagged_in_is_filter_len(flags, start, k - 1);
        assert(flags.subrange(start, start + k).drop_last() =~= flags.subrange(start, start + k - 1));
        assert(flags.subrange(start, start + k).last() == flags[start + k - 1]);
    }
}

/// A range whose flags are all set counts its full length; one with none
/// set counts 0.
pub proof fn lemma_flagged_in_extremes(flags: Seq<bool>, start: int, k: int)
    requires
        0 <= k,
    ensures
        (forall|i: int| start <= i < start + k ==> #[trigger] flags[i]) ==> flagged_in(flags, start, k) == k,
        (forall|i: int| start <= i < start + k ==> !#[trigger] flags[i]) ==> flagged_in(flags, start, k) == 0,
    decreases k,
{
    if k > 0 {
        lemma_flagged_in_extremes(flags, start, k - 1);
    }
}

/// How many of the `len` samples starting at `start` are flagged (the
/// numerator of a window's interpolated fraction).
pub fn count_flagged(flags: &[bool], start: usize, len: usize) -> (c: usize)
    requires
        start + len <= flags@.len(),
    ensures
        c == flagged_in(flags@, start as int, len as int),
        c == flags@.subrange(start as int, start + len).filter(|b: bool| b).len(),
        c <= len,
{
    proof {
        lemma_flagged_in_is_filter_len(flags@, start as int, len as int);
    }
    let n = flags.len();
    let mut c: usize = 0;
    let mut k: usize = 0;
    while k < len
        invariant
            n == flags@.len(),
            start + len <= n,
            k <= len,
            c == flagged_in(flags@, start as int, k as int),
            c <= k,
        decreases len - k,
    {
        if flags[start + k] {
            c = c + 1;
        }
        k = k + 1;
    }
    c
}

} // verus!
