//! Sliding-window scheduling over a stream that arrives in chunks of
//! arbitrary size, and the identifiers of the windows it produces.

use vstd::prelude::*;
use vstd::string::*;

use crate::text::{append_decimal_width2, decimal_width2};

verus! {

/// Number of windows of `win` samples, `step` samples apart and starting at
/// sample 0, that fit in the first `samples` samples.
pub open spec fn window_count(samples: nat, win: nat, step: nat) -> nat
    recommends
        step > 0,
{
    if samples < win {
        0
    } else {
        ((samples - win) as nat / step + 1) as nat
    }
}

/// `window_count` counts the windows that fit: when there is one, the last of
/// them (starting at `(c - 1) * step`) ends within the samples, and the next
/// one would not.
pub proof fn lemma_window_count_fits(samples: nat, win: nat, step: nat)
    requires
        step > 0,
    ensures
        ({
            let c = window_count(samples, win, step);
            &&& c == 0 || (c - 1) * step + win <= samples
            &&& c * step + win > samples
        }),
{
    let c = window_count(samples, win, step);
    if samples >= win {
        let d = (samples - win) as int;
        let s = step as int;
        let q = d / s;
        assert(c == q + 1);
        assert(q * s <= d < (q + 1) * s) by (nonlinear_arith)
            requires
                s > 0,
                d >= 0,
                q == d / s,
        {
            let r = d % s;
            assert(d == q * s + r && 0 <= r < s);
        }
        assert((c - 1) * s == q * s);
    }
}

/// The windows to compute after one chunk arrived.
pub struct WindowBatch {
    /// Index (0-based, over the whole run) of the first window in this batch.
    pub first_index: usize,
    /// Global sample index of the first buffered sample, before this batch.
    pub offset: usize,
    /// Start of each window, relative to the first buffered sample.
    pub starts: Vec<usize>,
    /// Samples to drop from the front of the buffer once the batch is written.
    pub consumed: usize,
}

/// Decides which windows can be computed as samples stream in.
///
/// The samples themselves are buffered by the caller; the scheduler tracks how
/// many are buffered, where the buffer starts in the stream, and how many
/// windows have been handed out.
pub struct WindowScheduler {
    win_size: usize,
    step_size: usize,
    buffered: usize,
    global_offset: usize,
    emitted: usize,
}

proof fn lemma_count_after_emitted(e: nat, s: nat, w: nat, b_old: nat, b: nat)
    requires
        s > 0,
        b_old <= b,
        e == 0 || b_old + s >= w,
    ensures
        window_count(e * s + b, w, s) == e + window_count(b, w, s),
{
    if e > 0 {
        let total = e * s + b;
        if b >= w {
            assert(((total - w) as nat) / s == e + ((b - w) as nat) / s) by (nonlinear_arith)
                requires
                    total == e * s + b,
                    b >= w,
                    s > 0,
            {
                vstd::arithmetic::div_mod::lemma_mod_multiples_vanish(e as int, (b - w) as int, s as int);
                vstd::arithmetic::div_mod::lemma_fundamental_div_mod((b - w) as int, s as int);
                vstd::arithmetic::div_mod::lemma_fundamental_div_mod((total - w) as int, s as int);
            }
        } else {
            assert(total >= w) by (nonlinear_arith)
                requires
                    total == e * s + b,
                    e >= 1,
                    b + s >= w,
            ;
            assert(((total - w) as nat) / s == e - 1) by (nonlinear_arith)
                requires
                    total == e * s + b,
                    b < w,
                    b + s >= w,
                    e >= 1,
                    s > 0,
            {
                let d = (total - w) as int;
                assert((e - 1) * s <= d < e * s);
                let q = d / (s as int);
                let r = d % (s as int);
                assert(d == q * s + r && 0 <= r < s);
                if q < e - 1 {
                    assert(q * s <= (e - 2) * s);
                }
                if q > e - 1 {
                    assert(q * s >= e * s);
                }
            }
        }
    } else {
        assert(0 * s == 0);
    }
}

impl WindowScheduler {
    pub closed spec fn win(&self) -> nat {
        self.win_size as nat
    }

    pub closed spec fn step(&self) -> nat {
        self.step_size as nat
    }

    /// Samples currently buffered.
    pub closed spec fn pending(&self) -> nat {
        self.buffered as nat
    }

    /// Global index of the first buffered sample.
    pub closed spec fn offset(&self) -> nat {
        self.global_offset as nat
    }

    /// Windows handed out so far.
    pub closed spec fn count(&self) -> nat {
        self.emitted as nat
    }

    /// Samples received so far.
    pub open spec fn total(&self) -> nat {
        self.offset() + self.pending()
    }

    pub closed spec fn wf(&self) -> bool {
        &&& self.win_size > 0
        &&& self.step_size > 0
        &&& self.buffered < self.win_size
        &&& self.global_offset == self.emitted * self.step_size
        &&& self.emitted == 0 || self.buffered + self.step_size >= self.win_size
        &&& self.global_offset + self.buffered <= usize::MAX
    }

    /// Facts every well-formed scheduler satisfies: the windows handed out are
    /// exactly those that fit in the samples received, and the buffer starts
    /// right after the last of them was stepped past.
    pub proof fn lemma_wf_facts(&self)
        requires
            self.wf(),
        ensures
            self.win() > 0,
            self.step() > 0,
            self.pending() < self.win(),
            self.offset() == self.count() * self.step(),
            self.count() == window_count(self.total(), self.win(), self.step()),
            self.total() <= usize::MAX,
    {
        lemma_count_after_emitted(self.count(), self.step(), self.win(), self.pending(), self.pending());
    }

    pub fn new(win_size: usize, step_size: usize) -> (s: Self)
        requires
            win_size > 0,
            step_size > 0,
        ensures
            s.wf(),
            s.win() == win_size,
            s.step() == step_size,
            s.total() == 0,
            s.count() == 0,
    {
        WindowScheduler { win_size, step_size, buffered: 0, global_offset: 0, emitted: 0 }
    }

    pub fn win_size(&self) -> (w: usize)
        ensures
            w == self.win(),
    {
        self.win_size
    }

    pub fn step_size(&self) -> (s: usize)
        ensures
            s == self.step(),
    {
        self.step_size
    }

    /// Windows handed out so far.
    pub fn windows_emitted(&self) -> (n: usize)
        ensures
            n == self.count(),
    {
        self.emitted
    }

    /// Global index of the first buffered sample.
    pub fn global_offset(&self) -> (n: usize)
        ensures
            n == self.offset(),
    {
        self.global_offset
    }

    /// Samples currently buffered.
    pub fn buffered(&self) -> (n: usize)
        ensures
            n == self.pending(),
    {
        self.buffered
    }

    /// Whether `new_samples` more samples can be taken: the running totals
    /// must fit in a `usize`, and the last window must not step past the end
    /// of the buffer (stepping further than a window is long can do that, and
    /// the buffer can then not be drained).
    pub open spec fn accepts(&self, new_samples: nat) -> bool {
        let b = self.pending() + new_samples;
        &&& self.total() + new_samples <= usize::MAX
        &&& window_count(b, self.win(), self.step()) * self.step() <= b
    }

    /// With overlapping or back-to-back windows (a step no longer than a
    /// window) the last window never steps past the buffer, so every chunk
    /// whose totals fit is accepted.
    pub proof fn lemma_accepts_when_step_fits(&self, new_samples: nat)
        requires
            self.wf(),
            self.step() <= self.win(),
            self.total() + new_samples <= usize::MAX,
        ensures
            self.accepts(new_samples),
    {
        let b = self.pending() + new_samples;
        let c = window_count(b, self.win(), self.step());
        lemma_window_count_fits(b, self.win(), self.step());
        let s = self.step() as int;
        let w = self.win() as int;
        if c > 0 {
            assert(c * s <= b) by (nonlinear_arith)
                requires
                    (c - 1) * s + w <= b,
                    s <= w,
            {
                assert(c * s == (c - 1) * s + s);
            }
        }
    }

    pub fn can_take(&self, new_samples: usize) -> (ok: bool)
        requires
            self.wf(),
        ensures
            ok == self.accepts(new_samples as nat),
            ok <==> (self.total() + new_samples <= usize::MAX && window_count(
                (self.pending() + new_samples) as nat,
                self.win(),
                self.step(),
            ) * self.step() <= self.pending() + new_samples),
            self.step() <= self.win() && self.total() + new_samples <= usize::MAX ==> ok,
    {
        proof {
            if self.step() <= self.win() && self.total() + new_samples <= usize::MAX {
                self.lemma_accepts_when_step_fits(new_samples as nat);
            }
        }
        if new_samples > usize::MAX - self.global_offset - self.buffered {
            return false;
        }
        let b = self.buffered + new_samples;
        let c = if b < self.win_size { 0 } else { (b - self.win_size) / self.step_size + 1 };
        proof {
            let s = self.step_size as int;
            let c = c as int;
            let b = b as int;
            assert((c * s <= b) == (c <= b / s)) by (nonlinear_arith)
                requires
                    s > 0,
                    c >= 0,
                    b >= 0,
            {
                let q = b / s;
                let r = b % s;
                assert(b == q * s + r && 0 <= r < s);
                if c <= q {
                    assert(c * s <= q * s);
                } else {
                    assert(c * s >= (q + 1) * s);
                }
            }
        }
        c <= b / self.step_size
    }

    /// Takes `new_samples` freshly buffered samples and hands out every window
    /// that now fits: windows start `step` samples apart at the front of the
    /// buffer, as many as fit. The samples before the next window start are
    /// then dropped from the buffer.
    pub fn take_windows(&mut self, new_samples: usize) -> (batch: WindowBatch)
        requires
            old(self).wf(),
            old(self).accepts(new_samples as nat),
        ensures
            final(self).wf(),
            final(self).win() == old(self).win(),
            final(self).step() == old(self).step(),
            final(self).total() == old(self).total() + new_samples,
            batch.first_index == old(self).count(),
            batch.offset == old(self).offset(),
            batch.starts@.len() == window_count(
                (old(self).pending() + new_samples) as nat,
                old(self).win(),
                old(self).step(),
            ),
            forall|j: int|
                0 <= j < batch.starts@.len() ==> {
                    &&& #[trigger] batch.starts@[j] == j * old(self).step()
                    &&& batch.starts@[j] + old(self).win() <= old(self).pending() + new_samples
                    &&& batch.offset + batch.starts@[j] == (batch.first_index + j) * old(self).step()
                },
            batch.consumed == batch.starts@.len() * old(self).step(),
            final(self).count() == old(self).count() + batch.starts@.len(),
            final(self).offset() == old(self).offset() + batch.consumed,
            final(self).pending() == old(self).pending() + new_samples - batch.consumed,
            final(self).count() == window_count(final(self).total(), final(self).win(), final(self).step()),
    {
        let b = self.buffered + new_samples;
        let w = self.win_size;
        let s = self.step_size;
        let ghost c = window_count(b as nat, w as nat, s as nat);
        let mut starts: Vec<usize> = Vec::new();
        let mut cursor: usize = 0;
        assert(starts@.len() * s == 0) by (nonlinear_arith)
            requires
                starts@.len() == 0,
        ;
        while b - cursor >= w
            invariant
                s > 0,
                w > 0,
                c == window_count(b as nat, w as nat, s as nat),
                c * s <= b,
                cursor == starts@.len() * s,
                starts@.len() <= c,
                cursor <= b,
                forall|j: int| 0 <= j < starts@.len() ==> #[trigger] starts@[j] == j * s,
            decreases b - cursor,
        {
            starts.push(cursor);
            proof {
                let k = (starts@.len() - 1) as int;
                assert(k * s + w <= b);
                assert(k <= (b - w) / (s as int)) by (nonlinear_arith)
                    requires
                        k * s + w <= b,
                        s > 0,
                        k >= 0,
                {
                    let q = ((b - w) as int) / (s as int);
                    let r = ((b - w) as int) % (s as int);
                    assert(b - w == q * s + r && 0 <= r < s);
                    if k > q {
                        assert(k * s >= (q + 1) * s);
                    }
                }
                assert(starts@.len() <= c);
                assert(starts@.len() * s <= c * s) by (nonlinear_arith)
                    requires
                        starts@.len() <= c,
                        s > 0,
                ;
                assert(cursor + s == starts@.len() * s) by (nonlinear_arith)
                    requires
                        cursor == (starts@.len() - 1) * s,
                ;
            }
            cursor = cursor + s;
        }
        proof {
            let n = starts@.len() as int;
            if b >= w {
                assert(n >= c) by (nonlinear_arith)
                    requires
                        n * s + w > b,
                        b >= w,
                        c == (b - w) / (s as int) + 1,
                        s > 0,
                {
                    let q = ((b - w) as int) / (s as int);
                    let r = ((b - w) as int) % (s as int);
                    assert(b - w == q * s + r && 0 <= r < s);
                    if n <= q {
                        assert(n * s <= q * s);
                    }
                }
            }
            assert(n == c);
            assert forall|j: int| 0 <= j < starts@.len() implies {
                &&& #[trigger] starts@[j] + w <= b
                &&& self.global_offset + starts@[j] == (self.emitted + j) * s
            } by {
                assert(j * s + w <= (c - 1) * s + w) by (nonlinear_arith)
                    requires
                        j <= c - 1,
                        s > 0,
                ;
                assert((c - 1) * s + w <= b) by (nonlinear_arith)
                    requires
                        c == (b - w) / (s as int) + 1,
                        b >= w,
                        s > 0,
                {
                    let q = ((b - w) as int) / (s as int);
                    let r = ((b - w) as int) % (s as int);
                    assert(b - w == q * s + r && 0 <= r < s);
                    assert(q * s <= b - w);
                }
                assert(self.emitted * s + j * s == (self.emitted + j) * s) by (nonlinear_arith);
            }
        }
        let batch = WindowBatch {
            first_index: self.emitted,
            offset: self.global_offset,
            starts,
            consumed: cursor,
        };
        proof {
            let e = self.emitted as nat;
            let n = batch.starts@.len();
            assert((e + n) * s == e * s + n * s) by (nonlinear_arith);
            assert(e + n <= self.global_offset + cursor) by (nonlinear_arith)
                requires
                    self.global_offset == e * s,
                    cursor == n * s,
                    s >= 1,
            ;
            if n > 0 {
                assert((n - 1) * s + w <= b) by (nonlinear_arith)
                    requires
                        n == (b - w) / (s as int) + 1,
                        b >= w,
                        s > 0,
                {
                    let q = ((b - w) as int) / (s as int);
                    let r = ((b - w) as int) % (s as int);
                    assert(b - w == q * s + r && 0 <= r < s);
                }
                assert((n - 1) * s + s == n * s) by (nonlinear_arith);
            }
        }
        self.emitted = self.emitted + batch.starts.len();
        self.global_offset = self.global_offset + cursor;
        self.buffered = b - cursor;
        proof {
            self.lemma_wf_facts();
        }
        batch
    }
}

/// Two schedulers with the same window and step that have received the same
/// number of samples have handed out the same windows and buffer the same
/// samples, however the samples were split into chunks.
pub proof fn lemma_schedule_independent_of_chunking(a: WindowScheduler, b: WindowScheduler)
    requires
        a.wf(),
        b.wf(),
        a.win() == b.win(),
        a.step() == b.step(),
        a.total() == b.total(),
    ensures
        a.count() == b.count(),
        a.offset() == b.offset(),
        a.pending() == b.pending(),
{
    a.lemma_wf_facts();
    b.lemma_wf_facts();
}

/// Identifier of the window with 0-based index `index` in a run over the
/// folder `stem`: `"{stem}_w{index + 1:02}"`.
pub fn window_id(stem: &str, index: usize) -> (id: String)
    requires
        index < usize::MAX,
    ensures
        id@ == stem@ + "_w"@ + decimal_width2((index + 1) as nat),
{
    let mut id = String::from_str(stem);
    id.append("_w");
    append_decimal_width2(&mut id, (index as u64) + 1);
    proof {
        assert(id@ =~= stem@ + "_w"@ + decimal_width2((index + 1) as nat));
    }
    id
}

} // verus!
