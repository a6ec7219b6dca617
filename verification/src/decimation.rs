//! Decimation by slice-and-stride, and the phase that keeps it aligned to a
//! global sample grid across independently processed blocks.

use vstd::prelude::*;

verus! {

/// `min(skip, len)`: a skip past the end leaves nothing.
pub open spec fn clamped_skip(len: nat, skip: nat) -> nat {
    if skip <= len {
        skip
    } else {
        len
    }
}

/// Number of samples kept when `len` samples are decimated by `factor`
/// after dropping the first `skip`: `ceil((len - min(skip, len)) / factor)`.
pub open spec fn decimated_len(len: nat, skip: nat, factor: nat) -> nat
    recommends
        factor > 0,
{
    let rest = (len - clamped_skip(len, skip)) as nat;
    if rest == 0 {
        0
    } else {
        ((rest - 1) as nat / factor + 1) as nat
    }
}

proof fn lemma_decimated_len_bounds(len: nat, skip: nat, factor: nat, k: nat)
    requires
        factor > 0,
        k * factor < len - clamped_skip(len, skip) <= (k + 1) * factor,
    ensures
        decimated_len(len, skip, factor) == k + 1,
{
    let rest = (len - clamped_skip(len, skip)) as int;
    let f = factor as int;
    let kk = k as int;
    assert((rest - 1) / f == kk) by (nonlinear_arith)
        requires
            f > 0,
            kk * f < rest <= (kk + 1) * f,
    {
        let q = (rest - 1) / f;
        let r = (rest - 1) % f;
        assert(rest - 1 == q * f + r && 0 <= r < f);
        if q < kk {
            assert(q * f + r < kk * f);
        }
        if q > kk {
            assert(q * f >= (kk + 1) * f);
        }
    }
}

/// `ceil((len - min(skip, len)) / factor)`, the length `decimate` produces.
pub fn decimated_count(len: usize, skip: usize, factor: usize) -> (n: usize)
    requires
        factor > 0,
    ensures
        n == decimated_len(len as nat, skip as nat, factor as nat),
{
    let s = if skip <= len { skip } else { len };
    let rest = len - s;
    if rest == 0 {
        0
    } else {
        (rest - 1) / factor + 1
    }
}

/// Keeps every `factor`-th sample starting at `min(skip, len)`:
/// `data[skip..].iter().step_by(factor)`.
pub fn decimate<T: Copy>(data: &[T], skip: usize, factor: usize) -> (out: Vec<T>)
    requires
        factor > 0,
    ensures
        out@.len() == decimated_len(data@.len(), skip as nat, factor as nat),
        forall|i: int|
            0 <= i < out@.len() ==> out@[i] == data@[clamped_skip(data@.len(), skip as nat) + i
                * factor],
{
    let n = data.len();
    let start = if skip <= n { skip } else { n };
    let mut out: Vec<T> = Vec::new();
    let mut idx = start;
    assert(out@.len() * factor == 0) by (nonlinear_arith)
        requires
            out@.len() == 0,
    ;
    while idx < n
        invariant
            n == data@.len(),
            start == clamped_skip(n as nat, skip as nat),
            start <= idx,
            idx == start + out@.len() * factor,
            out@.len() > 0 ==> idx - factor < n,
            factor > 0,
            forall|i: int| 0 <= i < out@.len() ==> out@[i] == data@[start + i * factor],
        decreases n - idx,
    {
        out.push(data[idx]);
        proof {
            assert(idx + factor == start + out@.len() * factor) by (nonlinear_arith)
                requires
                    idx == start + (out@.len() - 1) * factor,
            ;
        }
        if factor > n - idx {
            idx = n;
            proof {
                let k = (out@.len() - 1) as nat;
                assert(k * factor < n - start <= (k + 1) * factor) by (nonlinear_arith)
                    requires
                        start + k * factor < n,
                        n < start + k * factor + factor,
                ;
                lemma_decimated_len_bounds(n as nat, skip as nat, factor as nat, k);
            }
            return out;
        }
        idx = idx + factor;
    }
    proof {
        if out@.len() == 0 {
            assert(start == n);
        } else {
            let k = (out@.len() - 1) as nat;
            assert(k * factor < n - start <= (k + 1) * factor) by (nonlinear_arith)
                requires
                    idx == start + (k + 1) * factor,
                    idx - factor < n,
                    n <= idx,
            ;
            lemma_decimated_len_bounds(n as nat, skip as nat, factor as nat, k);
        }
    }
    out
}

/// Decimating samples and a per-sample flag sequence of the same length with
/// the same skip and factor keeps them index-aligned: both come out equally
/// long, and output `i` of each is taken from the same input index.
pub proof fn lemma_decimation_keeps_alignment<A, B>(
    data: Seq<A>,
    flags: Seq<B>,
    skip: nat,
    factor: nat,
    i: int,
)
    requires
        factor > 0,
        data.len() == flags.len(),
        0 <= i < decimated_len(data.len(), skip, factor),
    ensures
        decimated_len(data.len(), skip, factor) == decimated_len(flags.len(), skip, factor),
        clamped_skip(data.len(), skip) + i * factor < data.len(),
        clamped_skip(data.len(), skip) == clamped_skip(flags.len(), skip),
{
    let n = data.len();
    let s = clamped_skip(n, skip);
    let rest = (n - s) as int;
    let f = factor as int;
    assert(i * f < rest) by (nonlinear_arith)
        requires
            i < (rest - 1) / f + 1,
            rest > 0,
            f > 0,
            0 <= i,
    {
        assert(i <= (rest - 1) / f);
        assert(i * f <= ((rest - 1) / f) * f);
        assert(((rest - 1) / f) * f <= rest - 1);
    }
}

/// `x` lies on the grid of multiples of `f`.
pub open spec fn on_grid(x: int, f: int) -> bool {
    x % f == 0
}

/// Samples to skip at the start of a block beginning at global sample
/// `global_offset`, so that what is kept lies on the global grid of
/// multiples of `factor`.
pub open spec fn phase_of(global_offset: nat, factor: nat) -> nat
    recommends
        factor > 0,
{
    ((factor - global_offset % factor) as nat % factor) as nat
}

/// The decimation phase of a block: `(factor - global_offset % factor) % factor`.
pub fn decimation_phase(global_offset: usize, factor: usize) -> (p: usize)
    requires
        factor > 0,
    ensures
        p == phase_of(global_offset as nat, factor as nat),
        p < factor,
        ((global_offset + p) as int) % (factor as int) == 0,
{
    let p = (factor - global_offset % factor) % factor;
    proof {
        lemma_phase_aligns(global_offset as nat, factor as nat);
    }
    p
}

/// The phase is the least shift that puts a block's start on the grid.
pub proof fn lemma_phase_aligns(g: nat, f: nat)
    requires
        f > 0,
    ensures
        phase_of(g, f) < f,
        ((g + phase_of(g, f)) as int) % (f as int) == 0,
        forall|p: nat| p < phase_of(g, f) ==> !#[trigger] on_grid((g + p) as int, f as int),
{
    let gi = g as int;
    let fi = f as int;
    let r = gi % fi;
    let q = gi / fi;
    assert(gi == q * fi + r && 0 <= r < fi) by (nonlinear_arith)
        requires
            fi > 0,
            q == gi / fi,
            r == gi % fi,
    ;
    if r == 0 {
        assert((fi - r) % fi == 0) by (nonlinear_arith)
            requires
                r == 0,
                fi > 0,
        ;
        assert(phase_of(g, f) == 0);
        assert(gi % fi == 0);
    } else {
        assert((fi - r) % fi == fi - r) by (nonlinear_arith)
            requires
                0 < r < fi,
        ;
        assert(phase_of(g, f) == fi - r);
        assert((gi + (fi - r)) % fi == 0) by (nonlinear_arith)
            requires
                gi == q * fi + r,
                fi > 0,
        {
            assert(gi + (fi - r) == (q + 1) * fi);
        }
        assert forall|p: nat| p < phase_of(g, f) implies !#[trigger] on_grid((g + p) as int, f as int) by {
            assert((gi + p) % fi == r + p) by (nonlinear_arith)
                requires
                    gi == q * fi + r,
                    0 <= r,
                    r + p < fi,
                    fi > 0,
            ;
        }
    }
}

/// Decimation stays on the global grid across blocks. A block of `take`
/// samples starting at global sample `g`, processed with `lead` samples of
/// preceding context in front of it and decimated with skip
/// `lead + phase_of(g, factor)`, keeps exactly the samples whose global index
/// is a multiple of `factor`: its `i`-th output is global sample
/// `g + phase + i * factor`, every such index is a multiple of `factor` inside
/// the block, and every multiple of `factor` inside the block is kept. So
/// consecutive blocks together keep exactly the multiples of `factor`, however
/// the stream was cut into blocks.
pub proof fn lemma_block_decimation_aligned(g: nat, lead: nat, take: nat, factor: nat)
    requires
        factor > 0,
    ensures
        ({
            let phase = phase_of(g, factor);
            let kept = decimated_len(lead + take, lead + phase, factor);
            &&& forall|i: nat|
                i < kept ==> {
                    &&& on_grid((g + phase + #[trigger] (i * factor)) as int, factor as int)
                    &&& g <= g + phase + i * factor < g + take
                }
            &&& forall|x: nat|
                g <= x < g + take && #[trigger] on_grid(x as int, factor as int) ==> exists|i: nat|
                    i < kept && x == g + phase + #[trigger] (i * factor)
        }),
{
    let phase = phase_of(g, factor);
    lemma_phase_aligns(g, factor);
    let len = lead + take;
    let skip = lead + phase;
    let kept = decimated_len(len, skip, factor);
    let f = factor as int;
    assert forall|i: nat| i < kept implies {
        &&& on_grid((g + phase + #[trigger] (i * factor)) as int, factor as int)
        &&& g <= g + phase + i * factor < g + take
    } by {
        assert(skip <= len);
        let rest = len - skip;
        assert(rest > 0);
        assert(i * factor < rest) by (nonlinear_arith)
            requires
                f == factor,
                i < (rest - 1) / f + 1,
                rest > 0,
                f > 0,
        {
            assert(i <= (rest - 1) / f);
            assert(i * f <= ((rest - 1) / f) * f);
            assert(((rest - 1) / f) * f <= rest - 1);
        }
        let a = (g + phase) as int;
        assert(a == f * (a / f) + a % f) by {
            vstd::arithmetic::div_mod::lemma_fundamental_div_mod(a, f);
        }
        assert(a + i * factor == f * (a / f + i)) by (nonlinear_arith)
            requires
                f == factor,
                a == f * (a / f),
        ;
        vstd::arithmetic::div_mod::lemma_mod_multiples_vanish(a / f + i, 0, f);
    }
    assert forall|x: nat| g <= x < g + take && #[trigger] on_grid(x as int, factor as int) implies exists|i: nat|
        i < kept && x == g + phase + #[trigger] (i * factor) by {
        // x is at or after the first grid point of the block.
        assert(x >= g + phase) by {
            if x < g + phase {
                let p = (x - g) as nat;
                assert(p < phase);
                assert(!on_grid((g + p) as int, f));
            }
        }
        let d = (x - g - phase) as nat;
        let i = d / factor;
        assert((d as int) % f == 0) by (nonlinear_arith)
            requires
                ((g + phase) as int) % f == 0,
                (x as int) % f == 0,
                d == x - (g + phase),
                f > 0,
        {
            let a = ((g + phase) as int) / f;
            let b = (x as int) / f;
            assert(g + phase == a * f);
            assert(x == b * f);
            assert(d == (b - a) * f);
        }
        assert(i * factor == d) by (nonlinear_arith)
            requires
                f == factor,
                (d as int) % f == 0,
                i == (d as int) / f,
                f > 0,
        ;
        assert(skip <= len);
        let rest = (len - skip) as int;
        assert(d < rest);
        assert(i < (rest - 1) / f + 1) by (nonlinear_arith)
            requires
                i * f == d,
                d < rest,
                f > 0,
        {
            assert(d <= rest - 1);
            assert(i <= (rest - 1) / f);
        }
        assert(i < kept);
    }
}

} // verus!
