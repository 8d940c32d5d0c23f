//! Rate changes of a sampled signal: keeping every `factor`-th sample, and
//! spreading samples apart with filler between them.

use vstd::prelude::*;
use vstd::arithmetic::div_mod::*;

verus! {

/// Every `factor`-th sample of `s`, starting with the first.
pub open spec fn downsampled<T>(s: Seq<T>, factor: nat) -> Seq<T>
    recommends
        factor >= 1,
{
    Seq::new(((s.len() + factor - 1) / factor as int) as nat, |k: int| s[k * factor])
}

/// `s` with `factor - 1` copies of `zero` after each sample.
pub open spec fn upsampled<T>(s: Seq<T>, factor: nat, zero: T) -> Seq<T>
    recommends
        factor >= 1,
{
    Seq::new(s.len() * factor, |k: int| if k % factor as int == 0 { s[k / factor as int] } else { zero })
}

/// Keeps every `factor`-th sample of `signal`, starting with the first; the
/// result holds `ceil(len / factor)` samples.
pub fn downsample<T: Copy>(signal: &[T], factor: usize) -> (r: Vec<T>)
    requires
        factor >= 1,
    ensures
        r@ == downsampled(signal@, factor as nat),
        r@.len() == (signal@.len() + factor - 1) / (factor as int),
        r@.len() * factor >= signal@.len(),
        r@.len() == 0 || (r@.len() - 1) * factor < signal@.len(),
        forall|k: int| 0 <= k < r@.len() ==> k * factor < signal@.len() && #[trigger] r@[k] == signal@[k * factor],
        forall|i: int| 0 <= i < signal@.len() && i % (factor as int) == 0 ==> #[trigger] signal@[i] == r@[i / (factor as int)],
{
    let n = signal.len();
    let mut result: Vec<T> = Vec::new();
    let mut i: usize = 0;
    assert(result@.len() == 0);
    assert(0 * factor == 0);
    while i < n
        invariant
            n == signal@.len(),
            factor >= 1,
            i <= n,
            i < n ==> i == result@.len() * factor,
            i == n ==> result@.len() * factor >= n,
            result@.len() > 0 ==> (result@.len() - 1) * factor < n,
            result@.len() == 0 ==> i == 0,
            forall|j: int| 0 <= j < result@.len() ==> #[trigger] (j * factor) < n,
            forall|j: int| 0 <= j < result@.len() ==> #[trigger] result@[j] == signal@[j * factor],
        decreases n - i,
    {
        let ghost k = result@.len();
        result.push(signal[i]);
        proof {
            assert forall|j: int| 0 <= j < k + 1 implies #[trigger] (j * factor) < n by {
                if j == k {
                    assert(i == k * factor);
                }
            }
            assert forall|j: int| 0 <= j < k + 1 implies #[trigger] result@[j] == signal@[j * factor] by {
                if j < k {
                    assert(result@[j] == signal@[j * factor]);
                } else {
                    assert(j == k);
                    assert(i == k * factor);
                    assert(j * factor == k * factor);
                }
            }
            assert((k + 1) * factor == k * factor + factor) by (nonlinear_arith);
        }
        if n - i <= factor {
            i = n;
        } else {
            i = i + factor;
        }
    }
    proof {
        let k = result@.len() as int;
        if n == 0 {
            assert(k == 0);
            assert((factor - 1) / factor as int == 0) by (nonlinear_arith)
                requires factor >= 1;
        } else {
            assert(k == (n + factor - 1) / factor as int) by (nonlinear_arith)
                requires
                    k * factor >= n,
                    (k - 1) * factor < n,
                    factor >= 1,
                    n >= 1;
        }
    }
    assert(result@.len() == downsampled(signal@, factor as nat).len());
    assert forall|j: int| 0 <= j < result@.len() implies result@[j] == downsampled(signal@, factor as nat)[j] by {
        assert(result@[j] == signal@[j * factor]);
    }
    assert(result@ =~= downsampled(signal@, factor as nat));
    proof {
        lemma_downsampled_keeps_multiples(signal@, factor as nat);
    }
    result
}

/// Position `i * factor + t` with `t < factor` lies in block `i` at offset `t`.
proof fn lemma_block_position(i: int, t: int, factor: int)
    requires
        factor >= 1,
        0 <= t < factor,
    ensures
        (i * factor + t) / factor == i,
        (i * factor + t) % factor == t,
{
    lemma_fundamental_div_mod_converse(i * factor + t, factor, i, t);
}

/// Downsampling keeps exactly the samples at positions `0, factor, 2 * factor, ...`
/// below the length: there are `ceil(len / factor)` of them, entry `k` is the
/// sample at `k * factor`, and every sample at a multiple of `factor` appears,
/// at entry `i / factor`.
pub proof fn lemma_downsampled_keeps_multiples<T>(s: Seq<T>, factor: nat)
    requires
        factor >= 1,
    ensures
        downsampled(s, factor).len() == (s.len() + factor - 1) / (factor as int),
        downsampled(s, factor).len() * factor >= s.len(),
        downsampled(s, factor).len() == 0 || (downsampled(s, factor).len() - 1) * factor < s.len(),
        forall|k: int| 0 <= k < downsampled(s, factor).len() ==> #[trigger] downsampled(s, factor)[k] == s[k * factor],
        forall|i: int| 0 <= i < s.len() && i % (factor as int) == 0 ==> #[trigger] s[i] == downsampled(s, factor)[i / (factor as int)],
{
    let d = downsampled(s, factor);
    let f = factor as int;
    let n = s.len() as int;
    let c = (n + f - 1) / f;
    lemma_fundamental_div_mod(n + f - 1, f);
    assert(c >= 0 && c * f >= n && (c == 0 || (c - 1) * f < n)) by (nonlinear_arith)
        requires
            n + f - 1 == f * c + (n + f - 1) % f,
            0 <= (n + f - 1) % f < f,
            n >= 0,
            f >= 1;
    assert(d.len() == c);
    assert forall|k: int| 0 <= k < d.len() implies k * factor < s.len() && #[trigger] d[k] == s[k * factor] by {
        assert(k * f <= (c - 1) * f) by (nonlinear_arith)
            requires 0 <= k < c, f >= 1;
        assert(k * f < n);
        assert(d[k] == s[k * f]);
    }
    assert forall|i: int| 0 <= i < s.len() && i % f == 0 implies #[trigger] s[i] == d[i / f] by {
        lemma_fundamental_div_mod(i, f);
        let q = i / f;
        assert(0 <= q < c && q * f == i) by (nonlinear_arith)
            requires i == f * q + 0, 0 <= i < n, c * f >= n, f >= 1;
        assert(d[q] == s[q * f]);
    }
    assert(d.len() == (s.len() + factor - 1) / (factor as int));
    assert(d.len() * factor >= s.len());
    assert(d.len() == 0 || (d.len() - 1) * factor < s.len());
}

/// Upsampling places sample `k` at position `k * factor` and the filler at
/// every position that is not a multiple of `factor`; the result holds
/// `len * factor` entries.
pub proof fn lemma_upsampled_spreads_samples<T>(s: Seq<T>, factor: nat, zero: T)
    requires
        factor >= 1,
    ensures
        ({
            let u = upsampled(s, factor, zero);
            &&& u.len() == s.len() * factor
            &&& forall|k: int| 0 <= k < s.len() ==> #[trigger] u[k * factor] == s[k]
            &&& forall|k: int| 0 <= k < u.len() && k % (factor as int) != 0 ==> #[trigger] u[k] == zero
        }),
{
    let u = upsampled(s, factor, zero);
    assert forall|k: int| 0 <= k < s.len() implies #[trigger] u[k * factor] == s[k] by {
        lemma_block_position(k, 0, factor as int);
        assert(k * factor < s.len() * factor) by (nonlinear_arith)
            requires 0 <= k < s.len(), factor >= 1;
    }
}

/// Places the samples of `signal` `factor` positions apart, with `factor - 1`
/// copies of `zero` after each; the result holds `len * factor` samples.
pub fn upsample<T: Copy>(signal: &[T], factor: usize, zero: T) -> (r: Vec<T>)
    requires
        factor >= 1,
        signal@.len() * factor <= usize::MAX,
    ensures
        r@ == upsampled(signal@, factor as nat, zero),
        r@.len() == signal@.len() * factor,
        forall|k: int| 0 <= k < signal@.len() ==> #[trigger] r@[k * factor] == signal@[k],
        forall|k: int| 0 <= k < r@.len() && k % (factor as int) != 0 ==> #[trigger] r@[k] == zero,
{
    let n = signal.len();
    let mut result: Vec<T> = Vec::new();
    let mut i: usize = 0;
    while i < n
        invariant
            n == signal@.len(),
            factor >= 1,
            n * factor <= usize::MAX,
            i <= n,
            result@.len() == i * factor,
            forall|k: int| 0 <= k < i * factor ==> #[trigger] result@[k] == upsampled(signal@, factor as nat, zero)[k],
        decreases n - i,
    {
        proof {
            assert(i * factor + factor == (i + 1) * factor) by (nonlinear_arith);
            assert((i + 1) * factor <= n * factor) by (nonlinear_arith)
                requires i + 1 <= n, factor >= 1;
        }
        let ghost base = i * factor;
        result.push(signal[i]);
        proof {
            lemma_block_position(i as int, 0, factor as int);
            assert(result@[base as int] == upsampled(signal@, factor as nat, zero)[base as int]);
        }
        let mut t: usize = 1;
        while t < factor
            invariant
                n == signal@.len(),
                1 <= t <= factor,
                i < n,
                base == i * factor,
                base + factor <= n * factor,
                n * factor <= usize::MAX,
                result@.len() == base + t,
                forall|k: int| 0 <= k < base + t ==> #[trigger] result@[k] == upsampled(signal@, factor as nat, zero)[k],
            decreases factor - t,
        {
            result.push(zero);
            proof {
                lemma_block_position(i as int, t as int, factor as int);
            }
            t = t + 1;
        }
        i = i + 1;
    }
    assert(result@ =~= upsampled(signal@, factor as nat, zero));
    proof {
        lemma_upsampled_spreads_samples(signal@, factor as nat, zero);
    }
    result
}

/// Keeping every `factor`-th sample of an upsampled signal gives back the
/// signal: downsampling undoes upsampling by the same factor.
pub proof fn lemma_downsample_undoes_upsample<T>(s: Seq<T>, factor: nat, zero: T)
    requires
        factor >= 1,
    ensures
        downsampled(upsampled(s, factor, zero), factor) == s,
{
    let u = upsampled(s, factor, zero);
    assert((s.len() * factor + factor - 1) / factor as int == s.len()) by {
        lemma_block_position(s.len() as int, factor - 1, factor as int);
        assert(s.len() * factor + factor - 1 == s.len() * factor + (factor - 1));
    }
    assert forall|k: int| 0 <= k < s.len() implies #[trigger] downsampled(u, factor)[k] == s[k] by {
        lemma_block_position(k, 0, factor as int);
        assert(k * factor < s.len() * factor) by (nonlinear_arith)
            requires 0 <= k < s.len(), factor >= 1;
    }
    assert(downsampled(u, factor) =~= s);
}

} // verus!
