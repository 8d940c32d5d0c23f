//! Index arithmetic of FFT-based convolution: bit reversal and the
//! bit-reversal permutation, the butterflies of each radix-2 stage, transform
//! lengths, and the block layout of overlap-add and overlap-save.

use vstd::prelude::*;
use vstd::arithmetic::power2::*;
use vstd::arithmetic::div_mod::*;

verus! {

/// The number whose `bits` low binary digits are those of `x` in reverse order:
/// reversing the low `b + 1` digits appends digit `b` of `x` as the new least
/// significant digit.
pub open spec fn reverse_bits(x: nat, bits: nat) -> nat
    decreases bits,
{
    if bits == 0 {
        0
    } else {
        2 * reverse_bits(x, (bits - 1) as nat) + (x / pow2((bits - 1) as nat)) % 2
    }
}

/// The number of values a machine word holds.
pub open spec fn word_modulus() -> int {
    usize::MAX as int + 1
}

/// Reversing `b + 1` digits moves the lowest digit of `x` to the top and
/// reverses the remaining `b` digits below it.
proof fn lemma_reverse_bits_head(x: nat, b: nat)
    ensures
        reverse_bits(x, b + 1) == reverse_bits(x / 2, b) + (x % 2) * pow2(b),
    decreases b,
{
    lemma_pow2_unfold(b + 1);
    if b == 0 {
        lemma2_to64();
        assert(reverse_bits(x, 1) == 2 * reverse_bits(x, 0) + (x / pow2(0)) % 2);
        assert(reverse_bits(x / 2, 0) == 0);
    } else {
        let bm = (b - 1) as nat;
        lemma_reverse_bits_head(x, bm);
        assert(reverse_bits(x, b + 1) == 2 * reverse_bits(x, b) + (x / pow2(b)) % 2);
        lemma_pow2_pos(bm);
        lemma_div_denominator(x as int, 2, pow2(bm) as int);
        lemma_pow2_unfold(b);
        assert(reverse_bits(x / 2, b) == 2 * reverse_bits(x / 2, bm) + ((x / 2) / pow2(bm)) % 2);
        assert(pow2(b) == 2 * pow2(bm));
        assert((x % 2) * pow2(b) == 2 * ((x % 2) * pow2(bm))) by (nonlinear_arith)
            requires pow2(b) == 2 * pow2(bm);
    }
}

/// The reversal of `b` digits never reaches digit `b`.
proof fn lemma_reverse_bits_bound(x: nat, b: nat)
    ensures
        reverse_bits(x, b) < pow2(b),
    decreases b,
{
    if b == 0 {
        lemma2_to64();
    } else {
        lemma_reverse_bits_bound(x, (b - 1) as nat);
        lemma_pow2_unfold(b);
    }
}

/// Digits of `x` at position `b` and above do not take part in the reversal
/// of its `b` low digits.
proof fn lemma_reverse_bits_low_digits(x: nat, c: nat, b: nat)
    ensures
        reverse_bits(x + c * pow2(b), b) == reverse_bits(x, b),
    decreases b,
{
    if b > 0 {
        let bm = (b - 1) as nat;
        lemma_pow2_unfold(b);
        lemma_pow2_pos(bm);
        assert(c * pow2(b) == (2 * c) * pow2(bm)) by (nonlinear_arith)
            requires pow2(b) == 2 * pow2(bm);
        lemma_reverse_bits_low_digits(x, 2 * c, bm);
        lemma_hoist_over_denominator(x as int, 2 * c as int, pow2(bm));
        assert((x + c * pow2(b)) / pow2(bm) == 2 * c + x / pow2(bm));
        lemma_mod_multiples_vanish(c as int, (x / pow2(bm)) as int, 2);
        assert(reverse_bits(x + c * pow2(b), b) == 2 * reverse_bits(x + c * pow2(b), bm) + ((x + c * pow2(b)) / pow2(bm)) % 2);
    }
}

/// Digit `j` of the reversal of the `bits` low digits of `x` is digit
/// `bits - 1 - j` of `x`, and the reversal has no digit at `bits` or above.
pub proof fn lemma_reverse_bits_digits(x: nat, bits: nat, j: nat)
    requires
        j < bits,
    ensures
        (reverse_bits(x, bits) / pow2(j)) % 2 == (x / pow2((bits - 1 - j) as nat)) % 2,
        reverse_bits(x, bits) < pow2(bits),
    decreases bits,
{
    lemma_reverse_bits_bound(x, bits);
    let b = (bits - 1) as nat;
    let rr = reverse_bits(x, b);
    let d = (x / pow2(b)) % 2;
    lemma_pow2_pos(b);
    assert(reverse_bits(x, bits) == 2 * rr + d);
    if j == 0 {
        lemma2_to64();
    } else {
        let jm = (j - 1) as nat;
        lemma_reverse_bits_digits(x, b, jm);
        lemma_pow2_unfold(j);
        lemma_pow2_pos(jm);
        lemma_div_denominator((2 * rr + d) as int, 2, pow2(jm) as int);
        assert((2 * rr + d) / 2 == rr);
        assert((bits - 1 - j) as nat == (b - 1 - jm) as nat);
    }
}

/// Reverses the order of the low `bits` binary digits of `x`; the digits of
/// `x` above them are ignored. Where `bits` exceeds the width of a machine
/// word, the digits shifted past the top of the word are dropped.
pub fn bit_reverse(x: usize, bits: usize) -> (r: usize)
    ensures
        r as int == reverse_bits(x as nat, bits as nat) as int % word_modulus(),
        reverse_bits(x as nat, bits as nat) < word_modulus() ==> forall|j: nat| #![trigger pow2(j)] j < bits ==>
            (r as nat / pow2(j)) % 2 == (x as nat / pow2((bits - 1 - j) as nat)) % 2,
{
    let ghost x0 = x;
    let mut x = x;
    let mut result: usize = 0;
    let mut i: usize = 0;
    proof {
        lemma2_to64();
        assert(reverse_bits(x0 as nat, 0) == 0);
    }
    while i < bits
        invariant
            i <= bits,
            result as int == reverse_bits(x0 as nat, i as nat) as int % word_modulus(),
            x as int == x0 as int / pow2(i as nat) as int,
        decreases bits - i,
    {
        proof {
            assert(result as int * 2 % word_modulus() % 2 == 0) by {
                lemma_mod_breakdown(result as int * 2, 2, word_modulus() / 2);
            }
            lemma_pow2_pos(i as nat);
            lemma_add_mod_noop(2 * reverse_bits(x0 as nat, i as nat) as int, (x % 2) as int, word_modulus());
            lemma_mul_mod_noop_right(2, reverse_bits(x0 as nat, i as nat) as int, word_modulus());
            lemma_add_mod_noop(2 * (reverse_bits(x0 as nat, i as nat) as int % (word_modulus())), (x % 2) as int, word_modulus());
            lemma_div_denominator(x0 as int, pow2(i as nat) as int, 2);
            lemma_pow2_unfold((i + 1) as nat);
        }
        result = result.wrapping_mul(2) + x % 2;
        x = x / 2;
        i = i + 1;
    }
    proof {
        if reverse_bits(x0 as nat, bits as nat) < word_modulus() {
            lemma_small_mod(reverse_bits(x0 as nat, bits as nat), word_modulus() as nat);
            assert forall|j: nat| #![trigger pow2(j)] j < bits implies
                (result as nat / pow2(j)) % 2 == (x0 as nat / pow2((bits - 1 - j) as nat)) % 2 by {
                lemma_reverse_bits_digits(x0 as nat, bits as nat, j);
            }
        }
    }
    result
}

/// Reversing the same digits twice gives back the number: on the values
/// below `2^bits`, bit reversal is a bijection that is its own inverse.
pub proof fn lemma_reverse_bits_involutive(x: nat, bits: nat)
    requires
        x < pow2(bits),
    ensures
        reverse_bits(x, bits) < pow2(bits),
        reverse_bits(reverse_bits(x, bits), bits) == x,
    decreases bits,
{
    lemma_reverse_bits_bound(x, bits);
    if bits == 0 {
        lemma2_to64();
    } else {
        let bm = (bits - 1) as nat;
        lemma_pow2_unfold(bits);
        lemma_pow2_pos(bm);
        let z = reverse_bits(x / 2, bm);
        lemma_reverse_bits_bound(x / 2, bm);
        lemma_reverse_bits_head(x, bm);
        let y = reverse_bits(x, bits);
        assert(y == z + (x % 2) * pow2(bm));
        lemma_reverse_bits_low_digits(z, x % 2, bm);
        assert(x / 2 < pow2(bm));
        lemma_reverse_bits_involutive(x / 2, bm);
        assert(y / pow2(bm) == x % 2) by {
            lemma_div_multiples_vanish_fancy((x % 2) as int, z as int, pow2(bm) as int);
            assert(pow2(bm) * (x % 2) + z == y) by (nonlinear_arith)
                requires y == z + (x % 2) * pow2(bm);
        }
        assert(reverse_bits(y, bits) == 2 * reverse_bits(y, bm) + (y / pow2(bm)) % 2);
    }
}

/// The position of the highest binary digit of `n`, and 0 for `n < 2`.
pub open spec fn floor_log2(n: nat) -> nat
    decreases n,
{
    if n < 2 {
        0
    } else {
        1 + floor_log2(n / 2)
    }
}

/// A positive `n` lies between `2^floor_log2(n)` and the next power of two.
pub proof fn lemma_floor_log2_bounds(n: nat)
    requires
        n >= 1,
    ensures
        pow2(floor_log2(n)) <= n < pow2(floor_log2(n) + 1),
    decreases n,
{
    if n < 2 {
        lemma2_to64();
    } else {
        lemma_floor_log2_bounds(n / 2);
        lemma_pow2_unfold(floor_log2(n));
        lemma_pow2_unfold(floor_log2(n) + 1);
    }
}

/// Returns the position of the highest binary digit of `n` (the base-2
/// logarithm of `n`, rounded down), and 0 for `n` of 0 or 1.
pub fn log2_floor(n: usize) -> (r: usize)
    ensures
        r == floor_log2(n as nat),
        n >= 1 ==> pow2(r as nat) <= n < pow2(r as nat + 1),
        n < 2 ==> r == 0,
{
    let mut m = n;
    let mut r: usize = 0;
    while m >= 2
        invariant
            r + floor_log2(m as nat) == floor_log2(n as nat),
            r + m <= n,
        decreases m,
    {
        m = m / 2;
        r = r + 1;
    }
    proof {
        if n >= 1 {
            lemma_floor_log2_bounds(n as nat);
        }
    }
    r
}

/// Entry `j` of the bit-reversal permutation of `s`, with `b = floor_log2(|s|)`
/// and `P = 2^b`: positions `j < P` receive the entry whose low `b` digits
/// reverse to `j`, the later one where two entries share those digits (this
/// happens only when `|s|` is not a power of two); positions from `P` on keep
/// `fill`.
pub open spec fn bit_reversal_entry<T>(s: Seq<T>, fill: T, j: int) -> T {
    let b = floor_log2(s.len());
    let p = pow2(b);
    if j < p {
        let r = reverse_bits(j as nat, b);
        if r + p < s.len() {
            s[(r + p) as int]
        } else {
            s[r as int]
        }
    } else {
        fill
    }
}

/// Entry `j` after the first `done` entries of `s` have been written to the
/// positions given by their reversed low digits.
spec fn bit_reversal_partial<T>(s: Seq<T>, fill: T, done: nat, j: int) -> T {
    let b = floor_log2(s.len());
    let p = pow2(b);
    if j < p {
        let r = reverse_bits(j as nat, b);
        if r + p < done {
            s[(r + p) as int]
        } else if r < done {
            s[r as int]
        } else {
            fill
        }
    } else {
        fill
    }
}

/// Copies `input` into bit-reversed order: entry `i` goes to the position
/// whose binary digits are those of `i` reversed, over `floor_log2(n)` digits
/// for an input of length `n`. Positions that no entry reaches hold `fill`.
pub fn bit_reverse_copy<T: Copy>(input: &[T], fill: T) -> (r: Vec<T>)
    ensures
        r@.len() == input@.len(),
        forall|j: int| 0 <= j < input@.len() ==> #[trigger] r@[j] == bit_reversal_entry(input@, fill, j),
        forall|i: int| 0 <= i < input@.len() && input@.len() <= i + pow2(floor_log2(input@.len())) ==>
            r@[#[trigger] reverse_bits(i as nat, floor_log2(input@.len())) as int] == input@[i],
        forall|j: int| pow2(floor_log2(input@.len())) <= j < input@.len() ==> #[trigger] r@[j] == fill,
{
    let n = input.len();
    let bits = log2_floor(n);
    let ghost p = pow2(bits as nat);
    let mut result: Vec<T> = Vec::new();
    let mut k: usize = 0;
    while k < n
        invariant
            k <= n,
            n == input@.len(),
            result@.len() == k,
            forall|j: int| 0 <= j < k ==> #[trigger] result@[j] == fill,
        decreases n - k,
    {
        result.push(fill);
        k = k + 1;
    }
    proof {
        if n >= 1 {
            lemma_pow2_unfold(bits as nat + 1);
        }
        assert forall|j: int| 0 <= j < n implies #[trigger] result@[j] == bit_reversal_partial(input@, fill, 0, j) by {
            if j < p {
                lemma_reverse_bits_bound(j as nat, bits as nat);
            }
        }
    }
    let mut i: usize = 0;
    while i < n
        invariant
            i <= n,
            n == input@.len(),
            bits == floor_log2(n as nat),
            p == pow2(bits as nat),
            n >= 1 ==> p <= n < 2 * p,
            result@.len() == n,
            forall|j: int| 0 <= j < n ==> #[trigger] result@[j] == bit_reversal_partial(input@, fill, i as nat, j),
        decreases n - i,
    {
        let j = bit_reverse(i, bits);
        let ghost r0: nat = if i < p { i as nat } else { (i - p) as nat };
        proof {
            if i >= p {
                lemma_reverse_bits_low_digits(r0, 1, bits as nat);
            }
            lemma_reverse_bits_involutive(r0, bits as nat);
            assert(reverse_bits(i as nat, bits as nat) == reverse_bits(r0, bits as nat));
            lemma_small_mod(reverse_bits(r0, bits as nat), word_modulus() as nat);
        }
        let ghost before = result@;
        result.set(j, input[i]);
        proof {
            assert forall|jj: int| 0 <= jj < n implies #[trigger] result@[jj] == bit_reversal_partial(input@, fill, (i + 1) as nat, jj) by {
                if jj != j && jj < p {
                    lemma_reverse_bits_involutive(jj as nat, bits as nat);
                    assert(before[jj] == bit_reversal_partial(input@, fill, i as nat, jj));
                }
            }
        }
        i = i + 1;
    }
    proof {
        assert forall|j: int| 0 <= j < n implies #[trigger] result@[j] == bit_reversal_entry(input@, fill, j) by {
            assert(result@[j] == bit_reversal_partial(input@, fill, n as nat, j));
            if j < p {
                lemma_reverse_bits_bound(j as nat, bits as nat);
            }
        }
        assert forall|i: int| 0 <= i < n && n <= i + p implies
            result@[#[trigger] reverse_bits(i as nat, bits as nat) as int] == input@[i] by {
            lemma_floor_log2_bounds(n as nat);
            let r0: nat = if i < p { i as nat } else { (i - p) as nat };
            if i >= p {
                lemma_reverse_bits_low_digits(r0, 1, bits as nat);
            }
            lemma_reverse_bits_involutive(r0, bits as nat);
            assert(reverse_bits(i as nat, bits as nat) == reverse_bits(r0, bits as nat));
            let j = reverse_bits(r0, bits as nat) as int;
            assert(result@[j] == bit_reversal_entry(input@, fill, j));
        }
    }
    result
}

/// On an input whose length is a power of two, the bit-reversal permutation
/// moves entry `i` to position `reverse_bits(i)` and takes entry `j` from
/// position `reverse_bits(j)`: every entry arrives exactly once.
pub proof fn lemma_bit_reversal_permutes<T>(s: Seq<T>, fill: T, bits: nat)
    requires
        s.len() == pow2(bits),
    ensures
        floor_log2(s.len()) == bits,
        forall|j: int| 0 <= j < s.len() ==> #[trigger] bit_reversal_entry(s, fill, j) == s[reverse_bits(j as nat, bits) as int],
        forall|i: int| 0 <= i < s.len() ==> bit_reversal_entry(s, fill, #[trigger] reverse_bits(i as nat, bits) as int) == s[i],
{
    lemma_pow2_pos(bits);
    lemma_floor_log2_bounds(s.len());
    let b = floor_log2(s.len());
    lemma_pow2_unfold(b + 1);
    lemma_pow2_unfold(bits + 1);
    if b < bits {
        lemma_pow2_strictly_increases(b + 1, bits);
    } else if b > bits {
        lemma_pow2_strictly_increases(bits, b);
    }
    assert forall|j: int| 0 <= j < s.len() implies #[trigger] bit_reversal_entry(s, fill, j) == s[reverse_bits(j as nat, bits) as int] by {
        lemma_reverse_bits_bound(j as nat, bits);
    }
    assert forall|i: int| 0 <= i < s.len() implies bit_reversal_entry(s, fill, #[trigger] reverse_bits(i as nat, bits) as int) == s[i] by {
        lemma_reverse_bits_involutive(i as nat, bits);
    }
}

/// `r` is a power of two.
pub open spec fn is_power_of_two(r: nat) -> bool {
    exists|k: nat| r == pow2(k)
}

/// Returns the smallest power of two that is at least `x` (1 for `x` of 0).
pub fn next_power_of_two(x: usize) -> (r: usize)
    requires
        x <= usize::MAX / 2 + 1,
    ensures
        is_power_of_two(r as nat),
        r >= x,
        r == 1 || r / 2 < x,
{
    let mut r: usize = 1;
    let ghost mut k: nat = 0;
    proof {
        lemma2_to64();
    }
    while r < x
        invariant
            x <= usize::MAX / 2 + 1,
            r == pow2(k),
            r >= 1,
            r == 1 || r / 2 < x,
        decreases usize::MAX - r,
    {
        proof {
            lemma_pow2_unfold(k + 1);
        }
        r = r * 2;
        proof {
            k = k + 1;
        }
    }
    r
}

/// Transform length used by block convolution: the smallest power of two
/// that holds a block of `block_size` samples followed by the `kernel_len`
/// samples of its convolution tail.
pub fn overlap_fft_size(block_size: usize, kernel_len: usize) -> (r: usize)
    requires
        kernel_len + block_size <= usize::MAX / 2 + 1,
    ensures
        is_power_of_two(r as nat),
        r >= kernel_len + block_size,
        r == 1 || r / 2 < kernel_len + block_size,
{
    let a = next_power_of_two(block_size);
    let b = next_power_of_two(kernel_len + block_size);
    if a > b {
        a
    } else {
        b
    }
}

/// The starts `0, step, 2 * step, ...` of the blocks of `step` samples that
/// cover positions `0..limit`.
pub open spec fn block_starts_seq(limit: nat, step: nat) -> Seq<int>
    recommends
        step >= 1,
{
    Seq::new(((limit + step - 1) / step as int) as nat, |k: int| k * step)
}

/// Returns the starts `0, step, 2 * step, ...` of the blocks of `step`
/// samples that cover positions `0..limit`: every multiple of `step` below
/// `limit`, in increasing order.
pub fn block_starts(limit: usize, step: usize) -> (r: Vec<usize>)
    requires
        step >= 1,
    ensures
        r@.len() == block_starts_seq(limit as nat, step as nat).len(),
        forall|k: int| 0 <= k < r@.len() ==> #[trigger] r@[k] == block_starts_seq(limit as nat, step as nat)[k],
        forall|k: int| 0 <= k < r@.len() ==> #[trigger] r@[k] < limit,
        forall|k: int| 0 <= k < r@.len() ==> #[trigger] r@[k] == k * step,
        r@.len() * step >= limit,
        r@.len() == 0 || (r@.len() - 1) * step < limit,
{
    let mut result: Vec<usize> = Vec::new();
    let mut pos: usize = 0;
    assert(0 * step == 0);
    while pos < limit
        invariant
            step >= 1,
            pos <= limit,
            pos < limit ==> pos == result@.len() * step,
            pos == limit ==> result@.len() * step >= limit,
            result@.len() > 0 ==> (result@.len() - 1) * step < limit,
            result@.len() == 0 ==> pos == 0,
            forall|k: int| 0 <= k < result@.len() ==> #[trigger] result@[k] == k * step && result@[k] < limit,
        decreases limit - pos,
    {
        let ghost k = result@.len();
        result.push(pos);
        proof {
            assert((k + 1) * step == k * step + step) by (nonlinear_arith);
        }
        if limit - pos <= step {
            pos = limit;
        } else {
            pos = pos + step;
        }
    }
    proof {
        let k = result@.len() as int;
        if limit == 0 {
            assert((step - 1) / step as int == 0) by (nonlinear_arith)
                requires step >= 1;
        } else {
            assert(k == (limit + step - 1) / step as int) by (nonlinear_arith)
                requires
                    k * step >= limit,
                    (k - 1) * step < limit,
                    step >= 1,
                    limit >= 1;
        }
    }
    result
}

/// Overlap-add splits the signal into blocks of `block_size` samples that
/// tile it (sample `i` lies in block `i / block_size` and no other), and the
/// linear convolution of each block with the kernel fits in the transform
/// length, so no block wraps around in its circular convolution.
pub proof fn lemma_overlap_add_blocks(signal_len: nat, block_size: nat, kernel_len: nat, fft_size: nat)
    requires
        block_size >= 1,
        kernel_len >= 1,
        fft_size >= kernel_len + block_size,
    ensures
        ({
            let starts = block_starts_seq(signal_len, block_size);
            &&& forall|i: int| #![trigger i / (block_size as int)] 0 <= i < signal_len ==> {
                let k = i / (block_size as int);
                &&& 0 <= k < starts.len()
                &&& starts[k] <= i < starts[k] + block_size
                &&& forall|k2: int| 0 <= k2 < starts.len() && #[trigger] starts[k2] <= i < starts[k2] + block_size ==> k2 == k
            }
            &&& forall|k: int| #![trigger starts[k]] 0 <= k < starts.len() ==> {
                let block_len = if signal_len - starts[k] < block_size { signal_len - starts[k] } else { block_size as int };
                &&& 0 < block_len
                &&& block_len + kernel_len - 1 <= fft_size
            }
        }),
{
    let starts = block_starts_seq(signal_len, block_size);
    let b = block_size as int;
    assert forall|i: int| #![trigger i / b] 0 <= i < signal_len implies {
        let k = i / b;
        &&& 0 <= k < starts.len()
        &&& starts[k] <= i < starts[k] + block_size
        &&& forall|k2: int| 0 <= k2 < starts.len() && #[trigger] starts[k2] <= i < starts[k2] + block_size ==> k2 == k
    } by {
        let k = i / b;
        lemma_fundamental_div_mod(i, b);
        assert(0 <= k * b <= i < k * b + b) by (nonlinear_arith)
            requires i == b * k + i % b, 0 <= i % b < b, i >= 0, b >= 1;
        assert(k < (signal_len + b - 1) / b) by (nonlinear_arith)
            requires k * b <= i, i < signal_len, b >= 1;
        assert(k >= 0) by (nonlinear_arith)
            requires k * b >= 0, b >= 1;
        assert forall|k2: int| 0 <= k2 < starts.len() && #[trigger] starts[k2] <= i < starts[k2] + block_size implies k2 == k by {
            assert(starts[k2] == k2 * b);
            assert(k2 == k) by (nonlinear_arith)
                requires k2 * b <= i < k2 * b + b, k * b <= i < k * b + b, b >= 1;
        }
    }
    assert forall|k: int| #![trigger starts[k]] 0 <= k < starts.len() implies {
        let block_len = if signal_len - starts[k] < block_size { signal_len - starts[k] } else { block_size as int };
        &&& 0 < block_len
        &&& block_len + kernel_len - 1 <= fft_size
    } by {
        assert(k * b < signal_len) by (nonlinear_arith)
            requires 0 <= k < (signal_len + b - 1) / b, b >= 1;
        assert(starts[k] == k * b);
    }
}

/// Overlap-save steps through the zero-prefixed signal `fft_size - kernel_len + 1`
/// samples at a time, and keeps that many samples of each block: the blocks
/// together yield at least the `signal_len + kernel_len - 1` samples of the
/// full convolution.
pub proof fn lemma_overlap_save_covers(signal_len: nat, kernel_len: nat, fft_size: nat)
    requires
        kernel_len >= 1,
        fft_size >= kernel_len,
    ensures
        ({
            let step = (fft_size - (kernel_len - 1)) as nat;
            let starts = block_starts_seq(signal_len + fft_size, step);
            &&& step >= 1
            &&& starts.len() * step >= signal_len + kernel_len - 1
        }),
{
    let step = (fft_size - (kernel_len - 1)) as nat;
    let limit = signal_len + fft_size;
    let c = (limit + step - 1) / step as int;
    lemma_fundamental_div_mod(limit + step - 1, step as int);
    assert(c * step >= limit) by (nonlinear_arith)
        requires
            limit + step - 1 == step * c + (limit + step - 1) % (step as int),
            (limit + step - 1) % (step as int) < step,
            step >= 1;
}

/// Butterfly `idx` of the radix-2 stage that combines sub-transforms of
/// `size / 2` points into transforms of `size` points: the positions it
/// combines and the index of its twiddle factor. Butterflies are numbered
/// block by block, `size / 2` per block of `size` positions.
pub open spec fn butterfly(size: nat, idx: int) -> (int, int, int) {
    let half = size as int / 2;
    let start = (idx / half) * size;
    let k = idx % half;
    (start + k, start + k + half, k)
}

/// Returns the butterflies of the radix-2 stage of `size` points over `n`
/// positions, block by block: for each block start `0, size, 2 * size, ...`
/// and each `k < size / 2`, the positions `start + k` and
/// `start + k + size / 2` together with the twiddle index `k`.
pub fn butterfly_pairs(n: usize, size: usize) -> (r: Vec<(usize, usize, usize)>)
    requires
        size >= 2,
        size % 2 == 0,
        n % size == 0,
    ensures
        r@.len() == n / 2,
        forall|idx: int| 0 <= idx < r@.len() ==> {
            let b = butterfly(size as nat, idx);
            &&& (#[trigger] r@[idx]).0 == b.0
            &&& r@[idx].1 == b.1
            &&& r@[idx].2 == b.2
        },
        forall|idx: int| 0 <= idx < r@.len() ==> {
            &&& (#[trigger] r@[idx]).2 == idx % (size as int / 2)
            &&& r@[idx].2 == r@[idx].0 % size
            &&& r@[idx].0 == (idx / (size as int / 2)) * size + idx % (size as int / 2)
            &&& r@[idx].1 == r@[idx].0 + size as int / 2
            &&& r@[idx].1 < n
        },
{
    let half = size / 2;
    let mut result: Vec<(usize, usize, usize)> = Vec::new();
    let mut start: usize = 0;
    let ghost mut blocks: int = 0;
    assert(0 * size == 0);
    while start < n
        invariant
            size >= 2,
            size % 2 == 0,
            n % size == 0,
            half == size / 2,
            start == blocks * size,
            start <= n,
            blocks >= 0,
            result@.len() == blocks * half,
            forall|idx: int| 0 <= idx < result@.len() ==> {
                let b = butterfly(size as nat, idx);
                &&& (#[trigger] result@[idx]).0 == b.0
                &&& result@[idx].1 == b.1
                &&& result@[idx].2 == b.2
            },
        decreases n - start,
    {
        proof {
            lemma_fundamental_div_mod(n as int, size as int);
            lemma_fundamental_div_mod(start as int, size as int);
            assert(start + size <= n) by (nonlinear_arith)
                requires
                    start == blocks * size,
                    start < n,
                    n == size * (n as int / size as int),
                    size >= 2;
        }
        let mut k: usize = 0;
        while k < half
            invariant
                size >= 2,
                half == size / 2,
                size == 2 * half,
                start == blocks * size,
                start + size <= n,
                blocks >= 0,
                k <= half,
                result@.len() == blocks * half + k,
                forall|idx: int| 0 <= idx < result@.len() ==> {
                    let b = butterfly(size as nat, idx);
                    &&& (#[trigger] result@[idx]).0 == b.0
                    &&& result@[idx].1 == b.1
                    &&& result@[idx].2 == b.2
                },
            decreases half - k,
        {
            proof {
                let idx = blocks * half + k;
                lemma_fundamental_div_mod_converse(idx, half as int, blocks, k as int);
                assert((idx / half as int) * size == start);
            }
            result.push((start + k, start + k + half, k));
            k = k + 1;
        }
        proof {
            assert((blocks + 1) * size == blocks * size + size) by (nonlinear_arith);
            assert((blocks + 1) * half == blocks * half + half) by (nonlinear_arith);
            blocks = blocks + 1;
        }
        start = start + size;
    }
    proof {
        lemma_fundamental_div_mod(n as int, size as int);
        assert(blocks * half == n / 2) by (nonlinear_arith)
            requires
                start == blocks * size,
                start == n,
                size == 2 * half,
                half >= 1;
        assert forall|idx: int| 0 <= idx < result@.len() implies {
            &&& (#[trigger] result@[idx]).2 == idx % (size as int / 2)
            &&& result@[idx].2 == result@[idx].0 % size
            &&& result@[idx].0 == (idx / (size as int / 2)) * size + idx % (size as int / 2)
            &&& result@[idx].1 == result@[idx].0 + size as int / 2
            &&& result@[idx].1 < n
        } by {
            lemma_butterfly_layout(n as nat, size as nat, idx);
        }
    }
    result
}

/// Layout of a radix-2 stage of `size` points: butterfly `idx` lies in block
/// `idx / (size / 2)`; its first position sits at offset `idx % (size / 2)` of
/// that block, its second position `size / 2` further on, and its twiddle
/// index is the offset of its first position in the block, so the twiddle
/// index runs through `0..size / 2` in every block.
pub proof fn lemma_butterfly_layout(n: nat, size: nat, idx: int)
    requires
        size >= 2,
        size % 2 == 0,
        n % size == 0,
        0 <= idx < n / 2,
    ensures
        ({
            let half = size as int / 2;
            let b = butterfly(size, idx);
            &&& b.2 == idx % half
            &&& 0 <= b.2 < half
            &&& b.0 == (idx / half) * size + idx % half
            &&& b.0 % (size as int) == b.2
            &&& b.0 / (size as int) == idx / half
            &&& b.1 == b.0 + half
            &&& 0 <= b.0 < b.1 < n
        }),
{
    let half = size as int / 2;
    let sz = size as int;
    let q = idx / half;
    let k = idx % half;
    lemma_fundamental_div_mod(idx, half);
    lemma_fundamental_div_mod(n as int, sz);
    assert(0 <= k < half);
    assert(q >= 0) by (nonlinear_arith)
        requires idx == half * q + k, 0 <= k < half, idx >= 0;
    lemma_fundamental_div_mod_converse(q * sz + k, sz, q, k);
    assert(q * sz + k + half < n) by (nonlinear_arith)
        requires
            idx == half * q + k,
            0 <= k < half,
            sz == 2 * half,
            idx < n / 2,
            n == sz * (n as int / sz),
            q >= 0;
    assert(q * sz >= 0) by (nonlinear_arith) requires q >= 0, sz >= 2;
}

/// The butterfly of the radix-2 stage of `size` points that touches position
/// `i`: the butterfly of its block whose offset is `i`'s offset in the block,
/// taken modulo `size / 2`.
pub open spec fn butterfly_owner(size: nat, i: int) -> int {
    let half = size as int / 2;
    let o = i % (size as int);
    (i / (size as int)) * half + if o < half { o } else { o - half }
}

/// The butterflies of one radix-2 stage touch every position exactly once:
/// position `i` is the first position of its owning butterfly when its offset
/// in its block is below `size / 2` and the second position otherwise, and no
/// other butterfly touches it. So a stage may update its positions in place.
#[verifier::spinoff_prover]
pub proof fn lemma_butterflies_partition(n: nat, size: nat, i: int)
    requires
        size >= 2,
        size % 2 == 0,
        n % size == 0,
        0 <= i < n,
    ensures
        0 <= butterfly_owner(size, i) < n / 2,
        i % (size as int) < size as int / 2 ==> butterfly(size, butterfly_owner(size, i)).0 == i,
        i % (size as int) >= size as int / 2 ==> butterfly(size, butterfly_owner(size, i)).1 == i,
        forall|idx: int| 0 <= idx < n / 2 && idx != butterfly_owner(size, i) ==>
            #[trigger] butterfly(size, idx).0 != i && butterfly(size, idx).1 != i,
{
    let half = size as int / 2;
    let sz = size as int;
    let q = i / sz;
    let o = i % sz;
    let r = if o < half { o } else { o - half };
    let owner = q * half + r;
    assert(owner == butterfly_owner(size, i));
    lemma_fundamental_div_mod(i, sz);
    lemma_fundamental_div_mod(n as int, sz);
    assert(sz == 2 * half);
    assert(0 <= r < half);
    lemma_fundamental_div_mod_converse(owner, half, q, r);
    assert(0 <= q && q < n as int / sz) by (nonlinear_arith)
        requires i == sz * q + o, 0 <= o < sz, 0 <= i < n, n == sz * (n as int / sz), sz >= 2;
    assert(0 <= owner < n / 2) by (nonlinear_arith)
        requires
            owner == q * half + r,
            0 <= r < half,
            0 <= q < n as int / sz,
            sz == 2 * half,
            n == sz * (n as int / sz),
            half >= 1;
    assert(q * sz == sz * q) by (nonlinear_arith);
    assert(owner / half == q && owner % half == r);
    if o < half {
        assert(butterfly(size, owner).0 == q * sz + r);
    } else {
        assert(butterfly(size, owner).1 == q * sz + r + half);
    }
    assert forall|idx: int| 0 <= idx < n / 2 && idx != owner implies
        #[trigger] butterfly(size, idx).0 != i && butterfly(size, idx).1 != i by {
        let q2 = idx / half;
        let k2 = idx % half;
        lemma_fundamental_div_mod(idx, half);
        if butterfly(size, idx).0 == i || butterfly(size, idx).1 == i {
            let off = if butterfly(size, idx).0 == i { k2 } else { k2 + half };
            assert(i == q2 * sz + off);
            lemma_fundamental_div_mod_converse(i, sz, q2, off);
            assert(q2 == q && off == o);
            assert(k2 == r);
            assert(idx == owner) by (nonlinear_arith)
                requires idx == half * q2 + k2, owner == q * half + r, q2 == q, k2 == r;
        }
    }
}

} // verus!
