//! What the fast transform computes: in exact arithmetic, its passes give
//! the sums of the direct transform, bin for bin.

use crate::fft::after_passes;
use crate::fft::bit_reversal;
use crate::fft::bit_reversed;
use crate::fft::is_pass;
use crate::fft::lemma_bit_reversal_entry;
use crate::fft::lemma_last_pass;
use crate::fft::lemma_no_pass;
use crate::fft::lemma_pow2_divides;
use crate::fft::lemma_pow2_halves;
use crate::fft::top;
use vstd::arithmetic::power2::is_pow2;
use vstd::prelude::*;

verus! {

/// An arithmetic on values of type `T`: sum, difference and product, the
/// zero, and the powers of the root of unity that a transform turns by.
/// `root(e)` is the twiddle factor of exponent `e`.
#[verifier::reject_recursive_types(T)]
pub struct Arithmetic<T> {
    pub plus: spec_fn(T, T) -> T,
    pub minus: spec_fn(T, T) -> T,
    pub times: spec_fn(T, T) -> T,
    pub zero: T,
    pub root: spec_fn(int) -> T,
}

/// The arithmetic is exact, and `root` gives the powers of a root of unity of
/// order `n`: sums may be regrouped and reordered, products regrouped and
/// multiplied out, the powers multiply as their exponents add, they repeat
/// after `n` steps, and, where `n` is two at least, half a turn changes the
/// sign.
#[verifier::opaque]
pub open spec fn is_exact<T>(a: Arithmetic<T>, n: int) -> bool {
    &&& forall|x: T, y: T| #[trigger] (a.plus)(x, y) == (a.plus)(y, x)
    &&& forall|x: T, y: T, z: T|
        #![trigger (a.plus)((a.plus)(x, y), z)]
        (a.plus)((a.plus)(x, y), z) == (a.plus)(x, (a.plus)(y, z))
    &&& forall|x: T| #[trigger] (a.plus)(a.zero, x) == x
    &&& forall|t: T| #[trigger] (a.times)(a.zero, t) == a.zero
    &&& forall|x: T| #[trigger] (a.times)(x, (a.root)(0)) == x
    &&& forall|x: T, y: T, t: T|
        #![trigger (a.times)((a.plus)(x, y), t)]
        (a.times)((a.plus)(x, y), t) == (a.plus)((a.times)(x, t), (a.times)(y, t))
    &&& forall|x: T, s: T, t: T|
        #![trigger (a.times)((a.times)(x, s), t)]
        (a.times)((a.times)(x, s), t) == (a.times)(x, (a.times)(s, t))
    &&& forall|d: int, e: int|
        #![trigger (a.times)((a.root)(d), (a.root)(e))]
        d >= 0 && e >= 0 ==> (a.times)((a.root)(d), (a.root)(e)) == (a.root)(d + e)
    &&& forall|e: int| e >= 0 ==> #[trigger] (a.root)(e + n) == (a.root)(e)
    &&& forall|u: T, l: T, e: int|
        #![trigger (a.minus)(u, (a.times)(l, (a.root)(e)))]
        e >= 0 && n >= 2 ==> (a.minus)(u, (a.times)(l, (a.root)(e))) == (a.plus)(
            u,
            (a.times)(l, (a.root)(e + n / 2)),
        )
}

/// The integers with their sum, difference and product, and the powers of
/// minus one as the powers of the root.
pub open spec fn integers() -> Arithmetic<int> {
    Arithmetic {
        plus: |x: int, y: int| x + y,
        minus: |x: int, y: int| x - y,
        times: |x: int, y: int| x * y,
        zero: 0,
        root: |e: int|
            if e % 2 == 0 {
                1int
            } else {
                -1int
            },
    }
}

/// The integers are an exact arithmetic for transforms of two samples: minus
/// one is a root of unity of order two.
pub proof fn lemma_integers_are_exact()
    ensures
        is_exact(integers(), 2),
{
    let a = integers();
    assert forall|x: int, y: int, t: int|
        #![trigger (a.times)((a.plus)(x, y), t)]
        (a.times)((a.plus)(x, y), t) == (a.plus)((a.times)(x, t), (a.times)(y, t)) by {
        vstd::arithmetic::mul::lemma_mul_is_distributive_add_other_way(t, x, y);
    }
    assert forall|x: int, s: int, t: int|
        #![trigger (a.times)((a.times)(x, s), t)]
        (a.times)((a.times)(x, s), t) == (a.times)(x, (a.times)(s, t)) by {
        vstd::arithmetic::mul::lemma_mul_is_associative(x, s, t);
    }
    assert forall|u: int, l: int, e: int|
        #![trigger (a.minus)(u, (a.times)(l, (a.root)(e)))]
        e >= 0 implies (a.minus)(u, (a.times)(l, (a.root)(e))) == (a.plus)(
        u,
        (a.times)(l, (a.root)(e + 2int / 2)),
    ) by {
        assert(l * 1 == l && l * (-1) == -l) by (nonlinear_arith);
    }
    reveal(is_exact);
}

/// The sum of the first `count` terms of a direct transform over every
/// `stride`-th sample from `offset` on: term `j` is sample `offset + stride *
/// j` times the twiddle factor of exponent `stride * j * k`.
#[verifier::opaque]
pub open spec fn direct_sum<T>(
    a: Arithmetic<T>,
    x: Seq<T>,
    offset: int,
    stride: int,
    k: int,
    count: int,
) -> T
    decreases count,
{
    if count <= 0 {
        a.zero
    } else {
        (a.plus)(
            direct_sum(a, x, offset, stride, k, count - 1),
            (a.times)(x[offset + stride * (count - 1)], (a.root)(stride * (count - 1) * k)),
        )
    }
}

/// Bin `k` of the direct transform of `x`: the sum over all samples `t` of
/// sample `t` times the twiddle factor of exponent `t * k`.
pub open spec fn dft_bin<T>(a: Arithmetic<T>, x: Seq<T>, k: int) -> T {
    direct_sum(a, x, 0, 1, k, x.len() as int)
}

/// `butterfly` is the exact butterfly: from the upper entry `u`, the lower
/// entry `l` and the twiddle factor `t` it gives `u + l * t` and `u - l * t`.
pub open spec fn is_exact_butterfly<T, F: Fn(T, T, T) -> (T, T)>(
    a: Arithmetic<T>,
    butterfly: F,
) -> bool {
    forall|u: T, l: T, t: T, r: (T, T)|
        #[trigger] call_ensures(butterfly, (u, l, t), r) ==> r.0 == (a.plus)(u, (a.times)(l, t))
            && r.1 == (a.minus)(u, (a.times)(l, t))
}

/// Sums may be reordered.
proof fn lemma_plus_commutes<T>(a: Arithmetic<T>, n: int, x: T, y: T)
    requires
        is_exact(a, n),
    ensures
        (a.plus)(x, y) == (a.plus)(y, x),
{
    reveal(is_exact);
}

/// Sums may be regrouped.
proof fn lemma_plus_regroups<T>(a: Arithmetic<T>, n: int, x: T, y: T, z: T)
    requires
        is_exact(a, n),
    ensures
        (a.plus)((a.plus)(x, y), z) == (a.plus)(x, (a.plus)(y, z)),
{
    reveal(is_exact);
}

/// Zero adds nothing, and its products are zero.
proof fn lemma_zero<T>(a: Arithmetic<T>, n: int, x: T)
    requires
        is_exact(a, n),
    ensures
        (a.plus)(a.zero, x) == x,
        (a.times)(a.zero, x) == a.zero,
{
    reveal(is_exact);
}

/// The power of exponent zero changes no factor.
proof fn lemma_times_unit<T>(a: Arithmetic<T>, n: int, x: T)
    requires
        is_exact(a, n),
    ensures
        (a.times)(x, (a.root)(0)) == x,
{
    reveal(is_exact);
}

/// Products of sums may be multiplied out.
proof fn lemma_times_distributes<T>(a: Arithmetic<T>, n: int, x: T, y: T, t: T)
    requires
        is_exact(a, n),
    ensures
        (a.times)((a.plus)(x, y), t) == (a.plus)((a.times)(x, t), (a.times)(y, t)),
{
    reveal(is_exact);
}

/// Products may be regrouped.
proof fn lemma_times_regroups<T>(a: Arithmetic<T>, n: int, x: T, s: T, t: T)
    requires
        is_exact(a, n),
    ensures
        (a.times)((a.times)(x, s), t) == (a.times)(x, (a.times)(s, t)),
{
    reveal(is_exact);
}

/// The powers of the root multiply as their exponents add.
proof fn lemma_roots_multiply<T>(a: Arithmetic<T>, n: int, d: int, e: int)
    requires
        is_exact(a, n),
        d >= 0,
        e >= 0,
    ensures
        (a.times)((a.root)(d), (a.root)(e)) == (a.root)(d + e),
{
    reveal(is_exact);
}

/// The powers of the root repeat after `n` steps.
proof fn lemma_full_turn<T>(a: Arithmetic<T>, n: int, e: int)
    requires
        is_exact(a, n),
        e >= 0,
    ensures
        (a.root)(e + n) == (a.root)(e),
{
    reveal(is_exact);
}

/// Half a turn of the twiddle factor turns a difference into a sum.
proof fn lemma_half_turn<T>(a: Arithmetic<T>, n: int, u: T, l: T, e: int)
    requires
        is_exact(a, n),
        e >= 0,
        n >= 2,
    ensures
        (a.minus)(u, (a.times)(l, (a.root)(e))) == (a.plus)(
            u,
            (a.times)(l, (a.root)(e + n / 2)),
        ),
{
    reveal(is_exact);
}

/// The twiddle factors repeat after `n` steps, and so after any number of
/// times `n` steps.
proof fn lemma_root_repeats<T>(a: Arithmetic<T>, n: int, e: int, turns: int)
    requires
        is_exact(a, n),
        n >= 0,
        e >= 0,
        turns >= 0,
    ensures
        (a.root)(e + n * turns) == (a.root)(e),
    decreases turns,
{
    if turns > 0 {
        lemma_root_repeats(a, n, e, turns - 1);
        let before = e + n * (turns - 1);
        assert(before >= 0 && before + n == e + n * turns) by (nonlinear_arith)
            requires
                before == e + n * (turns - 1),
                e >= 0,
                n >= 0,
                turns >= 1,
        ;
        lemma_full_turn(a, n, before);
    } else {
        assert(n * 0 == 0);
    }
}

/// A transform over `len` samples that lie `stride` apart, where `stride *
/// len` is the order of the root, has the same bin `k + len` as bin `k`.
proof fn lemma_bins_repeat<T>(
    a: Arithmetic<T>,
    n: int,
    x: Seq<T>,
    offset: int,
    stride: int,
    k: int,
    len: int,
    count: int,
)
    requires
        is_exact(a, n),
        stride >= 0,
        k >= 0,
        len >= 0,
        stride * len == n,
        count >= 0,
    ensures
        direct_sum(a, x, offset, stride, k + len, count) == direct_sum(
            a,
            x,
            offset,
            stride,
            k,
            count,
        ),
    decreases count,
{
    reveal(direct_sum);
    if count > 0 {
        lemma_bins_repeat(a, n, x, offset, stride, k, len, count - 1);
        let j = count - 1;
        let e = stride * j * k;
        assert(e >= 0 && stride * j * (k + len) == e + n * j) by (nonlinear_arith)
            requires
                e == stride * j * k,
                stride >= 0,
                j >= 0,
                k >= 0,
                stride * len == n,
        ;
        assert(n >= 0) by (nonlinear_arith)
            requires
                stride >= 0,
                len >= 0,
                stride * len == n,
        ;
        lemma_root_repeats(a, n, e, j);
    }
}

/// Regrouping four terms of a sum: `((p + q) + e) + o` is `(p + e) + (q + o)`.
proof fn lemma_regroup<T>(a: Arithmetic<T>, n: int, p: T, q: T, e: T, o: T)
    requires
        is_exact(a, n),
    ensures
        (a.plus)((a.plus)((a.plus)(p, q), e), o) == (a.plus)((a.plus)(p, e), (a.plus)(q, o)),
{
    lemma_plus_regroups(a, n, p, q, e);
    lemma_plus_commutes(a, n, q, e);
    lemma_plus_regroups(a, n, p, e, q);
    lemma_plus_regroups(a, n, (a.plus)(p, e), q, o);
}

/// A sum over `2 * count` samples splits into the sum over those at even
/// places and, times a twiddle factor, the sum over those at odd places.
proof fn lemma_even_odd_split<T>(
    a: Arithmetic<T>,
    n: int,
    x: Seq<T>,
    offset: int,
    stride: int,
    k: int,
    count: int,
)
    requires
        is_exact(a, n),
        stride >= 0,
        k >= 0,
        count >= 0,
    ensures
        direct_sum(a, x, offset, stride, k, 2 * count) == (a.plus)(
            direct_sum(a, x, offset, 2 * stride, k, count),
            (a.times)(
                direct_sum(a, x, offset + stride, 2 * stride, k, count),
                (a.root)(stride * k),
            ),
        ),
    decreases count,
{
    reveal(direct_sum);
    let t = (a.root)(stride * k);
    if count <= 0 {
        lemma_zero(a, n, t);
        lemma_zero(a, n, a.zero);
    } else {
        let c = count - 1;
        lemma_even_odd_split(a, n, x, offset, stride, k, c);
        let evens = direct_sum(a, x, offset, 2 * stride, k, c);
        let odds = direct_sum(a, x, offset + stride, 2 * stride, k, c);
        let even_term = (a.times)(x[offset + (2 * stride) * c], (a.root)((2 * stride) * c * k));
        let odd_sample = x[offset + stride + (2 * stride) * c];
        let odd_term = (a.times)(odd_sample, (a.root)((2 * stride) * c * k));
        // the two last terms of the whole sum
        let last_even = (a.times)(x[offset + stride * (2 * c)], (a.root)(stride * (2 * c) * k));
        let last_odd = (a.times)(
            x[offset + stride * (2 * c + 1)],
            (a.root)(stride * (2 * c + 1) * k),
        );
        assert(stride * (2 * c) == (2 * stride) * c && stride * (2 * c) * k == (2 * stride) * c
            * k && stride * (2 * c + 1) == stride + (2 * stride) * c && stride * (2 * c + 1) * k
            == (2 * stride) * c * k + stride * k && (2 * stride) * c * k >= 0 && stride * k >= 0)
            by (nonlinear_arith)
            requires
                stride >= 0,
                k >= 0,
                c >= 0,
        ;
        assert(last_even == even_term);
        assert(2 * count - 1 == 2 * c + 1 && 2 * count - 2 == 2 * c);
        let whole_before = direct_sum(a, x, offset, stride, k, 2 * c);
        assert(direct_sum(a, x, offset, stride, k, 2 * c + 1) == (a.plus)(whole_before, last_even));
        assert(direct_sum(a, x, offset, stride, k, 2 * count) == (a.plus)(
            (a.plus)(whole_before, last_even),
            last_odd,
        ));
        assert(whole_before == (a.plus)(evens, (a.times)(odds, t)));
        assert((a.times)(odd_term, t) == last_odd) by {
            lemma_times_regroups(a, n, odd_sample, (a.root)((2 * stride) * c * k), t);
            lemma_roots_multiply(a, n, (2 * stride) * c * k, stride * k);
        }
        lemma_times_distributes(a, n, odds, odd_term, t);
        lemma_regroup(a, n, evens, (a.times)(odds, t), even_term, last_odd);
        assert(direct_sum(a, x, offset, 2 * stride, k, count) == (a.plus)(evens, even_term));
        assert(direct_sum(a, x, offset + stride, 2 * stride, k, count) == (a.plus)(
            odds,
            odd_term,
        ));
    }
}

/// One butterfly joins two transforms into one of twice the length: from
/// bin `k` of the transform of the samples at even places and bin `k` of the
/// transform of those at odd places it gives bin `k` and bin `k + half` of
/// the transform of them all.
proof fn lemma_butterfly_joins<T>(
    a: Arithmetic<T>,
    n: int,
    input: Seq<T>,
    start: int,
    m: int,
    half: int,
    k: int,
    upper: T,
    lower: T,
)
    requires
        is_exact(a, n),
        m >= 1,
        half >= 1,
        n == 2 * (m * half),
        0 <= k < half,
        upper == (a.plus)(
            direct_sum(a, input, start, 2 * m, k, half),
            (a.times)(direct_sum(a, input, start + m, 2 * m, k, half), (a.root)(m * k)),
        ),
        lower == (a.minus)(
            direct_sum(a, input, start, 2 * m, k, half),
            (a.times)(direct_sum(a, input, start + m, 2 * m, k, half), (a.root)(m * k)),
        ),
    ensures
        upper == direct_sum(a, input, start, m, k, 2 * half),
        lower == direct_sum(a, input, start, m, k + half, 2 * half),
{
    let evens = direct_sum(a, input, start, 2 * m, k, half);
    let odds = direct_sum(a, input, start + m, 2 * m, k, half);
    lemma_even_odd_split(a, n, input, start, m, k, half);
    lemma_even_odd_split(a, n, input, start, m, k + half, half);
    assert((2 * m) * half == n && m * (k + half) == m * k + m * half && m * k >= 0 && n >= 2)
        by (nonlinear_arith)
        requires
            n == 2 * (m * half),
            m >= 1,
            half >= 1,
            k >= 0,
    ;
    lemma_bins_repeat(a, n, input, start, 2 * m, k, half, half);
    lemma_bins_repeat(a, n, input, start + m, 2 * m, k, half, half);
    assert(n / 2 == m * half);
    lemma_half_turn(a, n, evens, odds, m * k);
}

/// A single sample is its own transform.
proof fn lemma_sample_is_transform<T>(a: Arithmetic<T>, n: int, input: Seq<T>, start: int)
    requires
        is_exact(a, n),
    ensures
        input[start] == direct_sum(a, input, start, n, 0, 1),
{
    reveal(direct_sum);
    assert(n * 0 == 0 && n * 0 * 0 == 0) by (nonlinear_arith);
    assert(direct_sum(a, input, start, n, 0, 0) == a.zero);
    assert(direct_sum(a, input, start, n, 0, 1) == (a.plus)(
        a.zero,
        (a.times)(input[start + n * 0], (a.root)(n * 0 * 0)),
    ));
    lemma_times_unit(a, n, input[start]);
    lemma_zero(a, n, input[start]);
}

/// Every block of `len` entries of `state` holds a transform of its own:
/// block `b` holds the direct transform of the `len` samples of `input` that
/// lie `n / len` apart, from the sample at the bit reversal of `b` on.
#[verifier::opaque]
pub open spec fn blocks_hold_transforms<T>(
    a: Arithmetic<T>,
    input: Seq<T>,
    len: int,
    state: Seq<T>,
) -> bool {
    &&& state.len() == input.len()
    &&& forall|b: int, k: int|
        #![trigger top(b, len, k)]
        0 <= b < input.len() as int / len && 0 <= k < len ==> state[top(b, len, k)] == direct_sum(
            a,
            input,
            bit_reversed(b, input.len() as int / len),
            input.len() as int / len,
            k,
            len,
        )
}

/// A whole of `n` entries in `m` blocks of two halves each.
proof fn lemma_block_products(n: int, len: int, m: int, half: int)
    requires
        n == len * m,
        len == 2 * half,
    ensures
        n == 2 * (m * half),
        n == half * (2 * m),
        n == (2 * m) * half,
{
    assert(n == 2 * (m * half) && n == half * (2 * m) && n == (2 * m) * half) by (nonlinear_arith)
        requires
            n == len * m,
            len == 2 * half,
    ;
}

/// Blocks of half the length are twice as many.
proof fn lemma_block_quotients(n: int, len: int)
    requires
        is_pow2(n),
        is_pow2(len),
        2 <= len <= n,
    ensures
        len == 2 * (len / 2),
        len / 2 >= 1,
        n / len >= 1,
        n == len * (n / len),
        n / (len / 2) == 2 * (n / len),
        n / 2 == (n / len) * (len / 2),
{
    let half = len / 2;
    let m = n / len;
    lemma_pow2_halves(len);
    lemma_pow2_divides(half, n);
    vstd::arithmetic::div_mod::lemma_fundamental_div_mod(n, len);
    assert(m >= 1) by (nonlinear_arith)
        requires
            n == len * m,
            len >= 2,
            n >= len,
    ;
    lemma_block_products(n, len, m, half);
    vstd::arithmetic::div_mod::lemma_fundamental_div_mod_converse(n, half, 2 * m, 0);
}

/// Entry `k` of block `b` is entry `k` of the first of its two halves, and
/// half a block further lies entry `k` of the second.
proof fn lemma_half_block_tops(len: int, half: int, b: int, k: int)
    requires
        len == 2 * half,
    ensures
        top(2 * b, half, k) == top(b, len, k),
        top(2 * b + 1, half, k) == top(b, len, k) + half,
        top(b, len, k + half) == top(b, len, k) + half,
{
    assert((2 * b) * half + k == b * len + k && (2 * b + 1) * half + k == b * len + k + half)
        by (nonlinear_arith)
        requires
            len == 2 * half,
    ;
}

/// The two halves of block `b` start at the reversal of `b` and one step of
/// the stride after it.
proof fn lemma_reversal_of_halves(m: int, b: int)
    requires
        m >= 1,
        b >= 0,
    ensures
        bit_reversed(2 * b, 2 * m) == bit_reversed(b, m),
        bit_reversed(2 * b + 1, 2 * m) == m + bit_reversed(b, m),
{
    assert((2 * b) % 2 == 0 && (2 * b) / 2 == b && (2 * b + 1) % 2 == 1 && (2 * b + 1) / 2 == b
        && (2 * m) / 2 == m);
    assert(0 * m == 0 && 1 * m == m) by (nonlinear_arith);
}

/// The twiddle factor of butterfly `k` lies in the table.
proof fn lemma_twiddle_in_range(m: int, half: int, k: int)
    requires
        0 <= k < half,
        m >= 1,
    ensures
        0 <= k * m < m * half,
        k * m == m * k,
{
    vstd::arithmetic::mul::lemma_mul_strict_inequality(k, half, m);
    vstd::arithmetic::mul::lemma_mul_is_commutative(k, m);
    vstd::arithmetic::mul::lemma_mul_is_commutative(half, m);
    vstd::arithmetic::mul::lemma_mul_nonnegative(k, m);
}

/// How a block of `len` entries is made of two blocks of half the length.
proof fn lemma_block_halves(n: int, len: int, b: int, k: int)
    requires
        is_pow2(n),
        is_pow2(len),
        2 <= len <= n,
        0 <= b < n / len,
        0 <= k < len / 2,
    ensures
        len == 2 * (len / 2),
        n / len >= 1,
        n == 2 * ((n / len) * (len / 2)),
        n / (len / 2) == 2 * (n / len),
        top(2 * b, len / 2, k) == top(b, len, k),
        top(2 * b + 1, len / 2, k) == top(b, len, k) + len / 2,
        top(b, len, k + len / 2) == top(b, len, k) + len / 2,
        0 <= k * (n / len) < n / 2,
        k * (n / len) == (n / len) * k,
        bit_reversed(2 * b, 2 * (n / len)) == bit_reversed(b, n / len),
        bit_reversed(2 * b + 1, 2 * (n / len)) == n / len + bit_reversed(b, n / len),
{
    lemma_block_quotients(n, len);
    lemma_block_products(n, len, n / len, len / 2);
    lemma_half_block_tops(len, len / 2, b, k);
    lemma_reversal_of_halves(n / len, b);
    lemma_twiddle_in_range(n / len, len / 2, k);
}

/// What one butterfly of a pass is given, and what it gives, when the blocks
/// before the pass hold transforms.
proof fn lemma_pass_reads_transforms<T, F: Fn(T, T, T) -> (T, T)>(
    a: Arithmetic<T>,
    butterfly: F,
    twiddles: Seq<T>,
    input: Seq<T>,
    len: int,
    prev: Seq<T>,
    state: Seq<T>,
    b: int,
    k: int,
)
    requires
        is_pow2(input.len() as int),
        is_exact_butterfly(a, butterfly),
        twiddles.len() == input.len() / 2,
        forall|j: int| 0 <= j < twiddles.len() ==> #[trigger] twiddles[j] == (a.root)(j),
        is_pow2(len),
        2 <= len <= input.len(),
        blocks_hold_transforms(a, input, len / 2, prev),
        is_pass(butterfly, twiddles, prev, state, len),
        0 <= b < input.len() as int / len,
        0 <= k < len / 2,
    ensures
        ({
            let m = input.len() as int / len;
            let start = bit_reversed(b, m);
            let evens = direct_sum(a, input, start, 2 * m, k, len / 2);
            let odds = direct_sum(a, input, start + m, 2 * m, k, len / 2);
            &&& state[top(b, len, k)] == (a.plus)(evens, (a.times)(odds, (a.root)(m * k)))
            &&& state[top(b, len, k) + len / 2] == (a.minus)(
                evens,
                (a.times)(odds, (a.root)(m * k)),
            )
        }),
{
    reveal(blocks_hold_transforms);
    let n = input.len() as int;
    let half = len / 2;
    let m = n / len;
    let start = bit_reversed(b, m);
    lemma_block_halves(n, len, b, k);
    let evens = direct_sum(a, input, start, 2 * m, k, half);
    let odds = direct_sum(a, input, start + m, 2 * m, k, half);
    assert(prev[top(2 * b, half, k)] == evens);
    assert(prev[top(2 * b + 1, half, k)] == odds);
    assert(twiddles[k * m] == (a.root)(k * m));
    assert(prev.len() as int / len == m);
    assert(call_ensures(
        butterfly,
        (prev[top(b, len, k)], prev[top(b, len, k) + len / 2], twiddles[k * m]),
        (state[top(b, len, k)], state[top(b, len, k) + len / 2]),
    ));
}

/// One butterfly of a pass joins entry `k` of two neighbouring blocks that
/// hold transforms into entries `k` and `k + len / 2` of their transform.
proof fn lemma_pass_joins_entries<T, F: Fn(T, T, T) -> (T, T)>(
    a: Arithmetic<T>,
    butterfly: F,
    twiddles: Seq<T>,
    input: Seq<T>,
    len: int,
    prev: Seq<T>,
    state: Seq<T>,
    b: int,
    k: int,
)
    requires
        is_pow2(input.len() as int),
        is_exact(a, input.len() as int),
        is_exact_butterfly(a, butterfly),
        twiddles.len() == input.len() / 2,
        forall|j: int| 0 <= j < twiddles.len() ==> #[trigger] twiddles[j] == (a.root)(j),
        is_pow2(len),
        2 <= len <= input.len(),
        blocks_hold_transforms(a, input, len / 2, prev),
        is_pass(butterfly, twiddles, prev, state, len),
        0 <= b < input.len() as int / len,
        0 <= k < len / 2,
    ensures
        state[top(b, len, k)] == direct_sum(
            a,
            input,
            bit_reversed(b, input.len() as int / len),
            input.len() as int / len,
            k,
            len,
        ),
        state[top(b, len, k + len / 2)] == direct_sum(
            a,
            input,
            bit_reversed(b, input.len() as int / len),
            input.len() as int / len,
            k + len / 2,
            len,
        ),
{
    let n = input.len() as int;
    let m = n / len;
    lemma_block_halves(n, len, b, k);
    lemma_pass_reads_transforms(a, butterfly, twiddles, input, len, prev, state, b, k);
    lemma_butterfly_joins(
        a,
        n,
        input,
        bit_reversed(b, m),
        m,
        len / 2,
        k,
        state[top(b, len, k)],
        state[top(b, len, k) + len / 2],
    );
}

/// A pass over blocks that hold transforms leaves blocks of twice the length
/// that hold transforms.
proof fn lemma_pass_joins_transforms<T, F: Fn(T, T, T) -> (T, T)>(
    a: Arithmetic<T>,
    butterfly: F,
    twiddles: Seq<T>,
    input: Seq<T>,
    len: int,
    prev: Seq<T>,
    state: Seq<T>,
)
    requires
        is_pow2(input.len() as int),
        is_exact(a, input.len() as int),
        is_exact_butterfly(a, butterfly),
        twiddles.len() == input.len() / 2,
        forall|j: int| 0 <= j < twiddles.len() ==> #[trigger] twiddles[j] == (a.root)(j),
        is_pow2(len),
        2 <= len <= input.len(),
        blocks_hold_transforms(a, input, len / 2, prev),
        is_pass(butterfly, twiddles, prev, state, len),
    ensures
        blocks_hold_transforms(a, input, len, state),
{
    let n = input.len() as int;
    let m = n / len;
    lemma_pow2_halves(len);
    assert(state.len() == input.len()) by {
        reveal(blocks_hold_transforms);
    }
    assert forall|b: int, k: int| 0 <= b < m && 0 <= k < len implies state[#[trigger] top(
        b,
        len,
        k,
    )] == direct_sum(a, input, bit_reversed(b, m), m, k, len) by {
        if k < len / 2 {
            lemma_pass_joins_entries(a, butterfly, twiddles, input, len, prev, state, b, k);
        } else {
            lemma_pass_joins_entries(
                a,
                butterfly,
                twiddles,
                input,
                len,
                prev,
                state,
                b,
                k - len / 2,
            );
        }
    }
    reveal(blocks_hold_transforms);
}

/// Before the first pass, every entry is a block that holds the transform of
/// one sample.
proof fn lemma_samples_are_transforms<T>(a: Arithmetic<T>, input: Seq<T>)
    requires
        is_exact(a, input.len() as int),
    ensures
        blocks_hold_transforms(a, input, 1, bit_reversal(input)),
{
    let n = input.len() as int;
    let state = bit_reversal(input);
    assert(state.len() == n && n / 1 == n);
    assert forall|b: int, k: int| 0 <= b < n / 1 && 0 <= k < 1 implies state[#[trigger] top(
        b,
        1,
        k,
    )] == direct_sum(a, input, bit_reversed(b, n / 1), n / 1, k, 1) by {
        lemma_bit_reversal_entry(input, b);
        lemma_sample_is_transform(a, n, input, bit_reversed(b, n));
        assert(top(b, 1, k) == b);
    }
    reveal(blocks_hold_transforms);
}

/// After the passes over blocks of up to `len` entries, every block of `len`
/// entries holds a transform.
proof fn lemma_passes_leave_transforms<T, F: Fn(T, T, T) -> (T, T)>(
    a: Arithmetic<T>,
    butterfly: F,
    twiddles: Seq<T>,
    input: Seq<T>,
    len: int,
    state: Seq<T>,
)
    requires
        is_pow2(input.len() as int),
        is_exact(a, input.len() as int),
        is_exact_butterfly(a, butterfly),
        twiddles.len() == input.len() / 2,
        forall|j: int| 0 <= j < twiddles.len() ==> #[trigger] twiddles[j] == (a.root)(j),
        is_pow2(len),
        len <= input.len(),
        after_passes(butterfly, twiddles, bit_reversal(input), len, state),
    ensures
        blocks_hold_transforms(a, input, len, state),
    decreases len,
{
    lemma_pow2_halves(len);
    if len <= 1 {
        lemma_no_pass(butterfly, twiddles, bit_reversal(input), len, state);
        lemma_samples_are_transforms(a, input);
    } else {
        lemma_last_pass(butterfly, twiddles, bit_reversal(input), len, state);
        let prev = choose|prev: Seq<T>|
            after_passes(butterfly, twiddles, bit_reversal(input), len / 2, prev)
                && #[trigger] is_pass(butterfly, twiddles, prev, state, len);
        lemma_passes_leave_transforms(a, butterfly, twiddles, input, len / 2, prev);
        lemma_pass_joins_transforms(a, butterfly, twiddles, input, len, prev, state);
    }
}

/// The fast transform is the direct transform. If the arithmetic is exact,
/// the twiddle factors are the powers of a root of unity of the order of the
/// block, and the butterfly is the exact one, then the passes of the fast
/// transform leave in entry `k` what direct summation gives for bin `k`: the
/// two transforms agree on every bin.
pub proof fn lemma_fast_transform_is_direct<T, F: Fn(T, T, T) -> (T, T)>(
    a: Arithmetic<T>,
    butterfly: F,
    twiddles: Seq<T>,
    input: Seq<T>,
    output: Seq<T>,
)
    requires
        is_pow2(input.len() as int),
        is_exact(a, input.len() as int),
        is_exact_butterfly(a, butterfly),
        twiddles.len() == input.len() / 2,
        forall|j: int| 0 <= j < twiddles.len() ==> #[trigger] twiddles[j] == (a.root)(j),
        after_passes(butterfly, twiddles, bit_reversal(input), input.len() as int, output),
    ensures
        output.len() == input.len(),
        forall|k: int| 0 <= k < input.len() ==> #[trigger] output[k] == dft_bin(a, input, k),
{
    let n = input.len() as int;
    lemma_passes_leave_transforms(a, butterfly, twiddles, input, n, output);
    lemma_pow2_halves(n);
    vstd::arithmetic::div_mod::lemma_div_by_self(n);
    reveal(blocks_hold_transforms);
    assert forall|k: int| 0 <= k < n implies #[trigger] output[k] == dft_bin(a, input, k) by {
        assert(top(0, n, k) == k) by (nonlinear_arith)
            requires
                top(0, n, k) == 0 * n + k,
        ;
        assert(bit_reversed(0, 1) == 0);
    }
}

} // verus!
