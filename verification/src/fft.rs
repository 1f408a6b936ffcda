//! The index structure of the radix-2 transform: working sizes, the
//! bit-reversal permutation, the butterfly passes, and the split of the output
//! bins among workers.

use vstd::arithmetic::power2::is_pow2;
use vstd::prelude::*;

verus! {

/// The two transforms: direct summation, and the radix-2 fast transform.
#[allow(non_camel_case_types)]
#[derive(PartialEq, Eq, Structural, Clone, Copy, Debug)]
pub enum DftType {
    /// Direct summation over every sample for every bin.
    NAIVE,
    /// The radix-2 fast transform on a zero-padded block.
    FFT,
}

/// The transform to build: the requested one, or direct summation where the
/// caller names none.
pub fn chosen_dft(dft_type: Option<DftType>) -> (r: DftType)
    ensures
        r == match dft_type {
            Some(t) => t,
            None => DftType::NAIVE,
        },
{
    match dft_type {
        Some(t) => t,
        None => DftType::NAIVE,
    }
}

/// A power of two is even unless it is one, and its half is a power of two.
pub proof fn lemma_pow2_halves(n: int)
    requires
        is_pow2(n),
    ensures
        n >= 1,
        n > 1 ==> n % 2 == 0 && is_pow2(n / 2),
{
    reveal(is_pow2);
}

/// Twice a power of two is a power of two.
pub proof fn lemma_pow2_doubles(n: int)
    requires
        is_pow2(n),
    ensures
        is_pow2(2 * n),
{
    reveal(is_pow2);
}

/// Of two different powers of two, the larger is a multiple of twice the
/// smaller.
pub proof fn lemma_pow2_divides(small: int, large: int)
    requires
        is_pow2(small),
        is_pow2(large),
        small < large,
    ensures
        large % (2 * small) == 0,
        2 * small <= large,
    decreases small,
{
    lemma_pow2_halves(small);
    lemma_pow2_halves(large);
    if small == 1 {
    } else {
        lemma_pow2_divides(small / 2, large / 2);
        let c = (large / 2) / small;
        vstd::arithmetic::div_mod::lemma_fundamental_div_mod(large / 2, small);
        assert(large == (2 * small) * c) by (nonlinear_arith)
            requires
                large / 2 == small * c,
                large % 2 == 0,
        ;
        vstd::arithmetic::div_mod::lemma_mod_multiples_basic(c, 2 * small);
    }
    if 2 * small > large {
        vstd::arithmetic::div_mod::lemma_small_mod(large as nat, (2 * small) as nat);
    }
}

/// The largest block size that can still be padded to a power of two that a
/// `usize` holds.
pub open spec fn max_padded() -> int {
    usize::MAX / 2 + 1
}

/// The working size of a fast transform of `buffer_size` samples: the least
/// power of two that is not below `buffer_size`. The block is zero-padded to
/// this size.
pub fn padded_size(buffer_size: usize) -> (r: usize)
    requires
        0 < buffer_size <= max_padded(),
    ensures
        is_pow2(r as int),
        buffer_size <= r < 2 * buffer_size,
        forall|p: int| #[trigger] is_pow2(p) && p >= buffer_size ==> r <= p,
{
    let mut padded: usize = 1;
    proof {
        reveal(is_pow2);
    }
    while padded < buffer_size
        invariant
            is_pow2(padded as int),
            padded < 2 * buffer_size,
            0 < buffer_size <= max_padded(),
        decreases 2 * buffer_size - padded,
    {
        proof {
            lemma_pow2_halves(padded as int);
            lemma_pow2_doubles(padded as int);
        }
        padded = 2 * padded;
    }
    proof {
        assert forall|p: int| #[trigger] is_pow2(p) && p >= buffer_size implies padded <= p by {
            if p < padded {
                lemma_pow2_divides(p, padded as int);
            }
        }
    }
    padded
}

/// The index whose binary digits are those of `x` in reverse order, both
/// taken as numbers below `n`, a power of two.
pub open spec fn bit_reversed(x: int, n: int) -> int
    decreases n,
{
    if n <= 1 {
        0
    } else {
        (x % 2) * (n / 2) + bit_reversed(x / 2, n / 2)
    }
}

/// Reversing the digits of an index below `n` gives an index below `n`.
pub proof fn lemma_bit_reversed_bound(x: int, n: int)
    requires
        is_pow2(n),
        0 <= x < n,
    ensures
        0 <= bit_reversed(x, n) < n,
    decreases n,
{
    lemma_pow2_halves(n);
    if n > 1 {
        let h = n / 2;
        lemma_bit_reversed_bound(x / 2, h);
        assert((x % 2) * h == 0 || (x % 2) * h == h) by (nonlinear_arith)
            requires
                x % 2 == 0 || x % 2 == 1,
        ;
    }
}

/// Index zero is its own reversal.
pub proof fn lemma_bit_reversed_zero(n: int)
    ensures
        bit_reversed(0, n) == 0,
    decreases n,
{
    if n > 1 {
        lemma_bit_reversed_zero(n / 2);
        assert(0int / 2 == 0 && 0int % 2 == 0);
        assert(0 * (n / 2) == 0) by (nonlinear_arith);
    }
}

/// The reversal read from the other end: the leading digit of `x` becomes
/// the last digit of its reversal.
pub proof fn lemma_bit_reversed_leading(x: int, n: int)
    requires
        is_pow2(n),
        n >= 2,
        0 <= x < n,
    ensures
        bit_reversed(x, n) == 2 * bit_reversed(x % (n / 2), n / 2) + x / (n / 2),
    decreases n,
{
    lemma_pow2_halves(n);
    let h = n / 2;
    lemma_pow2_halves(h);
    if h == 1 {
        assert(bit_reversed(x / 2, 1) == 0);
        assert(bit_reversed(x % 1, 1) == 0);
    } else {
        let q = h / 2;
        let a = x / h;
        let r = x % h;
        vstd::arithmetic::div_mod::lemma_fundamental_div_mod(x, h);
        assert(0 <= a <= 1) by (nonlinear_arith)
            requires
                x == h * a + r,
                0 <= r < h,
                0 <= x < 2 * h,
        ;
        // the digits of x / 2 and of x % h
        assert(x / 2 == q * a + r / 2 && x % 2 == r % 2) by (nonlinear_arith)
            requires
                x == h * a + r,
                h == 2 * q,
                0 <= r,
        ;
        assert(r / 2 < q);
        vstd::arithmetic::div_mod::lemma_fundamental_div_mod_converse(x / 2, q, a, r / 2);
        lemma_bit_reversed_leading(x / 2, h);
        assert(bit_reversed(x / 2, h) == 2 * bit_reversed(r / 2, q) + a);
        assert(bit_reversed(r, h) == (r % 2) * q + bit_reversed(r / 2, q));
        assert((x % 2) * h == 2 * ((r % 2) * q)) by (nonlinear_arith)
            requires
                x % 2 == r % 2,
                h == 2 * q,
        ;
    }
}

/// Reversing the digits twice gives the index back.
pub proof fn lemma_bit_reversed_involution(x: int, n: int)
    requires
        is_pow2(n),
        0 <= x < n,
    ensures
        bit_reversed(bit_reversed(x, n), n) == x,
    decreases n,
{
    lemma_pow2_halves(n);
    if n > 1 {
        let h = n / 2;
        let low = bit_reversed(x / 2, h);
        let r = bit_reversed(x, n);
        lemma_bit_reversed_bound(x / 2, h);
        lemma_bit_reversed_bound(x, n);
        lemma_bit_reversed_involution(x / 2, h);
        lemma_bit_reversed_leading(r, n);
        assert(r == h * (x % 2) + low) by (nonlinear_arith)
            requires
                r == (x % 2) * h + low,
        ;
        vstd::arithmetic::div_mod::lemma_fundamental_div_mod_converse(r, h, x % 2, low);
    }
}

/// A block in bit-reversed order: entry `j` is the entry of `block` at the
/// reversal of `j`.
pub open spec fn bit_reversal<T>(block: Seq<T>) -> Seq<T> {
    Seq::new(block.len(), |j: int| block[bit_reversed(j, block.len() as int)])
}

/// Entry `j` of a block in bit-reversed order is the entry of the block at
/// the reversal of `j`.
pub proof fn lemma_bit_reversal_entry<T>(block: Seq<T>, j: int)
    requires
        0 <= j < block.len(),
    ensures
        bit_reversal(block).len() == block.len(),
        bit_reversal(block)[j] == block[bit_reversed(j, block.len() as int)],
{
}

/// Reorders a block whose length is a power of two into bit-reversed order,
/// in place.
pub fn bit_reverse_permute<T: Copy>(buffer: &mut [T])
    requires
        is_pow2(old(buffer)@.len() as int),
    ensures
        final(buffer)@ == bit_reversal(old(buffer)@),
{
    let n: usize = buffer.len();
    if n == 1 {
        assert(buffer@ =~= bit_reversal(old(buffer)@));
        return ;
    }
    proof {
        lemma_pow2_halves(n as int);
        lemma_bit_reversed_zero(n as int);
        assert forall|x: int| 0 < x < n implies bit_reversed(x, n as int) >= 1 by {
            lemma_bit_reversed_involution(x, n as int);
            lemma_bit_reversed_bound(x, n as int);
        }
    }
    // `i` runs through the reversals of `j`: it is counted up from the
    // leading digit, as `j` is from the last.
    let mut i: usize = 0;
    let mut j: usize = 1;
    while j < n
        invariant
            1 <= j <= n,
            n >= 2,
            is_pow2(n as int),
            buffer@.len() == n,
            old(buffer)@.len() == n,
            i == bit_reversed(j - 1, n as int),
            forall|x: int|
                0 <= x < n ==> #[trigger] buffer@[x] == if x < j || bit_reversed(x, n as int) < j {
                    old(buffer)@[bit_reversed(x, n as int)]
                } else {
                    old(buffer)@[x]
                },
        decreases n - j,
    {
        proof {
            lemma_pow2_halves(n as int);
        }
        let mut bit: usize = n / 2;
        let ghost mut y: int = j - 1;
        let ghost mut s: int = n as int;
        while i >= bit
            invariant
                is_pow2(s),
                s == 2 * bit,
                s <= n,
                0 <= y < s - 1,
                i == bit_reversed(y, s),
                bit_reversed(j as int, n as int) == bit_reversed(y + 1, s),
            decreases bit,
        {
            proof {
                lemma_pow2_halves(s);
                lemma_pow2_halves(s / 2);
                lemma_bit_reversed_bound(y / 2, s / 2);
                assert(y % 2 == 1) by (nonlinear_arith)
                    requires
                        i == (y % 2) * bit + bit_reversed(y / 2, s / 2),
                        bit_reversed(y / 2, s / 2) < bit,
                        i >= bit,
                        y % 2 == 0 || y % 2 == 1,
                ;
                assert(bit_reversed(y + 1, s) == ((y + 1) % 2) * (s / 2) + bit_reversed(
                    (y + 1) / 2,
                    s / 2,
                ));
                assert((y + 1) % 2 == 0 && (y + 1) / 2 == y / 2 + 1);
                assert(((y + 1) % 2) * (s / 2) == 0) by (nonlinear_arith)
                    requires
                        (y + 1) % 2 == 0,
                ;
                assert(i - bit == bit_reversed(y / 2, s / 2)) by (nonlinear_arith)
                    requires
                        i == (y % 2) * bit + bit_reversed(y / 2, s / 2),
                        y % 2 == 1,
                ;
                y = y / 2;
                s = s / 2;
            }
            i -= bit;
            bit /= 2;
        }
        proof {
            lemma_pow2_halves(s);
            lemma_bit_reversed_bound(y / 2, s / 2);
            assert(y % 2 == 0) by (nonlinear_arith)
                requires
                    i == (y % 2) * bit + bit_reversed(y / 2, s / 2),
                    0 <= bit_reversed(y / 2, s / 2),
                    i < bit,
                    y % 2 == 0 || y % 2 == 1,
            ;
            assert(bit_reversed(y + 1, s) == ((y + 1) % 2) * (s / 2) + bit_reversed(
                (y + 1) / 2,
                s / 2,
            ));
            assert((y + 1) % 2 == 1 && (y + 1) / 2 == y / 2);
            assert(i + bit == bit_reversed(y + 1, s)) by (nonlinear_arith)
                requires
                    i == (y % 2) * bit + bit_reversed(y / 2, s / 2),
                    y % 2 == 0,
                    bit_reversed(y + 1, s) == ((y + 1) % 2) * (s / 2) + bit_reversed(
                        y / 2,
                        s / 2,
                    ),
                    (y + 1) % 2 == 1,
                    s / 2 == bit,
            ;
            lemma_bit_reversed_bound(j as int, n as int);
        }
        i += bit;
        let ghost before = buffer@;
        if j < i {
            let lower: T = buffer[j];
            let upper: T = buffer[i];
            buffer[j] = upper;
            buffer[i] = lower;
        }
        proof {
            lemma_bit_reversed_involution(j as int, n as int);
            assert forall|x: int| 0 <= x < n implies #[trigger] buffer@[x] == if x < j + 1
                || bit_reversed(x, n as int) < j + 1 {
                old(buffer)@[bit_reversed(x, n as int)]
            } else {
                old(buffer)@[x]
            } by {
                lemma_bit_reversed_involution(x, n as int);
                lemma_bit_reversed_bound(x, n as int);
                assert(before[x] == if x < j || bit_reversed(x, n as int) < j {
                    old(buffer)@[bit_reversed(x, n as int)]
                } else {
                    old(buffer)@[x]
                });
            }
        }
        j += 1;
    }
    assert(buffer@ =~= bit_reversal(old(buffer)@));
}

/// The index of the upper input of butterfly `k` in block `block`, where
/// blocks are `len` entries long. Its lower input lies half a block further.
pub open spec fn top(block: int, len: int, k: int) -> int {
    block * len + k
}

/// `after` is `before` after one pass of butterflies over blocks of `len`
/// entries: in every block, entry `k` of the first half and entry `k` of the
/// second half are replaced by what `butterfly` gives for the two and the
/// twiddle factor `k * (n / len)`, `n` being the length of the whole.
pub open spec fn is_pass<T, F: Fn(T, T, T) -> (T, T)>(
    butterfly: F,
    twiddles: Seq<T>,
    before: Seq<T>,
    after: Seq<T>,
    len: int,
) -> bool {
    &&& after.len() == before.len()
    &&& forall|block: int, k: int|
        #![trigger top(block, len, k)]
        0 <= block < before.len() / (len as nat) && 0 <= k < len / 2 ==> call_ensures(
            butterfly,
            (
                before[top(block, len, k)],
                before[top(block, len, k) + len / 2],
                twiddles[k * (before.len() / (len as nat))],
            ),
            (after[top(block, len, k)], after[top(block, len, k) + len / 2]),
        )
}

/// `state` is `input` after the passes over blocks of 2, 4, 8, ... up to
/// `len` entries, in this order.
pub open spec fn after_passes<T, F: Fn(T, T, T) -> (T, T)>(
    butterfly: F,
    twiddles: Seq<T>,
    input: Seq<T>,
    len: int,
    state: Seq<T>,
) -> bool
    decreases len,
{
    if len <= 1 {
        state == input
    } else {
        exists|prev: Seq<T>|
            after_passes(butterfly, twiddles, input, len / 2, prev) && #[trigger] is_pass(
                butterfly,
                twiddles,
                prev,
                state,
                len,
            )
    }
}

/// Before the first pass the state is the input itself.
pub proof fn lemma_no_pass<T, F: Fn(T, T, T) -> (T, T)>(
    butterfly: F,
    twiddles: Seq<T>,
    input: Seq<T>,
    len: int,
    state: Seq<T>,
)
    requires
        len <= 1,
        after_passes(butterfly, twiddles, input, len, state),
    ensures
        state == input,
{
}

/// The state after the pass over blocks of `len` entries comes by that pass
/// from a state after the pass over blocks of half that length.
pub proof fn lemma_last_pass<T, F: Fn(T, T, T) -> (T, T)>(
    butterfly: F,
    twiddles: Seq<T>,
    input: Seq<T>,
    len: int,
    state: Seq<T>,
)
    requires
        len > 1,
        after_passes(butterfly, twiddles, input, len, state),
    ensures
        exists|prev: Seq<T>|
            after_passes(butterfly, twiddles, input, len / 2, prev) && #[trigger] is_pass(
                butterfly,
                twiddles,
                prev,
                state,
                len,
            ),
{
}

/// Two indices that agree as `block * len + offset`, with offsets below
/// `len`, name the same block and the same offset.
proof fn lemma_block_offset_unique(len: int, b1: int, r1: int, b2: int, r2: int)
    requires
        0 <= r1 < len,
        0 <= r2 < len,
        b1 * len + r1 == b2 * len + r2,
    ensures
        b1 == b2,
        r1 == r2,
{
    assert(b1 == b2) by (nonlinear_arith)
        requires
            0 <= r1 < len,
            0 <= r2 < len,
            b1 * len + r1 == b2 * len + r2,
    ;
}

/// A butterfly of block `b` lies inside the whole.
proof fn lemma_butterfly_in_range(n: int, len: int, b: int, k: int)
    requires
        len > 0,
        len % 2 == 0,
        n % len == 0,
        0 <= b < n / len,
        0 <= k < len / 2,
    ensures
        0 <= top(b, len, k),
        top(b, len, k) + len / 2 < n,
        0 <= k * (n / len) < n / 2,
{
    let stride = n / len;
    vstd::arithmetic::div_mod::lemma_fundamental_div_mod(n, len);
    assert(b * len + len <= stride * len && b * len >= 0) by (nonlinear_arith)
        requires
            0 <= b < stride,
            len > 0,
    ;
    assert(stride * len == len * stride) by (nonlinear_arith);
    let half = len / 2;
    assert(0 <= k * stride && k * stride + stride <= half * stride) by (nonlinear_arith)
        requires
            0 <= k < half,
            stride >= 0,
    ;
    assert(n == 2 * (half * stride)) by (nonlinear_arith)
        requires
            n == len * stride,
            len == 2 * half,
    ;
}

/// The fast transform of a block whose length is a power of two, in place:
/// the block is put into bit-reversed order and then swept by butterfly
/// passes over blocks of 2, 4, 8, ... entries, up to the whole. The
/// arithmetic of one butterfly is the caller's: `butterfly` takes the upper
/// entry, the lower entry and a twiddle factor, and returns the new upper and
/// lower entries. With an exact butterfly the result is the direct transform
/// of the block, as `lemma_fast_transform_is_direct` shows.
pub fn compute_fft_in_place<T: Copy, F: Fn(T, T, T) -> (T, T)>(
    twiddle_factors: &[T],
    buffer: &mut [T],
    butterfly: F,
)
    requires
        is_pow2(old(buffer)@.len() as int),
        twiddle_factors@.len() == old(buffer)@.len() / 2,
        forall|upper: T, lower: T, twiddle: T|
            twiddle_factors@.contains(twiddle) ==> call_requires(
                butterfly,
                (upper, lower, twiddle),
            ),
    ensures
        after_passes(
            butterfly,
            twiddle_factors@,
            bit_reversal(old(buffer)@),
            old(buffer)@.len() as int,
            final(buffer)@,
        ),
{
    let n: usize = buffer.len();
    bit_reverse_permute(buffer);
    let ghost input = buffer@;
    let mut half: usize = 1;
    proof {
        reveal(is_pow2);
    }
    while half < n
        invariant
            is_pow2(half as int),
            is_pow2(n as int),
            half <= n,
            buffer@.len() == n,
            twiddle_factors@.len() == n / 2,
            forall|upper: T, lower: T, twiddle: T|
                twiddle_factors@.contains(twiddle) ==> call_requires(
                    butterfly,
                    (upper, lower, twiddle),
                ),
            after_passes(butterfly, twiddle_factors@, input, half as int, buffer@),
        decreases n - half,
    {
        proof {
            lemma_pow2_divides(half as int, n as int);
            lemma_pow2_halves(half as int);
        }
        let len: usize = 2 * half;
        let stride: usize = n / len;
        let ghost before = buffer@;
        let ghost blocks = (n / len) as int;
        let mut start: usize = 0;
        let ghost mut block: int = 0;
        while start < n
            invariant
                len == 2 * half,
                half >= 1,
                n % len == 0,
                stride == n / len,
                blocks == n / len,
                0 <= block <= blocks,
                start == block * len,
                start <= n,
                buffer@.len() == n,
                before.len() == n,
                twiddle_factors@.len() == n / 2,
                forall|upper: T, lower: T, twiddle: T|
                    twiddle_factors@.contains(twiddle) ==> call_requires(
                        butterfly,
                        (upper, lower, twiddle),
                    ),
                forall|b: int, k: int|
                    #![trigger top(b, len as int, k)]
                    0 <= b < block && 0 <= k < half ==> call_ensures(
                        butterfly,
                        (
                            before[top(b, len as int, k)],
                            before[top(b, len as int, k) + half],
                            twiddle_factors@[k * stride],
                        ),
                        (buffer@[top(b, len as int, k)], buffer@[top(b, len as int, k) + half]),
                    ),
                forall|b: int, k: int|
                    #![trigger top(b, len as int, k)]
                    block <= b < blocks && 0 <= k < half ==> buffer@[top(b, len as int, k)]
                        == before[top(b, len as int, k)] && buffer@[top(b, len as int, k) + half]
                        == before[top(b, len as int, k) + half],
            decreases n - start,
        {
            proof {
                vstd::arithmetic::div_mod::lemma_fundamental_div_mod(n as int, len as int);
                assert(block < blocks) by (nonlinear_arith)
                    requires
                        block * len < n,
                        n == len * blocks,
                        block <= blocks,
                        len > 0,
                ;
                assert(block * len + len <= n) by (nonlinear_arith)
                    requires
                        block < blocks,
                        n == len * blocks,
                        len > 0,
                ;
            }
            let mut k: usize = 0;
            while k < half
                invariant
                    len == 2 * half,
                    half >= 1,
                    n % len == 0,
                    stride == n / len,
                    blocks == n / len,
                    0 <= block < blocks,
                    start == block * len,
                    start + len <= n,
                    k <= half,
                    buffer@.len() == n,
                    before.len() == n,
                    twiddle_factors@.len() == n / 2,
                    forall|upper: T, lower: T, twiddle: T|
                        twiddle_factors@.contains(twiddle) ==> call_requires(
                            butterfly,
                            (upper, lower, twiddle),
                        ),
                    forall|b: int, j: int|
                        #![trigger top(b, len as int, j)]
                        0 <= j < half && (0 <= b < block || (b == block && j < k))
                            ==> call_ensures(
                            butterfly,
                            (
                                before[top(b, len as int, j)],
                                before[top(b, len as int, j) + half],
                                twiddle_factors@[j * stride],
                            ),
                            (
                                buffer@[top(b, len as int, j)],
                                buffer@[top(b, len as int, j) + half],
                            ),
                        ),
                    forall|b: int, j: int|
                        #![trigger top(b, len as int, j)]
                        0 <= j < half && (block < b < blocks || (b == block && k <= j))
                            ==> buffer@[top(b, len as int, j)] == before[top(b, len as int, j)]
                            && buffer@[top(b, len as int, j) + half] == before[top(
                            b,
                            len as int,
                            j,
                        ) + half],
                decreases half - k,
            {
                proof {
                    lemma_butterfly_in_range(n as int, len as int, block, k as int);
                    assert(top(block, len as int, k as int) == start + k);
                }
                let twiddle: T = twiddle_factors[k * stride];
                let even: T = buffer[start + k];
                let odd: T = buffer[start + k + half];
                let ghost held = buffer@;
                let (sum, difference) = butterfly(even, odd, twiddle);
                buffer[start + k] = sum;
                buffer[start + k + half] = difference;
                proof {
                    let here = top(block, len as int, k as int);
                    assert forall|b: int, j: int|
                        #![trigger top(b, len as int, j)]
                        0 <= j < half && 0 <= b < blocks && !(b == block && j == k) implies buffer@[top(
                        b,
                        len as int,
                        j,
                    )] == held[top(b, len as int, j)] && buffer@[top(b, len as int, j) + half]
                        == held[top(b, len as int, j) + half] by {
                        let there = top(b, len as int, j);
                        lemma_butterfly_in_range(n as int, len as int, b, j);
                        if there == here {
                            lemma_block_offset_unique(len as int, b, j, block, k as int);
                        }
                        if there + half == here + half {
                            lemma_block_offset_unique(len as int, b, j, block, k as int);
                        }
                        if there + half == here {
                            lemma_block_offset_unique(len as int, b, j + half, block, k as int);
                        }
                        if there == here + half {
                            lemma_block_offset_unique(len as int, b, j, block, k + half);
                        }
                    }
                }
                k += 1;
            }
            start += len;
            proof {
                block = block + 1;
                assert(block * len == (block - 1) * len + len) by (nonlinear_arith);
            }
        }
        proof {
            vstd::arithmetic::div_mod::lemma_fundamental_div_mod(n as int, len as int);
            assert(block == blocks) by (nonlinear_arith)
                requires
                    block * len >= n,
                    n == len * blocks,
                    block <= blocks,
                    len > 0,
            ;
            assert(len as int / 2 == half);
            assert(before.len() / (len as nat) == stride);
            assert(is_pass(butterfly, twiddle_factors@, before, buffer@, len as int));
            lemma_pow2_doubles(half as int);
        }
        half = len;
    }
    proof {
        if n == 1 {
            assert(bit_reversal(old(buffer)@) =~= input);
        }
    }
}

/// The number of bins that a transform of `size` samples reports: one for
/// each frequency from zero up to and including half the sample rate.
pub fn bin_count(size: usize) -> (r: usize)
    ensures
        r == size / 2 + 1,
{
    size / 2 + 1
}

/// Whether the amplitude of a bin is doubled to account for its mirror image
/// in the upper half of the spectrum. Bin zero has no mirror image, nor has
/// the bin at half the sample rate, which only an even size has.
pub fn amplitude_is_doubled(bin: usize, size: usize) -> (r: bool)
    ensures
        r == (bin != 0 && 2 * bin != size),
{
    bin != 0 && !(size % 2 == 0 && bin == size / 2)
}

/// The number of workers that `total` items are split among: one chunk for
/// each of `workers`, but no chunk without an item.
pub open spec fn chunk_count(total: int, workers: int) -> int {
    if workers < total {
        workers
    } else {
        total
    }
}

/// Where chunk `k` of `count` begins: the chunks are as long as one another,
/// but for the first `total % count`, which take one item more.
pub open spec fn chunk_start(total: int, count: int, k: int) -> int {
    if k <= total % count {
        k * (total / count) + k
    } else {
        k * (total / count) + total % count
    }
}

/// The chunks begin at zero, follow one another in order, hold at least one
/// item each and end at `total`.
pub proof fn lemma_chunks_cover(total: int, count: int, k: int)
    requires
        0 < count <= total,
        0 <= k < count,
    ensures
        chunk_start(total, count, 0) == 0,
        chunk_start(total, count, count) == total,
        0 <= chunk_start(total, count, k) < chunk_start(total, count, k + 1) <= total,
        total / count <= chunk_start(total, count, k + 1) - chunk_start(total, count, k) <= total
            / count + 1,
{
    let base = total / count;
    let extra = total % count;
    vstd::arithmetic::div_mod::lemma_fundamental_div_mod(total, count);
    assert(base >= 1) by (nonlinear_arith)
        requires
            total == count * base + extra,
            0 <= extra < count,
            count <= total,
    ;
    assert(count * base == count * base && 0 * base == 0) by (nonlinear_arith);
    assert((k + 1) * base == k * base + base && k * base >= 0) by (nonlinear_arith)
        requires
            k >= 0,
            base >= 1,
    ;
    assert((k + 1) * base <= count * base) by (nonlinear_arith)
        requires
            k + 1 <= count,
            base >= 1,
    ;
}

/// Splits the indices `0..total` among workers: `chunk_count` contiguous
/// ranges, each given by its first index and the index after its last, which
/// follow one another from `0` to `total` and differ in length by one at most.
pub fn chunk_ranges(total: usize, workers: usize) -> (chunks: Vec<(usize, usize)>)
    requires
        workers > 0,
    ensures
        chunks@.len() == chunk_count(total as int, workers as int),
        forall|k: int|
            0 <= k < chunks@.len() ==> (#[trigger] chunks@[k]).0 == chunk_start(
                total as int,
                chunks@.len() as int,
                k,
            ) && chunks@[k].1 == chunk_start(total as int, chunks@.len() as int, k + 1),
{
    let count: usize = if workers < total {
        workers
    } else {
        total
    };
    let mut chunks: Vec<(usize, usize)> = Vec::with_capacity(count);
    if count == 0 {
        return chunks;
    }
    let base: usize = total / count;
    let extra: usize = total % count;
    let mut start: usize = 0;
    let mut k: usize = 0;
    while k < count
        invariant
            0 < count <= total,
            base == total / count,
            extra == total % count,
            k <= count,
            start == chunk_start(total as int, count as int, k as int),
            chunks@.len() == k,
            forall|j: int|
                0 <= j < k ==> (#[trigger] chunks@[j]).0 == chunk_start(
                    total as int,
                    count as int,
                    j,
                ) && chunks@[j].1 == chunk_start(total as int, count as int, j + 1),
        decreases count - k,
    {
        proof {
            lemma_chunks_cover(total as int, count as int, k as int);
            assert((k + 1) * base == k * base + base) by (nonlinear_arith);
        }
        let size: usize = if k < extra {
            base + 1
        } else {
            base
        };
        let end: usize = start + size;
        chunks.push((start, end));
        start = end;
        k += 1;
    }
    chunks
}

} // verus!
