//! A finite-impulse-response kernel over a caller-supplied history window.

use vstd::prelude::*;
use vstd::slice::slice_subrange;

verus! {

/// An FIR filter: `degree` coefficients, applied to the same number of history
/// samples. The filter keeps no state between calls. Its view is the sequence
/// of its coefficients.
pub struct FIRFilter<T> {
    degree: usize,
    coefficients: Vec<T>,
}

/// `sums` lists the running totals of a convolution: it starts at `zero`, and
/// each further entry is what `mac` gave for the entry before it, the next
/// coefficient and the history sample that many steps back from the newest.
pub open spec fn is_accumulation<T, F: Fn(T, T, T) -> T>(
    mac: F,
    coefficients: Seq<T>,
    history: Seq<T>,
    zero: T,
    sums: Seq<T>,
) -> bool {
    &&& sums.len() == coefficients.len() + 1
    &&& sums[0] == zero
    &&& forall|i: int|
        1 <= i <= coefficients.len() ==> call_ensures(
            mac,
            (sums[i - 1], coefficients[i - 1], history[history.len() - i]),
            #[trigger] sums[i],
        )
}

/// `out` is a convolution of `coefficients` with `history`, newest sample
/// first, accumulated by `mac` from `zero`.
pub open spec fn convolves_to<T, F: Fn(T, T, T) -> T>(
    mac: F,
    coefficients: Seq<T>,
    history: Seq<T>,
    zero: T,
    out: T,
) -> bool {
    exists|sums: Seq<T>|
        #[trigger] is_accumulation(mac, coefficients, history, zero, sums) && sums.last() == out
}

/// The sum of the first `count` products of a convolution, added up in the
/// order of the coefficients: product `i` is coefficient `i` times the sample
/// `i` steps back from the newest.
pub open spec fn tap_sum<T>(
    plus: spec_fn(T, T) -> T,
    times: spec_fn(T, T) -> T,
    zero: T,
    coefficients: Seq<T>,
    history: Seq<T>,
    count: int,
) -> T
    decreases count,
{
    if count <= 0 {
        zero
    } else {
        plus(
            tap_sum(plus, times, zero, coefficients, history, count - 1),
            times(coefficients[count - 1], history[history.len() - count]),
        )
    }
}

/// Where `mac` multiplies and accumulates, a convolution is the sum of the
/// products of each coefficient with the sample as many steps back from the
/// newest, added up from `zero` in the order of the coefficients.
pub proof fn lemma_convolution_is_sum_of_products<T, F: Fn(T, T, T) -> T>(
    mac: F,
    plus: spec_fn(T, T) -> T,
    times: spec_fn(T, T) -> T,
    coefficients: Seq<T>,
    history: Seq<T>,
    zero: T,
    out: T,
)
    requires
        forall|acc: T, c: T, h: T, r: T|
            #[trigger] call_ensures(mac, (acc, c, h), r) ==> r == plus(acc, times(c, h)),
        convolves_to(mac, coefficients, history, zero, out),
    ensures
        out == tap_sum(plus, times, zero, coefficients, history, coefficients.len() as int),
{
    let sums = choose|sums: Seq<T>| #[trigger]
        is_accumulation(mac, coefficients, history, zero, sums) && sums.last() == out;
    lemma_accumulation_is_sum(
        mac,
        plus,
        times,
        coefficients,
        history,
        zero,
        sums,
        coefficients.len() as int,
    );
}

/// Every running total of an accumulation is the sum of the products so far.
proof fn lemma_accumulation_is_sum<T, F: Fn(T, T, T) -> T>(
    mac: F,
    plus: spec_fn(T, T) -> T,
    times: spec_fn(T, T) -> T,
    coefficients: Seq<T>,
    history: Seq<T>,
    zero: T,
    sums: Seq<T>,
    count: int,
)
    requires
        forall|acc: T, c: T, h: T, r: T|
            #[trigger] call_ensures(mac, (acc, c, h), r) ==> r == plus(acc, times(c, h)),
        is_accumulation(mac, coefficients, history, zero, sums),
        0 <= count <= coefficients.len(),
    ensures
        sums[count] == tap_sum(plus, times, zero, coefficients, history, count),
    decreases count,
{
    if count > 0 {
        lemma_accumulation_is_sum(mac, plus, times, coefficients, history, zero, sums, count - 1);
        assert(call_ensures(
            mac,
            (sums[count - 1], coefficients[count - 1], history[history.len() - count]),
            sums[count],
        ));
    }
}

/// A convolution accumulated by a borrowed `mac` is one accumulated by `mac`.
pub proof fn lemma_convolves_by_reference<T, F: Fn(T, T, T) -> T>(
    mac: F,
    coefficients: Seq<T>,
    history: Seq<T>,
    zero: T,
    out: T,
)
    requires
        convolves_to(&mac, coefficients, history, zero, out),
    ensures
        convolves_to(mac, coefficients, history, zero, out),
{
    let sums = choose|sums: Seq<T>| #[trigger]
        is_accumulation(&mac, coefficients, history, zero, sums) && sums.last() == out;
    assert(is_accumulation(mac, coefficients, history, zero, sums));
}

impl<T> View for FIRFilter<T> {
    type V = Seq<T>;

    closed spec fn view(&self) -> Seq<T> {
        self.coefficients@
    }
}

impl<T> FIRFilter<T> {
    #[verifier::type_invariant]
    spec fn inv(&self) -> bool {
        self.degree == self.coefficients@.len()
    }
}

impl<T: Copy> Clone for FIRFilter<T> {
    /// A filter with the same coefficients.
    fn clone(&self) -> (r: Self)
        ensures
            r@ == self@,
    {
        proof {
            use_type_invariant(self);
        }
        let mut coefficients: Vec<T> = Vec::with_capacity(self.degree);
        let mut i: usize = 0;
        while i < self.degree
            invariant
                i <= self.degree,
                self.degree == self.coefficients@.len(),
                coefficients@ == self.coefficients@.subrange(0, i as int),
            decreases self.degree - i,
        {
            coefficients.push(self.coefficients[i]);
            i += 1;
        }
        assert(coefficients@ =~= self.coefficients@);
        Self { degree: self.degree, coefficients }
    }
}

impl<T: Copy> FIRFilter<T> {
    /// A filter of the given degree; it takes exactly that many coefficients.
    pub fn new(degree: usize, coefficients: Vec<T>) -> (r: Self)
        requires
            degree == coefficients@.len(),
        ensures
            r@ == coefficients@,
    {
        Self { degree, coefficients }
    }

    /// The number of coefficients, which is the length of history that
    /// `process_slices` takes.
    pub fn degree(&self) -> (d: usize)
        ensures
            d == self@.len(),
    {
        proof {
            use_type_invariant(self);
        }
        self.degree
    }

    /// Convolves the filter with a history of as many samples as the filter
    /// has coefficients, oldest sample first: coefficient `i` meets the sample
    /// `i` steps back from the newest. The products are formed and summed by
    /// `mac`, starting from `zero`.
    pub fn process<F: Fn(T, T, T) -> T>(&self, history: &[T], zero: T, mac: F) -> (out: T)
        requires
            history@.len() == self@.len(),
            forall|acc: T, c: T, h: T|
                self@.contains(c) && history@.contains(h) ==> call_requires(mac, (acc, c, h)),
        ensures
            convolves_to(mac, self@, history@, zero, out),
    {
        let nothing = slice_subrange(history, 0, 0);
        assert(history@ + nothing@ =~= history@);
        self.process_slices(history, nothing, zero, mac)
    }

    /// Convolves the filter with a history that is given in two runs, `slice1`
    /// holding the older samples and `slice2` the newer ones: coefficient `i`
    /// meets the sample `i` steps back from the newest. The products are
    /// formed and summed by `mac`, starting from `zero`.
    pub fn process_slices<F: Fn(T, T, T) -> T>(
        &self,
        slice1: &[T],
        slice2: &[T],
        zero: T,
        mac: F,
    ) -> (out: T)
        requires
            slice1@.len() + slice2@.len() == self@.len(),
            forall|acc: T, c: T, h: T|
                self@.contains(c) && (slice1@ + slice2@).contains(h) ==> call_requires(
                    mac,
                    (acc, c, h),
                ),
        ensures
            convolves_to(mac, self@, slice1@ + slice2@, zero, out),
    {
        proof {
            use_type_invariant(self);
        }
        let ghost history = slice1@ + slice2@;
        let len1: usize = slice1.len();
        let mut cur_slice: &[T] = slice2;
        if cur_slice.len() == 0 {
            cur_slice = slice1;
        }
        let mut slice_idx: usize = cur_slice.len();

        let mut out_sample: T = zero;
        let ghost mut sums: Seq<T> = seq![zero];
        let mut i: usize = 0;
        while i < self.degree
            invariant
                i <= self.degree,
                self.degree == self.coefficients@.len(),
                history == slice1@ + slice2@,
                history.len() == self.degree,
                len1 == slice1@.len(),
                i < self.degree && self.degree - i > len1 ==> cur_slice@ == slice2@ && slice_idx
                    == self.degree - i - len1,
                i < self.degree && self.degree - i <= len1 ==> cur_slice@ == slice1@ && slice_idx
                    == self.degree - i,
                forall|acc: T, c: T, h: T|
                    self@.contains(c) && history.contains(h) ==> call_requires(mac, (acc, c, h)),
                sums.len() == i + 1,
                sums[0] == zero,
                sums.last() == out_sample,
                forall|k: int|
                    1 <= k <= i ==> call_ensures(
                        mac,
                        (sums[k - 1], self@[k - 1], history[history.len() - k]),
                        #[trigger] sums[k],
                    ),
            decreases self.degree - i,
        {
            slice_idx -= 1;
            let coefficient: T = self.coefficients[i];
            let sample: T = cur_slice[slice_idx];
            assert(sample == history[self@.len() - 1 - i]);
            assert(coefficient == self@[i as int]);
            out_sample = mac(out_sample, coefficient, sample);
            proof {
                sums = sums.push(out_sample);
            }
            if slice_idx == 0 {
                cur_slice = slice1;
                slice_idx = slice1.len();
            }
            i += 1;
        }
        proof {
            assert(is_accumulation(mac, self@, history, zero, sums));
        }
        out_sample
    }
}

} // verus!
