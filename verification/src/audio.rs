//! Window functions, and short-time analysis: cutting a long buffer into
//! overlapping windows.

use crate::util::lowercase;
use crate::util::same_text;
use crate::util::to_lowercase;
use vstd::prelude::*;
use vstd::slice::slice_subrange;
use vstd::std_specs::convert::FromSpecImpl;

verus! {

/// The weighting applied to a block of samples before it is transformed.
#[derive(PartialEq, Eq, Structural, Clone, Copy, Debug)]
pub enum WindowFunction {
    /// Every sample weighs one.
    Square,
    /// The raised-cosine window.
    Hann,
}

/// The window function that a lowercase name stands for.
pub open spec fn window_function_named(name: Seq<char>) -> Option<WindowFunction> {
    if name == "square"@ {
        Some(WindowFunction::Square)
    } else if name == "hann"@ || name == "bellcurve"@ {
        Some(WindowFunction::Hann)
    } else {
        None
    }
}

impl WindowFunction {
    /// The window function with the given name, whatever the case of its
    /// letters: "square", "hann" or "bellcurve".
    pub fn from_str(str: &str) -> (r: Option<Self>)
        ensures
            r == window_function_named(lowercase(str@)),
    {
        let lower = to_lowercase(str);
        Self::from_lowercase(lower.as_str())
    }

    /// The window function with the given name, which is taken as it stands.
    pub fn from_lowercase(name: &str) -> (r: Option<Self>)
        ensures
            r == window_function_named(name@),
    {
        if same_text(name, "square") {
            Some(WindowFunction::Square)
        } else if same_text(name, "hann") || same_text(name, "bellcurve") {
            Some(WindowFunction::Hann)
        } else {
            None
        }
    }

    /// The display name: "Square" or "Hann".
    pub fn to_string(&self) -> (r: String)
        ensures
            r@ == match *self {
                WindowFunction::Square => "Square"@,
                WindowFunction::Hann => "Hann"@,
            },
    {
        match self {
            WindowFunction::Square => "Square".to_owned(),
            WindowFunction::Hann => "Hann".to_owned(),
        }
    }
}

impl From<usize> for WindowFunction {
    /// Index 1 is Hann; every other index is Square.
    fn from(value: usize) -> (r: Self) {
        if value == 1 {
            WindowFunction::Hann
        } else {
            WindowFunction::Square
        }
    }
}

impl FromSpecImpl<usize> for WindowFunction {
    open spec fn obeys_from_spec() -> bool {
        true
    }

    open spec fn from_spec(value: usize) -> Self {
        if value == 1 {
            WindowFunction::Hann
        } else {
            WindowFunction::Square
        }
    }
}

/// The number of windows of `window` samples, `step` apart, that lie wholly
/// inside a buffer of `len` samples.
pub open spec fn window_count(len: nat, window: nat, step: nat) -> nat
    recommends
        step > 0,
{
    if len < window {
        0
    } else {
        ((len - window) / (step as int) + 1) as nat
    }
}

/// The samples of the `k`-th window.
pub open spec fn window_at<T>(samples: Seq<T>, window: nat, step: nat, k: int) -> Seq<T> {
    samples.subrange(k * step, k * step + window)
}

/// `out` is what `f` may return for a slice that holds exactly `window`.
pub open spec fn is_image_of<T, U, F: Fn(&[T]) -> U>(f: F, window: Seq<T>, out: U) -> bool {
    exists|w: &[T]| w@ == window && #[trigger] call_ensures(f, (w,), out)
}

/// Window `k` fits into `len` samples exactly when `k` is below `window_count`.
pub proof fn lemma_window_count_is_exact(len: nat, window: nat, step: nat, k: nat)
    requires
        step > 0,
    ensures
        k < window_count(len, window, step) <==> k * step + window <= len,
{
    if len >= window {
        let room = (len - window) as int;
        vstd::arithmetic::div_mod::lemma_fundamental_div_mod(room, step as int);
        vstd::arithmetic::div_mod::lemma_mod_bound(room, step as int);
        let q = room / (step as int);
        if k <= q {
            assert(k * step <= q * step) by (nonlinear_arith)
                requires
                    k <= q,
                    step > 0,
            ;
            assert(step * q == q * step) by (nonlinear_arith);
        } else {
            assert(k * step >= (q + 1) * step) by (nonlinear_arith)
                requires
                    k >= q + 1,
                    step > 0,
            ;
            assert((q + 1) * step == step * q + step) by (nonlinear_arith);
        }
    } else {
        assert(k * step >= 0) by (nonlinear_arith);
    }
}

/// Applies `f` to every window of `window` samples, `step` apart, that lies
/// wholly inside `samples`, first window first.
pub fn map_windows<T, U, F: Fn(&[T]) -> U>(samples: &[T], window: usize, step: usize, f: F) -> (out:
    Vec<U>)
    requires
        step > 0,
        forall|w: &[T]| w@.len() == window ==> call_requires(f, (w,)),
    ensures
        out@.len() == window_count(samples@.len(), window as nat, step as nat),
        forall|k: int|
            0 <= k < out@.len() ==> is_image_of(
                f,
                window_at(samples@, window as nat, step as nat, k),
                #[trigger] out@[k],
            ),
{
    let len: usize = samples.len();
    let mut out: Vec<U> = Vec::new();
    if len < window {
        return out;
    }
    let last_start: usize = len - window;
    let mut start: usize = 0;
    loop
        invariant_except_break
            start == out@.len() * step,
        invariant
            step > 0,
            len == samples@.len(),
            window <= len,
            last_start == len - window,
            start <= last_start,
            forall|w: &[T]| w@.len() == window ==> call_requires(f, (w,)),
            forall|k: int|
                0 <= k < out@.len() ==> is_image_of(
                    f,
                    window_at(samples@, window as nat, step as nat, k),
                    #[trigger] out@[k],
                ),
        ensures
            out@.len() == window_count(samples@.len(), window as nat, step as nat),
        decreases last_start - start,
    {
        let ghost k = out@.len() as int;
        let w = slice_subrange(samples, start, start + window);
        let image = f(w);
        out.push(image);
        proof {
            assert(w@ == window_at(samples@, window as nat, step as nat, k));
            assert((k + 1) * step == k * step + step) by (nonlinear_arith);
        }
        if last_start - start < step {
            proof {
                lemma_window_count_is_exact(len as nat, window as nat, step as nat, k as nat);
                lemma_window_count_is_exact(len as nat, window as nat, step as nat, (k + 1) as nat);
            }
            break ;
        }
        start += step;
    }
    out
}

/// Slides a window of `samples_per_window` samples over `samples`, each window
/// sharing its first `overlap_size` samples with the one before, and hands
/// every window that lies wholly inside `samples` to `transform`. The results
/// come in the order of the windows. A window longer than the signal gives no
/// result.
pub fn do_short_time_fourier_transform<T, U, F: Fn(&[T]) -> U>(
    samples: &[T],
    samples_per_window: usize,
    overlap_size: usize,
    transform: F,
) -> (out: Vec<U>)
    requires
        samples_per_window >= 1,
        overlap_size < samples_per_window,
        forall|w: &[T]| w@.len() == samples_per_window ==> call_requires(transform, (w,)),
    ensures
        out@.len() == window_count(
            samples@.len(),
            samples_per_window as nat,
            (samples_per_window - overlap_size) as nat,
        ),
        forall|k: int|
            0 <= k < out@.len() ==> is_image_of(
                transform,
                window_at(
                    samples@,
                    samples_per_window as nat,
                    (samples_per_window - overlap_size) as nat,
                    k,
                ),
                #[trigger] out@[k],
            ),
{
    let step_size: usize = samples_per_window - overlap_size;
    map_windows(samples, samples_per_window, step_size, transform)
}

} // verus!
