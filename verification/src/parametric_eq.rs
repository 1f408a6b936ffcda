//! The filter topologies of the parametric equaliser, and the frequency grid
//! on which a filter section is calibrated.

use crate::util::lowercase;
use crate::util::same_text;
use crate::util::to_lowercase;
use crate::util::trim;
use crate::util::trimmed;
use vstd::prelude::*;

verus! {

/// The topologies of a second-order filter section.
#[allow(non_camel_case_types)]
#[derive(PartialEq, Eq, Structural, Clone, Copy, Debug)]
pub enum FilterType {
    PEAK,
    LPF,
    HPF,
    NOTCH,
    LOWSHELF,
    HIGHSHELF,
}

/// The topology that a lowercase name without surrounding blanks stands for.
/// A name that is none of the six known ones stands for a peak filter.
pub open spec fn filter_type_named(name: Seq<char>) -> FilterType {
    if name == "peak"@ {
        FilterType::PEAK
    } else if name == "lpf"@ {
        FilterType::LPF
    } else if name == "hpf"@ {
        FilterType::HPF
    } else if name == "notch"@ {
        FilterType::NOTCH
    } else if name == "low shelf"@ {
        FilterType::LOWSHELF
    } else if name == "high shelf"@ {
        FilterType::HIGHSHELF
    } else {
        FilterType::PEAK
    }
}

impl FilterType {
    /// The topology with the given name, whatever the case of its letters and
    /// the blanks around it.
    pub fn from_string(str: String) -> (r: Self)
        ensures
            r == filter_type_named(trimmed(lowercase(str@))),
    {
        let lower = to_lowercase(str.as_str());
        Self::from_name(trim(lower.as_str()))
    }

    /// The topology with the given name, which is taken as it stands.
    pub fn from_name(name: &str) -> (r: Self)
        ensures
            r == filter_type_named(name@),
    {
        if same_text(name, "peak") {
            FilterType::PEAK
        } else if same_text(name, "lpf") {
            FilterType::LPF
        } else if same_text(name, "hpf") {
            FilterType::HPF
        } else if same_text(name, "notch") {
            FilterType::NOTCH
        } else if same_text(name, "low shelf") {
            FilterType::LOWSHELF
        } else if same_text(name, "high shelf") {
            FilterType::HIGHSHELF
        } else {
            FilterType::PEAK
        }
    }
}

/// The distance in Hz between two calibration frequencies: a thousandth of
/// the range from zero to half the sample rate, but 1 Hz at least.
pub open spec fn calibration_step(sample_rate: int) -> int {
    if (sample_rate / 2) / 1000 >= 1 {
        (sample_rate / 2) / 1000
    } else {
        1
    }
}

/// The frequencies at which the response of a filter section is sampled to
/// find where it is closest to unity gain: the multiples of the calibration
/// step below half the sample rate, in rising order.
pub fn calibration_frequencies(sample_rate: u32) -> (grid: Vec<u32>)
    ensures
        forall|i: int|
            0 <= i < grid@.len() ==> #[trigger] grid@[i] == i * calibration_step(sample_rate as int),
        (grid@.len() - 1) * calibration_step(sample_rate as int) < sample_rate / 2
            <= grid@.len() * calibration_step(sample_rate as int),
{
    let limit: u32 = sample_rate / 2;
    let step: u32 = if limit / 1000 >= 1 {
        limit / 1000
    } else {
        1
    };
    let mut grid: Vec<u32> = Vec::new();
    let mut freq: u32 = 0;
    assert(0 * step == 0 && (0 - 1) * step < 0) by (nonlinear_arith)
        requires
            step >= 1,
    ;
    if limit == 0 {
        return grid;
    }
    loop
        invariant_except_break
            freq == grid@.len() * step,
            freq < limit,
        invariant
            limit == sample_rate / 2,
            step == calibration_step(sample_rate as int),
            step >= 1,
            forall|i: int| 0 <= i < grid@.len() ==> #[trigger] grid@[i] == i * step,
        ensures
            (grid@.len() - 1) * step < limit <= grid@.len() * step,
        decreases limit - freq,
    {
        let ghost count = grid@.len() as int;
        grid.push(freq);
        proof {
            assert((count + 1) * step == count * step + step) by (nonlinear_arith);
        }
        if limit - freq <= step {
            break ;
        }
        freq += step;
    }
    grid
}

/// A parametric equaliser: filter sections in series, all designed for one
/// sample rate. The output of each section is the input of the next, so the
/// order of the sections matters. Its view is the sequence of its sections.
pub struct ParametricEq<S> {
    nodes: Vec<S>,
    sample_rate: u32,
}

/// `states` and `signals` record a run of `samples_in` through a cascade:
/// row `i` of `states` holds the sections before sample `i` is taken in, and
/// row `i` of `signals` holds sample `i` as it enters each section and, last,
/// as it leaves the cascade. Section `j` turns its state and its input into
/// its next state and the input of section `j + 1` as `step` says.
pub open spec fn is_cascade_record<S, T, F: Fn(S, T) -> (S, T)>(
    step: F,
    sections: Seq<S>,
    samples_in: Seq<T>,
    states: Seq<Seq<S>>,
    signals: Seq<Seq<T>>,
) -> bool {
    &&& states.len() == samples_in.len() + 1
    &&& signals.len() == samples_in.len()
    &&& states[0] == sections
    &&& forall|i: int| 0 <= i < states.len() ==> (#[trigger] states[i]).len() == sections.len()
    &&& forall|i: int|
        0 <= i < signals.len() ==> (#[trigger] signals[i]).len() == sections.len() + 1
            && signals[i][0] == samples_in[i]
    &&& forall|i: int, j: int|
        #![trigger signals[i][j]]
        0 <= i < samples_in.len() && 0 <= j < sections.len() ==> call_ensures(
            step,
            (states[i][j], signals[i][j]),
            (states[i + 1][j], signals[i][j + 1]),
        )
}

/// Running `samples_in` through the cascade `sections` leaves the sections
/// as `sections_out` and gives the samples `samples_out`.
pub open spec fn is_cascade_run<S, T, F: Fn(S, T) -> (S, T)>(
    step: F,
    sections: Seq<S>,
    samples_in: Seq<T>,
    sections_out: Seq<S>,
    samples_out: Seq<T>,
) -> bool {
    exists|states: Seq<Seq<S>>, signals: Seq<Seq<T>>|
        {
            &&& #[trigger] is_cascade_record(step, sections, samples_in, states, signals)
            &&& sections_out == states.last()
            &&& samples_out.len() == samples_in.len()
            &&& forall|i: int|
                0 <= i < samples_in.len() ==> #[trigger] samples_out[i] == signals[i].last()
        }
}

/// Silence in, silence out: if `step` keeps a section at rest and gives
/// `silence` whenever a section at rest takes in `silence`, then a cascade
/// whose sections are all at rest turns a run of silence into a run of
/// silence, and its sections are at rest afterwards. So no energy of an
/// earlier signal shows once the sections have been put to rest.
pub proof fn lemma_silence_in_silence_out<S, T, F: Fn(S, T) -> (S, T)>(
    step: F,
    at_rest: spec_fn(S) -> bool,
    silence: T,
    sections: Seq<S>,
    samples_in: Seq<T>,
    sections_out: Seq<S>,
    samples_out: Seq<T>,
)
    requires
        is_cascade_run(step, sections, samples_in, sections_out, samples_out),
        forall|s: S, r: (S, T)|
            at_rest(s) && #[trigger] call_ensures(step, (s, silence), r) ==> at_rest(r.0) && r.1
                == silence,
        forall|j: int| 0 <= j < sections.len() ==> at_rest(#[trigger] sections[j]),
        forall|i: int| 0 <= i < samples_in.len() ==> #[trigger] samples_in[i] == silence,
    ensures
        forall|i: int| 0 <= i < samples_out.len() ==> #[trigger] samples_out[i] == silence,
        forall|j: int| 0 <= j < sections_out.len() ==> at_rest(#[trigger] sections_out[j]),
        sections_out.len() == sections.len(),
{
    let (states, signals) = choose|states: Seq<Seq<S>>, signals: Seq<Seq<T>>|
        {
            &&& #[trigger] is_cascade_record(step, sections, samples_in, states, signals)
            &&& sections_out == states.last()
            &&& samples_out.len() == samples_in.len()
            &&& forall|i: int|
                0 <= i < samples_in.len() ==> #[trigger] samples_out[i] == signals[i].last()
        };
    lemma_record_stays_silent(
        step,
        at_rest,
        silence,
        sections,
        samples_in,
        states,
        signals,
        samples_in.len() as int,
    );
    assert forall|i: int| 0 <= i < samples_out.len() implies #[trigger] samples_out[i]
        == silence by {
        lemma_record_stays_silent(step, at_rest, silence, sections, samples_in, states, signals, i);
        lemma_row_stays_silent(
            step,
            at_rest,
            silence,
            sections,
            samples_in,
            states,
            signals,
            i,
            sections.len() as int,
        );
    }
}

/// In a record of a run of silence through a cascade at rest, the sections
/// are at rest before every sample.
proof fn lemma_record_stays_silent<S, T, F: Fn(S, T) -> (S, T)>(
    step: F,
    at_rest: spec_fn(S) -> bool,
    silence: T,
    sections: Seq<S>,
    samples_in: Seq<T>,
    states: Seq<Seq<S>>,
    signals: Seq<Seq<T>>,
    i: int,
)
    requires
        is_cascade_record(step, sections, samples_in, states, signals),
        forall|s: S, r: (S, T)|
            at_rest(s) && #[trigger] call_ensures(step, (s, silence), r) ==> at_rest(r.0) && r.1
                == silence,
        forall|j: int| 0 <= j < sections.len() ==> at_rest(#[trigger] sections[j]),
        forall|k: int| 0 <= k < samples_in.len() ==> #[trigger] samples_in[k] == silence,
        0 <= i <= samples_in.len(),
    ensures
        forall|j: int| 0 <= j < sections.len() ==> at_rest(#[trigger] states[i][j]),
    decreases i,
{
    if i > 0 {
        lemma_record_stays_silent(
            step,
            at_rest,
            silence,
            sections,
            samples_in,
            states,
            signals,
            i - 1,
        );
        assert forall|j: int| 0 <= j < sections.len() implies at_rest(#[trigger] states[i][j]) by {
            lemma_row_stays_silent(
                step,
                at_rest,
                silence,
                sections,
                samples_in,
                states,
                signals,
                i - 1,
                j,
            );
            assert(call_ensures(
                step,
                (states[i - 1][j], signals[i - 1][j]),
                (states[i][j], signals[i - 1][j + 1]),
            ));
        }
    }
}

/// In a record of a run of silence, a sample that meets only sections at
/// rest is silent at every section it has reached.
proof fn lemma_row_stays_silent<S, T, F: Fn(S, T) -> (S, T)>(
    step: F,
    at_rest: spec_fn(S) -> bool,
    silence: T,
    sections: Seq<S>,
    samples_in: Seq<T>,
    states: Seq<Seq<S>>,
    signals: Seq<Seq<T>>,
    i: int,
    j: int,
)
    requires
        is_cascade_record(step, sections, samples_in, states, signals),
        forall|s: S, r: (S, T)|
            at_rest(s) && #[trigger] call_ensures(step, (s, silence), r) ==> at_rest(r.0) && r.1
                == silence,
        forall|k: int| 0 <= k < sections.len() ==> at_rest(#[trigger] states[i][k]),
        0 <= i < samples_in.len(),
        samples_in[i] == silence,
        0 <= j <= sections.len(),
    ensures
        signals[i][j] == silence,
    decreases j,
{
    if j > 0 {
        lemma_row_stays_silent(
            step,
            at_rest,
            silence,
            sections,
            samples_in,
            states,
            signals,
            i,
            j - 1,
        );
        assert(call_ensures(
            step,
            (states[i][j - 1], signals[i][j - 1]),
            (states[i + 1][j - 1], signals[i][j]),
        ));
    }
}

impl<S> View for ParametricEq<S> {
    type V = Seq<S>;

    closed spec fn view(&self) -> Seq<S> {
        self.nodes@
    }
}

impl<S> ParametricEq<S> {
    /// The sample rate that the sections are designed for.
    pub closed spec fn rate(&self) -> u32 {
        self.sample_rate
    }
}

impl<S: Copy> ParametricEq<S> {
    /// An equaliser with the given sections, in the order in which the signal
    /// passes them.
    pub fn new(nodes: Vec<S>, sample_rate: u32) -> (r: Self)
        ensures
            r@ == nodes@,
            r.rate() == sample_rate,
    {
        Self { nodes, sample_rate }
    }

    /// The sample rate that the sections are designed for.
    pub fn sample_rate(&self) -> (r: u32)
        ensures
            r == self.rate(),
    {
        self.sample_rate
    }

    /// The sections, in the order in which the signal passes them.
    pub fn nodes(&self) -> (r: &Vec<S>)
        ensures
            r@ == self@,
    {
        &self.nodes
    }

    /// Removes all sections: the equaliser then passes a signal unchanged.
    pub fn reset(&mut self)
        ensures
            final(self)@ == Seq::<S>::empty(),
            final(self).rate() == old(self).rate(),
    {
        self.nodes = Vec::new();
    }

    /// Appends a section as the last of the cascade. The section is designed
    /// by `design` from the topology, the frequency in Hz, the gain and the Q
    /// handed in, for the sample rate of the equaliser.
    pub fn add_node<G, F: FnOnce(FilterType, u32, G, G, u32) -> S>(
        &mut self,
        f_type: FilterType,
        freq: u32,
        gain: G,
        q: G,
        design: F,
    )
        requires
            call_requires(design, (f_type, freq, gain, q, old(self).rate())),
        ensures
            final(self).rate() == old(self).rate(),
            final(self)@.len() == old(self)@.len() + 1,
            final(self)@.drop_last() == old(self)@,
            call_ensures(design, (f_type, freq, gain, q, old(self).rate()), final(self)@.last()),
    {
        let node = design(f_type, freq, gain, q, self.sample_rate);
        self.nodes.push(node);
        assert(self@.drop_last() =~= old(self)@);
    }

    /// Puts every section through `rest`, which clears what a section
    /// remembers of the signal it has seen. This is due before the equaliser
    /// takes on a signal that does not continue the last one.
    pub fn reset_mem<F: Fn(S) -> S>(&mut self, rest: F)
        requires
            forall|s: S| call_requires(rest, (s,)),
        ensures
            final(self).rate() == old(self).rate(),
            final(self)@.len() == old(self)@.len(),
            forall|j: int|
                0 <= j < old(self)@.len() ==> call_ensures(
                    rest,
                    (old(self)@[j],),
                    #[trigger] final(self)@[j],
                ),
    {
        let mut j: usize = 0;
        while j < self.nodes.len()
            invariant
                j <= self.nodes@.len(),
                self.sample_rate == old(self).sample_rate,
                self.nodes@.len() == old(self).nodes@.len(),
                forall|s: S| call_requires(rest, (s,)),
                forall|k: int|
                    0 <= k < j ==> call_ensures(
                        rest,
                        (old(self).nodes@[k],),
                        #[trigger] self.nodes@[k],
                    ),
                forall|k: int|
                    j <= k < self.nodes@.len() ==> #[trigger] self.nodes@[k] == old(self).nodes@[k],
            decreases self.nodes@.len() - j,
        {
            let cleared = rest(self.nodes[j]);
            self.nodes.set(j, cleared);
            j += 1;
        }
    }

    /// Filters `samples` in place: each sample, in its order in time, passes
    /// the sections in their order, and each section it passes goes over to
    /// its next state. `step` is one section at work: from the state of the
    /// section and its input it gives the next state and the output.
    pub fn process<T: Copy, F: Fn(S, T) -> (S, T)>(&mut self, samples: &mut [T], step: F)
        requires
            forall|s: S, x: T| call_requires(step, (s, x)),
        ensures
            final(self).rate() == old(self).rate(),
            is_cascade_run(step, old(self)@, old(samples)@, final(self)@, final(samples)@),
    {
        let count: usize = samples.len();
        let sections: usize = self.nodes.len();
        let ghost mut states: Seq<Seq<S>> = seq![self.nodes@];
        let ghost mut signals: Seq<Seq<T>> = Seq::empty();
        let mut i: usize = 0;
        while i < count
            invariant
                i <= count,
                count == samples@.len(),
                samples@.len() == old(samples)@.len(),
                sections == self.nodes@.len(),
                sections == old(self).nodes@.len(),
                self.sample_rate == old(self).sample_rate,
                forall|s: S, x: T| call_requires(step, (s, x)),
                is_cascade_record(
                    step,
                    old(self).nodes@,
                    old(samples)@.subrange(0, i as int),
                    states,
                    signals,
                ),
                states.last() == self.nodes@,
                forall|k: int| 0 <= k < i ==> #[trigger] samples@[k] == signals[k].last(),
                forall|k: int| i <= k < count ==> #[trigger] samples@[k] == old(samples)@[k],
            decreases count - i,
        {
            let mut x: T = samples[i];
            let ghost row_in = self.nodes@;
            let ghost mut signal: Seq<T> = seq![x];
            let mut j: usize = 0;
            while j < sections
                invariant
                    j <= sections,
                    sections == self.nodes@.len(),
                    sections == row_in.len(),
                    self.sample_rate == old(self).sample_rate,
                    forall|s: S, x: T| call_requires(step, (s, x)),
                    signal.len() == j + 1,
                    signal.last() == x,
                    signal[0] == old(samples)@[i as int],
                    forall|k: int|
                        #![trigger signal[k]]
                        0 <= k < j ==> call_ensures(
                            step,
                            (row_in[k], signal[k]),
                            (self.nodes@[k], signal[k + 1]),
                        ),
                    forall|k: int| j <= k < sections ==> #[trigger] self.nodes@[k] == row_in[k],
                decreases sections - j,
            {
                let (node, y) = step(self.nodes[j], x);
                self.nodes.set(j, node);
                x = y;
                proof {
                    signal = signal.push(y);
                }
                j += 1;
            }
            samples[i] = x;
            proof {
                let ghost old_states = states;
                let ghost old_signals = signals;
                states = states.push(self.nodes@);
                signals = signals.push(signal);
                let prefix = old(samples)@.subrange(0, i + 1);
                assert forall|a: int, b: int|
                    #![trigger signals[a][b]]
                    0 <= a < prefix.len() && 0 <= b < sections implies call_ensures(
                    step,
                    (states[a][b], signals[a][b]),
                    (states[a + 1][b], signals[a][b + 1]),
                ) by {
                    if a < i {
                        assert(states[a] == old_states[a]);
                        assert(states[a + 1] == old_states[a + 1]);
                        assert(signals[a] == old_signals[a]);
                        assert(call_ensures(
                            step,
                            (old_states[a][b], old_signals[a][b]),
                            (old_states[a + 1][b], old_signals[a][b + 1]),
                        ));
                    } else {
                        assert(states[a] == row_in);
                        assert(signals[a] == signal);
                    }
                }
                assert forall|a: int| 0 <= a < states.len() implies (#[trigger] states[a]).len()
                    == sections by {
                    if a <= i {
                        assert(states[a] == old_states[a]);
                    }
                }
                assert forall|a: int| 0 <= a < signals.len() implies (#[trigger] signals[a]).len()
                    == sections + 1 && signals[a][0] == prefix[a] by {
                    if a < i {
                        assert(signals[a] == old_signals[a]);
                    }
                }
                assert(states[0] == old_states[0]);
                assert(is_cascade_record(step, old(self).nodes@, prefix, states, signals));
            }
            i += 1;
        }
        proof {
            assert(old(samples)@.subrange(0, count as int) =~= old(samples)@);
            assert(is_cascade_record(step, old(self)@, old(samples)@, states, signals));
        }
    }
}

} // verus!
