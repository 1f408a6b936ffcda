//! The sample-accurate parts of loudness and true-peak measurement:
//! polyphase upsampling, the layout of measurement blocks, and gating.

use crate::audio::is_image_of;
use crate::audio::map_windows;
use crate::audio::window_at;
use crate::audio::window_count;
use crate::circular_buffer::lemma_append_is_single_write;
use crate::circular_buffer::lemma_split_write;
use crate::circular_buffer::shifted_in;
use crate::circular_buffer::CircularBuffer;
use crate::fir_filter::convolves_to;
use crate::fir_filter::lemma_convolves_by_reference;
use crate::fir_filter::FIRFilter;
use crate::fir_filter_constants::FIR_UPSAMPLING_DEG;
use vstd::prelude::*;

verus! {

/// The history that the upsampler holds when it computes the outputs for
/// input sample `i`: a window that held nothing but `zero` before the first
/// sample and has since taken in the samples up to and including `i`, oldest
/// first.
pub open spec fn history_at<T>(samples: Seq<T>, zero: T, i: int) -> Seq<T> {
    shifted_in(Seq::new(FIR_UPSAMPLING_DEG as nat, |k: int| zero), samples.subrange(0, i + 1))
}

/// Once the window is full of samples, the history is the plain run of the
/// newest samples, ending with sample `i`.
pub proof fn lemma_history_is_sliding_window<T>(samples: Seq<T>, zero: T, i: int)
    requires
        FIR_UPSAMPLING_DEG - 1 <= i < samples.len(),
    ensures
        history_at(samples, zero, i) == samples.subrange(i + 1 - FIR_UPSAMPLING_DEG, i + 1),
{
    assert(history_at(samples, zero, i) =~= samples.subrange(i + 1 - FIR_UPSAMPLING_DEG, i + 1));
}

/// Before the window is full of samples, the history is `zero` in its oldest
/// places, followed by all the samples up to and including sample `i`.
pub proof fn lemma_history_starts_silent<T>(samples: Seq<T>, zero: T, i: int)
    requires
        0 <= i < samples.len(),
        i < FIR_UPSAMPLING_DEG - 1,
    ensures
        history_at(samples, zero, i) == Seq::new(
            (FIR_UPSAMPLING_DEG - 1 - i) as nat,
            |k: int| zero,
        ) + samples.subrange(0, i + 1),
{
    assert(history_at(samples, zero, i) =~= Seq::new(
        (FIR_UPSAMPLING_DEG - 1 - i) as nat,
        |k: int| zero,
    ) + samples.subrange(0, i + 1));
}

/// `c` is a coefficient of one of the filters.
pub open spec fn bank_holds<T>(filters: Seq<FIRFilter<T>>, c: T) -> bool {
    exists|p: int| 0 <= p < filters.len() && (#[trigger] filters[p])@.contains(c)
}

/// Upsamples one channel with a bank of phase filters. The history starts
/// out holding `zero` in every place. Each input sample is pushed into the
/// history, and every filter is then run on that history:
/// output `i * phases + p` is the result of filter `p` for input sample `i`,
/// so the outputs of one input sample stand together, in the order of the
/// filters.
pub fn upsample_channel<T: Copy, F: Fn(T, T, T) -> T>(
    samples: &[T],
    filters: &Vec<FIRFilter<T>>,
    zero: T,
    mac: F,
) -> (out: Vec<T>)
    requires
        samples@.len() * filters@.len() <= usize::MAX,
        forall|p: int| 0 <= p < filters@.len() ==> (#[trigger] filters@[p])@.len() == FIR_UPSAMPLING_DEG,
        forall|acc: T, c: T, h: T|
            bank_holds(filters@, c) && (samples@.contains(h) || h == zero) ==> call_requires(
                mac,
                (acc, c, h),
            ),
    ensures
        out@.len() == samples@.len() * filters@.len(),
        forall|i: int, p: int|
            #![trigger filters@[p], history_at(samples@, zero, i)]
            0 <= i < samples@.len() && 0 <= p < filters@.len() ==> convolves_to(
                mac,
                filters@[p]@,
                history_at(samples@, zero, i),
                zero,
                out@[i * filters@.len() + p],
            ),
{
    let len: usize = samples.len();
    let phases: usize = filters.len();
    let ghost primer = Seq::new(FIR_UPSAMPLING_DEG as nat, |k: int| zero);
    let mut circ_buffer = CircularBuffer::new(FIR_UPSAMPLING_DEG, zero);
    assert(circ_buffer@ =~= shifted_in(primer, samples@.subrange(0, 0)));

    let mut upsampled_ch: Vec<T> = Vec::with_capacity(len * phases);
    let mut i: usize = 0;
    while i < len
        invariant
            i <= len == samples@.len(),
            phases == filters@.len(),
            len * phases <= usize::MAX,
            primer == Seq::new(FIR_UPSAMPLING_DEG as nat, |k: int| zero),
            circ_buffer.wf(),
            circ_buffer@ == shifted_in(primer, samples@.subrange(0, i as int)),
            forall|p: int|
                0 <= p < filters@.len() ==> (#[trigger] filters@[p])@.len() == FIR_UPSAMPLING_DEG,
            forall|acc: T, c: T, h: T|
                bank_holds(filters@, c) && (samples@.contains(h) || h == zero) ==> call_requires(
                    mac,
                    (acc, c, h),
                ),
            upsampled_ch@.len() == i * phases,
            forall|i2: int, p: int|
                #![trigger filters@[p], history_at(samples@, zero, i2)]
                0 <= i2 < i && 0 <= p < phases ==> convolves_to(
                    mac,
                    filters@[p]@,
                    history_at(samples@, zero, i2),
                    zero,
                    upsampled_ch@[i2 * phases + p],
                ),
        decreases len - i,
    {
        let ghost before = circ_buffer@;
        circ_buffer.append(samples[i]);
        let history = circ_buffer.get_ordered();
        proof {
            let sofar = samples@.subrange(0, i as int);
            lemma_append_is_single_write(before, samples@[i as int]);
            lemma_split_write(primer, sofar, seq![samples@[i as int]]);
            assert(sofar + seq![samples@[i as int]] =~= samples@.subrange(0, i + 1));
            assert(history@ == history_at(samples@, zero, i as int));
            assert forall|h: T| history@.contains(h) implies samples@.contains(h) || h
                == zero by {
                let k = choose|k: int| 0 <= k < history@.len() && history@[k] == h;
                assert(history@[k] == (primer + samples@.subrange(0, i + 1))[k + i + 1]);
            }
            assert(i * phases + phases == (i + 1) * phases) by (nonlinear_arith);
            assert((i + 1) * phases <= len * phases) by (nonlinear_arith)
                requires
                    i + 1 <= len,
            ;
        }
        let ghost done = upsampled_ch@;
        let mut p: usize = 0;
        while p < phases
            invariant
                p <= phases == filters@.len(),
                i < len,
                i * phases + phases <= usize::MAX,
                history@ == history_at(samples@, zero, i as int),
                history@.len() == FIR_UPSAMPLING_DEG,
                forall|q: int|
                    0 <= q < filters@.len() ==> (#[trigger] filters@[q])@.len()
                        == FIR_UPSAMPLING_DEG,
                forall|h: T| history@.contains(h) ==> samples@.contains(h) || h == zero,
                forall|acc: T, c: T, h: T|
                    bank_holds(filters@, c) && (samples@.contains(h) || h == zero)
                        ==> call_requires(mac, (acc, c, h)),
                upsampled_ch@.len() == i * phases + p,
                upsampled_ch@.subrange(0, i * phases) == done,
                forall|q: int|
                    0 <= q < p ==> convolves_to(
                        mac,
                        (#[trigger] filters@[q])@,
                        history@,
                        zero,
                        upsampled_ch@[i * phases + q],
                    ),
            decreases phases - p,
        {
            let filter = &filters[p];
            assert forall|acc: T, c: T, h: T|
                filter@.contains(c) && history@.contains(h) implies call_requires(
                mac,
                (acc, c, h),
            ) by {
                assert(filters@[p as int]@.contains(c));
            }
            let sample = filter.process(history.as_slice(), zero, &mac);
            let ghost prev = upsampled_ch@;
            upsampled_ch.push(sample);
            proof {
                assert(upsampled_ch@.subrange(0, i * phases) =~= prev.subrange(0, i * phases));
                lemma_convolves_by_reference(mac, filter@, history@, zero, sample);
                assert forall|q: int| 0 <= q < p + 1 implies convolves_to(
                    mac,
                    (#[trigger] filters@[q])@,
                    history@,
                    zero,
                    upsampled_ch@[i * phases + q],
                ) by {
                    if q < p {
                        assert(upsampled_ch@[i * phases + q] == prev[i * phases + q]);
                    }
                }
            }
            p += 1;
        }
        proof {
            assert forall|i2: int, q: int|
                #![trigger filters@[q], history_at(samples@, zero, i2)]
                0 <= i2 < i + 1 && 0 <= q < phases implies convolves_to(
                mac,
                filters@[q]@,
                history_at(samples@, zero, i2),
                zero,
                upsampled_ch@[i2 * phases + q],
            ) by {
                if i2 < i {
                    assert(i2 * phases + phases == (i2 + 1) * phases) by (nonlinear_arith);
                    assert((i2 + 1) * phases <= i * phases) by (nonlinear_arith)
                        requires
                            i2 + 1 <= i,
                    ;
                    assert(upsampled_ch@[i2 * phases + q] == done[i2 * phases + q]);
                }
            }
        }
        i += 1;
    }
    upsampled_ch
}

/// The number of consecutive blocks that one short-term measurement spans.
pub const SHORT_TERM_BLOCKS: usize = 30;

/// The two ways of K-weighting a signal.
#[derive(PartialEq, Eq, Structural, Clone, Copy, Debug)]
pub enum KWeighting {
    /// The two filter sections with the coefficients that the recommendation
    /// tabulates; they are exact at 48 kHz only.
    Tabulated,
    /// A high shelf and a high pass derived from frequency, gain and Q for
    /// the sample rate at hand.
    Derived,
}

/// The K-weighting to use at a sample rate: the tabulated sections at exactly
/// 48 kHz, derived ones at every other rate.
pub fn k_weighting_for(sample_rate: u32) -> (r: KWeighting)
    ensures
        r == if sample_rate == 48000 {
            KWeighting::Tabulated
        } else {
            KWeighting::Derived
        },
{
    if sample_rate == 48000 {
        KWeighting::Tabulated
    } else {
        KWeighting::Derived
    }
}

/// The length of a measurement block in samples: four tenths of a second,
/// rounded to the nearest sample.
pub open spec fn block_len(sample_rate: nat) -> nat {
    (4 * sample_rate + 5) / 10
}

/// The distance between the starts of two blocks: a quarter of a block,
/// rounded to the nearest sample, halves up.
pub open spec fn block_hop(samples_per_block: nat) -> nat {
    (samples_per_block + 2) / 4
}

/// The number of measurement blocks in a channel of `len` samples: blocks
/// start one hop apart, and every block that lies wholly inside the channel
/// counts.
pub open spec fn block_count(len: nat, sample_rate: nat) -> nat {
    window_count(len, block_len(sample_rate), block_hop(block_len(sample_rate)))
}

/// The length of a 400 ms block at `sample_rate`. No integer lies nearer to
/// two fifths of the sample rate.
pub fn samples_per_block(sample_rate: u32) -> (r: usize)
    ensures
        r == block_len(sample_rate as nat),
        5 * r - 2 <= 2 * sample_rate <= 5 * r + 2,
{
    let scaled: u64 = 4 * (sample_rate as u64) + 5;
    (scaled / 10) as usize
}

/// The hop between blocks of `samples_per_block` samples, which makes
/// consecutive blocks overlap by three quarters.
pub fn block_step(samples_per_block: usize) -> (r: usize)
    ensures
        r == block_hop(samples_per_block as nat),
        4 * r - 2 <= samples_per_block <= 4 * r + 1,
{
    samples_per_block / 4 + (samples_per_block % 4 + 2) / 4
}

/// Cuts a channel into overlapping 400 ms blocks, one hop apart, and hands
/// each block that lies wholly inside the channel to `mean`. The results
/// come in the order of the blocks.
pub fn block_means<T, U, F: Fn(&[T]) -> U>(channel: &[T], sample_rate: u32, mean: F) -> (out: Vec<U>)
    requires
        sample_rate >= 4,
        forall|w: &[T]| w@.len() == block_len(sample_rate as nat) ==> call_requires(mean, (w,)),
    ensures
        out@.len() == block_count(channel@.len(), sample_rate as nat),
        forall|k: int|
            0 <= k < out@.len() ==> is_image_of(
                mean,
                window_at(
                    channel@,
                    block_len(sample_rate as nat),
                    block_hop(block_len(sample_rate as nat)),
                    k,
                ),
                #[trigger] out@[k],
            ),
{
    let per_block: usize = samples_per_block(sample_rate);
    let step: usize = block_step(per_block);
    map_windows(channel, per_block, step, mean)
}

/// Hands every run of thirty consecutive blocks to `mean`, first run first.
/// Fewer than thirty blocks give no result: there is then no short-term
/// measurement.
pub fn short_term_means<U, V, F: Fn(&[U]) -> V>(blocks: &[U], mean: F) -> (out: Vec<V>)
    requires
        forall|w: &[U]| w@.len() == SHORT_TERM_BLOCKS ==> call_requires(mean, (w,)),
    ensures
        out@.len() == if blocks@.len() < SHORT_TERM_BLOCKS {
            0
        } else {
            blocks@.len() - SHORT_TERM_BLOCKS + 1
        },
        forall|k: int|
            0 <= k < out@.len() ==> is_image_of(
                mean,
                blocks@.subrange(k, k + SHORT_TERM_BLOCKS),
                #[trigger] out@[k],
            ),
{
    let out = map_windows(blocks, SHORT_TERM_BLOCKS, 1, mean);
    proof {
        assert forall|k: int| 0 <= k < out@.len() implies is_image_of(
            mean,
            blocks@.subrange(k, k + SHORT_TERM_BLOCKS),
            #[trigger] out@[k],
        ) by {
            assert(window_at(blocks@, SHORT_TERM_BLOCKS as nat, 1, k) =~= blocks@.subrange(
                k,
                k + SHORT_TERM_BLOCKS,
            ));
        }
    }
    out
}

/// The entries of `blocks` whose flag in `keep` is set, in their order.
pub open spec fn kept<T>(blocks: Seq<T>, keep: Seq<bool>) -> Seq<T>
    recommends
        blocks.len() == keep.len(),
    decreases blocks.len(),
{
    if blocks.len() == 0 {
        Seq::empty()
    } else if keep.last() {
        kept(blocks.drop_last(), keep.drop_last()).push(blocks.last())
    } else {
        kept(blocks.drop_last(), keep.drop_last())
    }
}

/// Gates the blocks of all channels alike: block `i` of every channel stays
/// if `keep[i]` is set and leaves otherwise, so the channels stay aligned.
pub fn filter_blocks<T: Copy>(mean_squares: &Vec<Vec<T>>, keep: &Vec<bool>) -> (out: Vec<Vec<T>>)
    requires
        mean_squares@.len() > 0,
        forall|c: int|
            0 <= c < mean_squares@.len() ==> (#[trigger] mean_squares@[c])@.len() == keep@.len(),
    ensures
        out@.len() == mean_squares@.len(),
        forall|c: int|
            0 <= c < out@.len() ==> (#[trigger] out@[c])@ == kept(mean_squares@[c]@, keep@),
{
    let blocks: usize = mean_squares[0].len();
    let mut out: Vec<Vec<T>> = Vec::with_capacity(mean_squares.len());
    let mut c: usize = 0;
    while c < mean_squares.len()
        invariant
            c <= mean_squares@.len(),
            blocks == keep@.len(),
            forall|d: int|
                0 <= d < mean_squares@.len() ==> (#[trigger] mean_squares@[d])@.len()
                    == keep@.len(),
            out@.len() == c,
            forall|d: int| 0 <= d < c ==> (#[trigger] out@[d])@ == kept(mean_squares@[d]@, keep@),
        decreases mean_squares@.len() - c,
    {
        let channel = &mean_squares[c];
        let mut survivors: Vec<T> = Vec::with_capacity(blocks);
        let mut i: usize = 0;
        while i < blocks
            invariant
                i <= blocks == keep@.len(),
                channel@.len() == keep@.len(),
                survivors@ == kept(channel@.subrange(0, i as int), keep@.subrange(0, i as int)),
            decreases blocks - i,
        {
            proof {
                assert(channel@.subrange(0, i + 1).drop_last() =~= channel@.subrange(0, i as int));
                assert(keep@.subrange(0, i + 1).drop_last() =~= keep@.subrange(0, i as int));
            }
            if keep[i] {
                survivors.push(channel[i]);
            }
            i += 1;
        }
        proof {
            assert(channel@.subrange(0, blocks as int) =~= channel@);
            assert(keep@.subrange(0, blocks as int) =~= keep@);
        }
        out.push(survivors);
        c += 1;
    }
    out
}

} // verus!
