//! The bookkeeping of playback: which samples go into the next chunk of
//! output, and where a player stands in its file.

use vstd::prelude::*;

verus! {

/// Plays a signal that is held in memory, one vector of samples for each
/// channel, by filling chunks of interleaved output.
pub struct SignalPlayer<T> {
    samples: Vec<Vec<T>>,
    sample_rate: u32,
    channels: usize,
    pos: usize,
    finished: bool,
}

impl<T> SignalPlayer<T> {
    /// The signal: the samples of each channel.
    pub closed spec fn signal(&self) -> Seq<Vec<T>> {
        self.samples@
    }

    /// The number of channels that are played.
    pub closed spec fn channel_count(&self) -> nat {
        self.channels as nat
    }

    /// The index of the next sample to play, in each channel.
    pub closed spec fn position(&self) -> nat {
        self.pos as nat
    }

    /// Whether the player has come to the end of the signal.
    pub closed spec fn is_finished(&self) -> bool {
        self.finished
    }

    /// The sample rate of the signal.
    pub closed spec fn rate(&self) -> u32 {
        self.sample_rate
    }

    /// There is a channel to play, the signal has all the channels that are
    /// played, they are equally long, and the position lies inside them.
    pub open spec fn wf(&self) -> bool {
        &&& self.channel_count() > 0
        &&& self.signal().len() >= self.channel_count()
        &&& forall|c: int|
            0 <= c < self.channel_count() ==> (#[trigger] self.signal()[c])@.len()
                == self.signal()[0]@.len()
        &&& self.position() <= self.signal()[0]@.len()
    }
}

impl<T: Copy> SignalPlayer<T> {
    /// A player at the start of `samples`, of which it plays the first
    /// `channels` channels.
    pub fn new(samples: Vec<Vec<T>>, sample_rate: u32, channels: usize) -> (r: Self)
        requires
            channels > 0,
            samples@.len() >= channels,
            forall|c: int| 0 <= c < channels ==> (#[trigger] samples@[c])@.len() == samples@[0]@.len(),
        ensures
            r.wf(),
            r.signal() == samples@,
            r.rate() == sample_rate,
            r.channel_count() == channels,
            r.position() == 0,
            !r.is_finished(),
    {
        Self { samples, sample_rate, channels, pos: 0, finished: false }
    }

    /// Whether the player has come to the end of the signal.
    pub fn finished(&self) -> (r: bool)
        ensures
            r == self.is_finished(),
    {
        self.finished
    }

    /// The sample rate of the signal.
    pub fn sample_rate(&self) -> (r: u32)
        ensures
            r == self.rate(),
    {
        self.sample_rate
    }

    /// Fills a chunk of interleaved output with the next frames of the
    /// signal: as many frames as the chunk holds, each frame one sample of
    /// every channel in turn. If the signal does not reach beyond these
    /// frames, nothing is written and the player is finished.
    pub fn next_chunk(&mut self, dat_slice: &mut [T])
        requires
            old(self).wf(),
        ensures
            final(self).wf(),
            final(self).signal() == old(self).signal(),
            final(self).rate() == old(self).rate(),
            final(self).channel_count() == old(self).channel_count(),
            final(dat_slice)@.len() == old(dat_slice)@.len(),
            ({
                let channels = old(self).channel_count() as int;
                let frames = old(dat_slice)@.len() as int / channels;
                if old(self).position() + frames >= old(self).signal()[0]@.len() {
                    &&& final(self).is_finished()
                    &&& final(self).position() == old(self).position()
                    &&& final(dat_slice)@ == old(dat_slice)@
                } else {
                    &&& final(self).is_finished() == old(self).is_finished()
                    &&& final(self).position() == old(self).position() + frames
                    &&& forall|k: int, c: int|
                        #![trigger old(self).signal()[c]@[old(self).position() + k]]
                        0 <= k < frames && 0 <= c < channels ==> final(dat_slice)@[k * channels + c]
                            == old(self).signal()[c]@[old(self).position() + k]
                    &&& forall|i: int|
                        #![trigger old(dat_slice)@[i]]
                        frames * channels <= i < old(dat_slice)@.len() ==> final(dat_slice)@[i]
                            == old(dat_slice)@[i]
                }
            }),
    {
        let channels: usize = self.channels;
        let frames: usize = dat_slice.len() / channels;
        let len: usize = self.samples[0].len();
        if frames >= len - self.pos {
            self.finished = true;
            return ;
        }
        let out_len: usize = dat_slice.len();
        proof {
            vstd::arithmetic::div_mod::lemma_fundamental_div_mod(out_len as int, channels as int);
            assert(frames * channels == channels * frames) by (nonlinear_arith);
        }
        let mut k: usize = 0;
        while k < frames
            invariant
                k <= frames,
                channels == self.channels,
                channels > 0,
                self.wf(),
                self.pos == old(self).pos,
                self.samples == old(self).samples,
                len == self.samples@[0]@.len(),
                self.pos + frames < len,
                out_len == dat_slice@.len(),
                out_len == old(dat_slice)@.len(),
                frames * channels <= out_len,
                forall|k2: int, c: int|
                    #![trigger self.samples@[c]@[self.pos + k2]]
                    0 <= k2 < k && 0 <= c < channels ==> dat_slice@[k2 * channels + c]
                        == self.samples@[c]@[self.pos + k2],
                forall|i: int|
                    k * channels <= i < out_len ==> #[trigger] dat_slice@[i] == old(dat_slice)@[i],
            decreases frames - k,
        {
            proof {
                assert(k * channels + channels <= frames * channels) by (nonlinear_arith)
                    requires
                        k + 1 <= frames,
                        channels > 0,
                ;
                assert(k * channels >= 0) by (nonlinear_arith)
                    requires
                        k >= 0,
                        channels > 0,
                ;
            }
            let base: usize = k * channels;
            let mut c: usize = 0;
            while c < channels
                invariant
                    c <= channels,
                    k < frames,
                    channels == self.channels,
                    channels > 0,
                    self.wf(),
                    self.pos == old(self).pos,
                    self.samples == old(self).samples,
                    len == self.samples@[0]@.len(),
                    self.pos + frames < len,
                    base == k * channels,
                    base + channels <= out_len,
                    out_len == dat_slice@.len(),
                    out_len == old(dat_slice)@.len(),
                    forall|k2: int, c2: int|
                        #![trigger self.samples@[c2]@[self.pos + k2]]
                        0 <= c2 < channels && (0 <= k2 < k || (k2 == k && c2 < c))
                            ==> dat_slice@[k2 * channels + c2] == self.samples@[c2]@[self.pos + k2],
                    forall|i: int|
                        base + c <= i < out_len ==> #[trigger] dat_slice@[i] == old(dat_slice)@[i],
                decreases channels - c,
            {
                let ghost held = dat_slice@;
                let sample: T = self.samples[c][self.pos + k];
                dat_slice[base + c] = sample;
                proof {
                    assert forall|k2: int, c2: int|
                        #![trigger self.samples@[c2]@[self.pos + k2]]
                        0 <= c2 < channels && (0 <= k2 < k || (k2 == k && c2 < c + 1))
                        implies dat_slice@[k2 * channels + c2] == self.samples@[c2]@[self.pos
                        + k2] by {
                        if k2 < k {
                            assert(k2 * channels + channels <= k * channels) by (nonlinear_arith)
                                requires
                                    k2 + 1 <= k,
                                    channels > 0,
                            ;
                            assert(held[k2 * channels + c2] == self.samples@[c2]@[self.pos
                                + k2]);
                        } else if c2 < c {
                            assert(held[k2 * channels + c2] == self.samples@[c2]@[self.pos
                                + k2]);
                        }
                    }
                }
                c += 1;
            }
            proof {
                assert((k + 1) * channels == base + channels) by (nonlinear_arith)
                    requires
                        base == k * channels,
                ;
            }
            k += 1;
        }
        self.pos = self.pos + frames;
    }
}

/// What a file player does for one chunk of output.
#[derive(PartialEq, Eq, Structural, Clone, Copy, Debug)]
pub enum PlayAction {
    /// Leave the output as it is.
    Idle,
    /// Go back to the start of the audio data, and report no progress.
    Rewind,
    /// The end of the audio data is reached: leave the output as it is.
    Finish,
    /// Read this many bytes from the file and decode them into the output.
    Read { bytes: usize },
}

/// Where a file player stands: its position in the file, the range of the
/// audio data, and whether it is paused or has finished.
#[derive(PartialEq, Eq, Structural, Clone, Copy, Debug)]
pub struct PlaybackCursor {
    pub finished: bool,
    pub paused: bool,
    pub pos: usize,
    pub start_pos: usize,
    pub end_pos: usize,
}

impl PlaybackCursor {
    /// The cursor after a chunk of `len` samples of `byte_depth` bytes each
    /// was asked for.
    pub open spec fn after_chunk(self, len: usize, byte_depth: usize) -> PlaybackCursor {
        if self.paused {
            self
        } else if self.finished {
            if self.pos == self.start_pos {
                self
            } else {
                PlaybackCursor { pos: self.start_pos, paused: true, ..self }
            }
        } else if self.pos + len * byte_depth >= self.end_pos {
            PlaybackCursor { finished: true, ..self }
        } else {
            PlaybackCursor { pos: (self.pos + len * byte_depth) as usize, ..self }
        }
    }

    /// What the player does when a chunk of `len` samples of `byte_depth`
    /// bytes each is asked for.
    pub open spec fn action_for(self, len: usize, byte_depth: usize) -> PlayAction {
        if self.paused {
            PlayAction::Idle
        } else if self.finished {
            if self.pos == self.start_pos {
                PlayAction::Idle
            } else {
                PlayAction::Rewind
            }
        } else if self.pos + len * byte_depth >= self.end_pos {
            PlayAction::Finish
        } else {
            PlayAction::Read { bytes: (len * byte_depth) as usize }
        }
    }

    /// The position that a request to play from `raw_pos` leads to: the
    /// start of the block of `block_size` bytes that holds `raw_pos`, but
    /// inside the audio data.
    pub open spec fn aligned(self, raw_pos: usize, block_size: usize) -> int {
        let block_start = raw_pos as int - (raw_pos as int) % (block_size as int);
        if block_start < self.start_pos {
            self.start_pos as int
        } else if block_start > self.end_pos {
            self.end_pos as int
        } else {
            block_start
        }
    }

    /// A cursor for audio data of `data_size` bytes that begin at
    /// `start_pos`. The player is neither paused nor finished.
    pub fn new(start_pos: usize, data_size: usize) -> (r: Self)
        requires
            start_pos + data_size <= usize::MAX,
        ensures
            r == (PlaybackCursor {
                finished: false,
                paused: false,
                pos: 0,
                start_pos,
                end_pos: (start_pos + data_size) as usize,
            }),
    {
        Self { finished: false, paused: false, pos: 0, start_pos, end_pos: start_pos + data_size }
    }

    /// Decides what to do for a chunk of `len` samples of `byte_depth` bytes
    /// each. A paused player idles. A finished player goes back to the start
    /// and pauses there. Otherwise the chunk is read, unless it would reach
    /// the end of the audio data: then the player is finished.
    pub fn next_chunk(&mut self, len: usize, byte_depth: usize) -> (action: PlayAction)
        ensures
            action == old(self).action_for(len, byte_depth),
            *final(self) == old(self).after_chunk(len, byte_depth),
    {
        if self.paused {
            return PlayAction::Idle;
        }
        if self.finished {
            if self.pos == self.start_pos {
                return PlayAction::Idle;
            }
            self.pos = self.start_pos;
            self.paused = true;
            return PlayAction::Rewind;
        }
        let reaches_end: bool = match len.checked_mul(byte_depth) {
            None => true,
            Some(bytes) => self.pos >= self.end_pos || bytes >= self.end_pos - self.pos,
        };
        if reaches_end {
            proof {
                if len * byte_depth > usize::MAX {
                    assert(self.pos + len * byte_depth >= self.end_pos);
                }
            }
            self.finished = true;
            return PlayAction::Finish;
        }
        let bytes: usize = len * byte_depth;
        self.pos = self.pos + bytes;
        PlayAction::Read { bytes }
    }

    /// Moves the cursor to the block that holds `raw_pos`, kept inside the
    /// audio data, and returns the new position.
    pub fn set_progress(&mut self, raw_pos: usize, block_size: usize) -> (new_pos: usize)
        requires
            block_size > 0,
            old(self).start_pos <= old(self).end_pos,
        ensures
            new_pos == old(self).aligned(raw_pos, block_size),
            *final(self) == (PlaybackCursor { pos: new_pos, ..*old(self) }),
    {
        proof {
            vstd::arithmetic::div_mod::lemma_mod_decreases(raw_pos as nat, block_size as nat);
        }
        let mut new_pos: usize = raw_pos - raw_pos % block_size;
        if new_pos < self.start_pos {
            new_pos = self.start_pos;
        } else if new_pos > self.end_pos {
            new_pos = self.end_pos;
        }
        self.pos = new_pos;
        new_pos
    }
}

} // verus!
