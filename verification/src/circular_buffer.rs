//! A fixed-capacity ring of samples that can be read back oldest-first.

use vstd::prelude::*;

verus! {

/// A ring buffer with a fixed number of slots and a write cursor.
///
/// The view of a buffer is its content in chronological order: index 0 is the
/// oldest sample, the last index the one written most recently.
pub struct CircularBuffer<T> {
    buffer: Vec<T>,
    pos: usize,
    buffer_size: usize,
}

/// What a window of samples looks like after `chunk` was written into it:
/// the old content followed by the chunk, cut down to its newest
/// `window.len()` samples.
pub open spec fn shifted_in<T>(window: Seq<T>, chunk: Seq<T>) -> Seq<T> {
    (window + chunk).subrange(chunk.len() as int, (window.len() + chunk.len()) as int)
}

/// The window after each chunk of `chunks` was written into it in turn.
pub open spec fn after_writes<T>(window: Seq<T>, chunks: Seq<Seq<T>>) -> Seq<T>
    decreases chunks.len(),
{
    if chunks.len() == 0 {
        window
    } else {
        shifted_in(after_writes(window, chunks.drop_last()), chunks.last())
    }
}

/// Appending one sample is the same as writing a chunk that holds only it.
pub proof fn lemma_append_is_single_write<T>(window: Seq<T>, e: T)
    requires
        window.len() > 0,
    ensures
        window.drop_first().push(e) == shifted_in(window, seq![e]),
{
    assert(window.drop_first().push(e) =~= shifted_in(window, seq![e]));
}

/// Writing two chunks one after the other leaves what writing their
/// concatenation at once leaves.
pub proof fn lemma_split_write<T>(window: Seq<T>, first: Seq<T>, second: Seq<T>)
    ensures
        shifted_in(shifted_in(window, first), second) == shifted_in(window, first + second),
{
    assert(shifted_in(shifted_in(window, first), second) =~= shifted_in(window, first + second));
}

/// However a run of samples is cut into chunks, writing the chunks in order
/// leaves what writing the whole run at once leaves.
pub proof fn lemma_writes_compose<T>(window: Seq<T>, chunks: Seq<Seq<T>>)
    ensures
        after_writes(window, chunks) == shifted_in(window, chunks.flatten()),
    decreases chunks.len(),
{
    if chunks.len() == 0 {
        assert(shifted_in(window, chunks.flatten()) =~= window);
    } else {
        let init = chunks.drop_last();
        lemma_writes_compose(window, init);
        lemma_split_write(window, init.flatten(), chunks.last());
        init.lemma_flatten_push(chunks.last());
        assert(init.push(chunks.last()) =~= chunks);
    }
}

/// Chunks whose lengths add up to the capacity replace the whole content: the
/// window then reads back as exactly the samples written, in the order they
/// were written, whatever the cuts between the chunks.
pub proof fn lemma_full_rewrite<T>(window: Seq<T>, chunks: Seq<Seq<T>>)
    requires
        chunks.flatten().len() == window.len(),
    ensures
        after_writes(window, chunks) == chunks.flatten(),
{
    lemma_writes_compose(window, chunks);
    assert(shifted_in(window, chunks.flatten()) =~= chunks.flatten());
}

impl<T> View for CircularBuffer<T> {
    type V = Seq<T>;

    closed spec fn view(&self) -> Seq<T> {
        self.buffer@.subrange(self.pos as int, self.buffer@.len() as int) + self.buffer@.subrange(
            0,
            self.pos as int,
        )
    }
}

impl<T> CircularBuffer<T> {
    /// The cursor stays inside the ring, and the ring has the size it was made with.
    pub closed spec fn wf(&self) -> bool {
        &&& self.buffer@.len() == self.buffer_size
        &&& (self.pos < self.buffer_size || (self.pos == 0 && self.buffer_size == 0))
    }

    /// The physical slot that the next sample is written to.
    pub closed spec fn cursor(&self) -> nat {
        self.pos as nat
    }

    /// A well-formed buffer keeps its cursor below its capacity.
    pub proof fn lemma_cursor_in_range(&self)
        requires
            self.wf(),
        ensures
            self.cursor() <= self@.len(),
            self@.len() > 0 ==> self.cursor() < self@.len(),
    {
    }
}

impl<T: Copy> CircularBuffer<T> {
    /// A buffer of `buffer_size` slots, each holding `fill`.
    pub fn new(buffer_size: usize, fill: T) -> (r: Self)
        ensures
            r.wf(),
            r@ == Seq::new(buffer_size as nat, |i: int| fill),
            r.cursor() == 0,
    {
        let mut buffer: Vec<T> = Vec::with_capacity(buffer_size);
        let mut i: usize = 0;
        while i < buffer_size
            invariant
                i <= buffer_size,
                buffer@ == Seq::new(i as nat, |k: int| fill),
            decreases buffer_size - i,
        {
            buffer.push(fill);
            i += 1;
        }
        let r = Self { buffer, pos: 0, buffer_size };
        assert(r@ =~= Seq::new(buffer_size as nat, |i: int| fill));
        r
    }

    /// Overwrites the oldest sample with `e`, which becomes the newest.
    pub fn append(&mut self, e: T)
        requires
            old(self).wf(),
            old(self)@.len() > 0,
        ensures
            final(self).wf(),
            final(self)@ == old(self)@.drop_first().push(e),
            final(self).cursor() == (old(self).cursor() + 1) % old(self)@.len(),
    {
        let ghost n = self.buffer_size as int;
        let ghost p = self.pos as int;
        self.buffer.set(self.pos, e);
        self.pos = (self.pos + 1) % self.buffer_size;
        proof {
            assert((p + 1) % n == if p + 1 == n { 0 } else { p + 1 }) by {
                if p + 1 < n {
                    vstd::arithmetic::div_mod::lemma_small_mod((p + 1) as nat, n as nat);
                } else {
                    vstd::arithmetic::div_mod::lemma_mod_self_0(n);
                }
            }
            assert(self@ =~= old(self)@.drop_first().push(e));
        }
    }

    /// Writes the samples of `e` in order, as if each had been appended on its
    /// own: the buffer then holds its newest samples, those of `e` last.
    pub fn append_slice(&mut self, e: &[T])
        requires
            old(self).wf(),
            old(self)@.len() > 0,
            e@.len() <= old(self)@.len(),
        ensures
            final(self).wf(),
            final(self)@ == shifted_in(old(self)@, e@),
            final(self).cursor() == (old(self).cursor() + e@.len()) % old(self)@.len(),
    {
        let n: usize = self.buffer_size;
        let len: usize = e.len();
        let room: usize = n - self.pos;
        let ghost p = self.pos as int;
        if room > len {
            copy_run(&mut self.buffer, self.pos, e, 0, len);
            self.pos = self.pos + len;
            proof {
                vstd::arithmetic::div_mod::lemma_small_mod((p + len) as nat, n as nat);
            }
        } else {
            copy_run(&mut self.buffer, self.pos, e, 0, room);
            copy_run(&mut self.buffer, 0, e, room, len - room);
            self.pos = len - room;
            proof {
                let q = p + len - n;
                assert((p + len) % (n as int) == q) by {
                    if q < n {
                        vstd::arithmetic::div_mod::lemma_fundamental_div_mod_converse(
                            p + len,
                            n as int,
                            1,
                            q,
                        );
                    }
                }
            }
        }
        assert(self@ =~= shifted_in(old(self)@, e@));
    }

    /// The content in chronological order, oldest sample first.
    pub fn get_ordered(&self) -> (r: Vec<T>)
        requires
            self.wf(),
        ensures
            r@ == self@,
    {
        let mut out: Vec<T> = Vec::with_capacity(self.buffer_size);
        let mut i: usize = self.pos;
        while i < self.buffer_size
            invariant
                self.wf(),
                self.pos <= i <= self.buffer_size,
                out@ == self.buffer@.subrange(self.pos as int, i as int),
            decreases self.buffer_size - i,
        {
            out.push(self.buffer[i]);
            i += 1;
        }
        let mut j: usize = 0;
        while j < self.pos
            invariant
                self.wf(),
                j <= self.pos,
                out@ == self.buffer@.subrange(self.pos as int, self.buffer_size as int)
                    + self.buffer@.subrange(0, j as int),
            decreases self.pos - j,
        {
            out.push(self.buffer[j]);
            j += 1;
        }
        out
    }

    /// The content in chronological order as two borrowed runs: the older
    /// samples, which lie from the cursor to the end of the ring, and the newer
    /// ones, which lie before the cursor.
    pub fn get_ordered_slices(&self) -> (r: (&[T], &[T]))
        requires
            self.wf(),
        ensures
            r.0@ == self@.subrange(0, self@.len() - self.cursor()),
            r.1@ == self@.subrange(self@.len() - self.cursor(), self@.len() as int),
            r.0@ + r.1@ == self@,
    {
        let (newer, older) = self.buffer.as_slice().split_at(self.pos);
        assert(older@ =~= self@.subrange(0, self@.len() - self.cursor()));
        assert(newer@ =~= self@.subrange(self@.len() - self.cursor(), self@.len() as int));
        assert(older@ + newer@ =~= self@);
        (older, newer)
    }
}

/// Copies `count` samples of `src`, from index `from` on, over those of `dst`
/// from index `at` on.
fn copy_run<T: Copy>(dst: &mut Vec<T>, at: usize, src: &[T], from: usize, count: usize)
    requires
        at + count <= old(dst)@.len(),
        from + count <= src@.len(),
    ensures
        final(dst)@.len() == old(dst)@.len(),
        forall|i: int|
            0 <= i < old(dst)@.len() ==> #[trigger] final(dst)@[i] == if at <= i < at + count {
                src@[i - at + from]
            } else {
                old(dst)@[i]
            },
{
    let dst_len: usize = dst.len();
    let src_len: usize = src.len();
    let mut k: usize = 0;
    while k < count
        invariant
            k <= count,
            at + count <= dst_len,
            from + count <= src_len,
            src_len == src@.len(),
            dst_len == dst@.len(),
            dst@.len() == old(dst)@.len(),
            forall|i: int|
                0 <= i < dst@.len() ==> #[trigger] dst@[i] == if at <= i < at + k {
                    src@[i - at + from]
                } else {
                    old(dst)@[i]
                },
        decreases count - k,
    {
        dst.set(at + k, src[from + k]);
        k += 1;
    }
}

} // verus!
