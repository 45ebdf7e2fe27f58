//! The writer: a buffer of bytes, a cursor counted in bits, and a sink.

use crate::bits::{
    all_bits, bitstream, clean_from, fits, inserted, lemma_all_bits_concat, lemma_clean_bytes,
    lemma_drained, lemma_inserted, lemma_inserted_any_count, lemma_padded, lemma_zero_bytes_clean,
    value_bits, with_slices, zero_bits, zero_bytes,
};
use crate::sink::{
    lemma_linked_concat, lemma_resilient_taken, lemma_taken_over_concat, linked, next_step,
    progress, resilient, Exchange, Progress, Recorded, Sink, Step, WriteError, RETRY_LIMIT,
};
use crate::width::{put_slice, ByteSize};
use vstd::prelude::*;
use vstd::slice::slice_subrange;

verus! {

/// Packs values of one to sixty-four bits, least significant bit first and
/// with nothing between them, into a buffer that is drained into a sink.
///
/// The buffer is a vector of fixed length, the capacity. The cursor `bits`
/// says how many bits of it are in use.
pub struct VariableSizeByteWriter<W> where W: Sink {
    /// The buffer; its length never changes.
    pub buf: Vec<u8>,
    /// The number of bits of the buffer that are in use.
    pub bits: u32,
    /// The sink, with the record of what it has taken.
    pub target: Recorded<W>,
}

impl<W> VariableSizeByteWriter<W> where W: Sink {
    /// The writer is well formed: the buffer is not empty, its size in bits
    /// fits the cursor's type, the cursor is inside it, and no bit at or
    /// above the cursor is set.
    pub open spec fn wf(&self) -> bool {
        &&& 0 < self.buf@.len()
        &&& 8 * self.buf@.len() <= u32::MAX
        &&& self.bits <= 8 * self.buf@.len()
        &&& clean_from(self.buf@, self.bits as nat)
    }

    /// The bits that wait in the buffer.
    pub open spec fn buffered(&self) -> Seq<bool> {
        bitstream(self.buf@, self.bits as nat)
    }

    /// The bytes that the sink has taken.
    pub open spec fn sent(&self) -> Seq<u8> {
        self.target.taken()
    }

    /// The bits that the sink has taken.
    pub open spec fn emitted(&self) -> Seq<bool> {
        all_bits(self.sent())
    }

    /// Every bit written so far: those that the sink has taken, then those
    /// that wait in the buffer.
    pub open spec fn stream(&self) -> Seq<bool> {
        self.emitted() + self.buffered()
    }

    /// The number of bytes that the sink has taken between the states `pre`
    /// and `post`.
    pub open spec fn taken(pre: Self, post: Self) -> int {
        post.sent().len() - pre.sent().len()
    }

    /// Between the states `pre` and `post` the sink was offered `bytes` in
    /// one write that does not give up easily, and nothing else: the
    /// exchanges with the sink since `pre` are those of such a write, which
    /// ended with `result`, and they took the sink from what it was in
    /// `pre` to what it is in `post`.
    pub open spec fn sent_out(
        pre: Self,
        post: Self,
        bytes: Seq<u8>,
        result: Result<(), WriteError<W::Error>>,
    ) -> bool {
        let before = pre.target.history();
        let run = post.target.history().skip(before.len() as int);
        &&& before.len() <= post.target.history().len()
        &&& post.target.history() == before + run
        &&& 0 <= Self::taken(pre, post)
        &&& resilient(bytes, run, Self::taken(pre, post) as nat, result)
        &&& post.target.origin() == pre.target.origin()
        &&& linked(run, pre.target.inner(), post.target.inner())
    }

    /// Where bytes were sent out, what the sink has taken has grown by the
    /// first of them, by all of them exactly where the write succeeded,
    /// where there were no bytes nothing was offered to the sink, and a
    /// record that was that of the sink still is.
    pub proof fn lemma_sent_out(
        pre: Self,
        post: Self,
        bytes: Seq<u8>,
        result: Result<(), WriteError<W::Error>>,
    )
        requires
            Self::sent_out(pre, post, bytes, result),
        ensures
            0 <= Self::taken(pre, post) <= bytes.len(),
            post.sent() == pre.sent() + bytes.take(Self::taken(pre, post)),
            result is Ok <==> Self::taken(pre, post) == bytes.len(),
            bytes.len() == 0 ==> post.target.history() == pre.target.history(),
            pre.target.faithful() ==> post.target.faithful(),
    {
        let before = pre.target.history();
        let run = post.target.history().skip(before.len() as int);
        lemma_resilient_taken(bytes, run, Self::taken(pre, post) as nat, result);
        lemma_taken_over_concat(before, run);
        if bytes.len() == 0 {
            assert(before + run =~= before);
        }
        if pre.target.faithful() {
            lemma_linked_concat(
                before,
                run,
                pre.target.origin(),
                pre.target.inner(),
                post.target.inner(),
            );
        }
    }

    /// Between the states `pre` and `post` some of the complete bytes of the
    /// buffer, its first, went to the sink, and nothing else happened: what
    /// the sink has taken has grown by them, what was behind them in the
    /// buffer now stands at its start, followed by zero bytes, and the
    /// cursor has moved back by as many bytes.
    pub open spec fn drained(pre: Self, post: Self) -> bool {
        let w = Self::taken(pre, post);
        &&& 0 <= 8 * w <= pre.bits
        &&& post.sent() == pre.sent() + pre.buf@.subrange(0, w)
        &&& post.buf@ == pre.buf@.skip(w) + zero_bytes(w as nat)
        &&& post.bits == pre.bits - 8 * w
    }

    /// Between the states `pre` and `post` the sink took every byte in use,
    /// the last, unfinished one included, and the buffer is empty again.
    pub open spec fn flushed(pre: Self, post: Self) -> bool {
        &&& post.sent() == pre.sent() + pre.buf@.subrange(0, pre.all_bytes() as int)
        &&& post.buf@ == zero_bytes(pre.buf@.len())
        &&& post.bits == 0
    }

    /// Between the states `pre` and `post` the low `n` bits of `v` were
    /// written: where the buffer had no room for them the sink first took
    /// all its complete bytes, and then the value was laid down at the
    /// cursor.
    pub open spec fn written(pre: Self, post: Self, v: u64, n: u32) -> bool {
        let w = if pre.bits + n <= 8 * pre.buf@.len() {
            0
        } else {
            pre.complete_bytes() as int
        };
        let at = (pre.bits - 8 * w) as nat;
        &&& post.sent() == pre.sent() + pre.buf@.subrange(0, w)
        &&& post.buf@ == inserted(
            pre.buf@.skip(w) + zero_bytes(w as nat),
            at,
            v,
            (at % 8 + n - 1) / 8,
        )
        &&& post.bits == at + n
    }

    /// Draining keeps the writer well formed and the stream as it was.
    pub proof fn lemma_drained_stream(pre: Self, post: Self)
        requires
            pre.wf(),
            Self::drained(pre, post),
        ensures
            post.wf(),
            post.stream() == pre.stream(),
    {
        let w = Self::taken(pre, post);
        lemma_drained(pre.buf@, pre.bits as nat, w as nat);
        lemma_all_bits_concat(pre.sent(), pre.buf@.subrange(0, w));
        assert(post.stream() =~= pre.stream());
    }

    /// After a flush the writer is well formed and empty, and the sink has
    /// the whole stream, followed by the clear bits that complete its last
    /// byte.
    pub proof fn lemma_flushed_stream(pre: Self, post: Self)
        requires
            pre.wf(),
            Self::flushed(pre, post),
        ensures
            post.wf(),
            post.buffered() == Seq::<bool>::empty(),
            post.emitted() == pre.stream() + zero_bits(pre.padding() as nat),
    {
        lemma_zero_bytes_clean(pre.buf@.len());
        lemma_padded(pre.buf@, pre.bits as nat);
        lemma_all_bits_concat(pre.sent(), pre.buf@.subrange(0, pre.all_bytes() as int));
        assert(post.buffered() =~= Seq::<bool>::empty());
        assert(post.emitted() =~= pre.stream() + zero_bits(pre.padding() as nat));
    }

    /// After a write the writer is well formed, and the stream is what it
    /// was, followed by the value's bits.
    pub proof fn lemma_written_stream(pre: Self, post: Self, v: u64, n: u32)
        requires
            pre.wf(),
            1 <= n <= 64,
            fits(v, n),
            pre.bits % 8 + n <= 8 * pre.buf@.len(),
            Self::written(pre, post, v, n),
        ensures
            post.wf(),
            post.stream() == pre.stream() + value_bits(v, n as nat),
    {
        let w = if pre.bits + n <= 8 * pre.buf@.len() {
            0
        } else {
            pre.complete_bytes() as int
        };
        let at = (pre.bits - 8 * w) as nat;
        let moved = pre.buf@.skip(w) + zero_bytes(w as nat);
        lemma_drained(pre.buf@, pre.bits as nat, w as nat);
        lemma_all_bits_concat(pre.sent(), pre.buf@.subrange(0, w));
        lemma_inserted(moved, at, v, n, (at % 8 + n - 1) / 8);
        assert(post.stream() =~= pre.stream() + value_bits(v, n as nat));
    }

    /// A writer with a buffer of 8192 bytes.
    pub fn new(target: W) -> (writer: Self)
        ensures
            writer.wf(),
            writer.buf@ == zero_bytes(8192),
            writer.bits == 0,
            writer.target.inner() == target,
            writer.target.origin() == target,
            writer.target.history() == Seq::<Exchange<W>>::empty(),
            writer.stream() == Seq::<bool>::empty(),
    {
        Self::with_capacity(target, 8192)
    }

    /// A writer with a buffer of `cap` bytes.
    pub fn with_capacity(target: W, cap: usize) -> (writer: Self)
        requires
            0 < cap,
            8 * cap <= u32::MAX,
        ensures
            writer.wf(),
            writer.buf@ == zero_bytes(cap as nat),
            writer.bits == 0,
            writer.target.inner() == target,
            writer.target.origin() == target,
            writer.target.history() == Seq::<Exchange<W>>::empty(),
            writer.stream() == Seq::<bool>::empty(),
    {
        let buf = vec![0u8; cap];
        proof {
            assert(buf@ =~= zero_bytes(cap as nat));
            lemma_zero_bytes_clean(cap as nat);
        }
        VariableSizeByteWriter { buf, bits: 0, target: Recorded::new(target) }
    }

    /// Writes the low `bits` bits of `variable` behind everything written
    /// so far.
    ///
    /// Where the buffer has room for the bits, they are laid down and the
    /// sink is not touched. Where it has not, the complete bytes of the
    /// buffer are drained into the sink first, once; if the sink gives up,
    /// the value is not written and the error is returned, with the stream
    /// as it was.
    ///
    /// The class `M` chooses how the bytes are stored, never what is
    /// written: where the value fits the class and the buffer has room for
    /// the whole class the stores are unrolled, else exactly the bytes that
    /// the value reaches are stored.
    pub fn write<M>(&mut self, variable: u64, bits: u32) -> (r: Result<(), WriteError<W::Error>>)
        where M: ByteSize
        requires
            old(self).wf(),
            1 <= bits <= 64,
            fits(variable, bits),
            old(self).bits % 8 + bits <= 8 * old(self).buf.len(),
        ensures
            final(self).wf(),
            final(self).buf@.len() == old(self).buf@.len(),
            match r {
                Ok(()) => Self::written(*old(self), *final(self), variable, bits),
                Err(_) => Self::drained(*old(self), *final(self)) && Self::taken(
                    *old(self),
                    *final(self),
                ) < old(self).complete_bytes(),
            },
            if old(self).bits + bits <= 8 * old(self).buf.len() {
                r is Ok && final(self).target == old(self).target
            } else {
                Self::sent_out(
                    *old(self),
                    *final(self),
                    old(self).buf@.subrange(0, old(self).complete_bytes() as int),
                    r,
                )
            },
            r is Ok ==> final(self).stream() == old(self).stream() + value_bits(
                variable,
                bits as nat,
            ),
            r is Err ==> final(self).stream() == old(self).stream(),
    {
        if self.bits as u64 + bits as u64 > 8 * (self.buf.len() as u64) {
            match self.flush_complete_bytes() {
                Ok(()) => {},
                Err(e) => {
                    return Err(e);
                },
            }
        }
        let ghost moved = self.buf@;
        let ghost at = self.bits as nat;
        proof {
            M::bytes_in_range();
            let w = Self::taken(*old(self), *self);
            assert(moved =~= old(self).buf@.skip(w) + zero_bytes(w as nat));
            assert(self.sent() =~= old(self).sent() + old(self).buf@.subrange(0, w));
        }
        if bits as usize <= 8 * M::to_usize() && self.can_insert::<M>() {
            self.insert::<M>(variable, bits);
            proof {
                lemma_inserted_any_count(
                    moved,
                    at,
                    variable,
                    bits,
                    M::bytes() as int,
                    (at % 8 + bits - 1) / 8,
                );
            }
        } else {
            self.insert_exact(variable, bits);
        }
        proof {
            Self::lemma_written_stream(*old(self), *self, variable, bits);
        }
        Ok(())
    }

    /// Drains the whole buffer into the sink, the last, unfinished byte
    /// included, and reports in `padding` how many clear bits complete that
    /// byte.
    ///
    /// Where the sink takes every byte the buffer is empty afterwards, and
    /// the sink has the stream followed by `padding` clear bits. Where it
    /// gives up, the bytes that it took before are gone from the buffer, the
    /// rest has moved to its start, and the error is returned: the stream is
    /// what it was, and the flush can be made again. An empty buffer is left
    /// as it is, and the sink is not touched.
    pub fn flush(&mut self, padding: &mut u32) -> (r: Result<(), WriteError<W::Error>>)
        requires
            old(self).wf(),
        ensures
            final(self).wf(),
            *final(padding) == old(self).padding(),
            old(self).bits == 0 ==> r is Ok && final(self).target == old(self).target,
            old(self).bits == 0 ==> final(self).buf@ == old(self).buf@ && *final(padding) == 0,
            Self::sent_out(
                *old(self),
                *final(self),
                old(self).buf@.subrange(0, old(self).all_bytes() as int),
                r,
            ),
            match r {
                Ok(()) => Self::flushed(*old(self), *final(self)),
                Err(_) => Self::drained(*old(self), *final(self)) && Self::taken(
                    *old(self),
                    *final(self),
                ) < old(self).all_bytes(),
            },
            r is Ok ==> final(self).emitted() == old(self).stream() + zero_bits(
                old(self).padding() as nat,
            ),
            r is Err ==> final(self).stream() == old(self).stream(),
    {
        let bytes = self.all_bytes();
        *padding = self.padding();
        let mut written: usize = 0;
        let result = self.write_range(0, bytes, &mut written);
        proof {
            lemma_clean_bytes(old(self).buf@, old(self).bits as nat);
        }
        match result {
            Ok(()) => {
                self.erase_all_bytes();
                proof {
                    assert(self.buf@ =~= zero_bytes(self.buf@.len()));
                    Self::lemma_flushed_stream(*old(self), *self);
                }
                Ok(())
            },
            Err(e) => {
                if written > 0 {
                    self.move_range_to_start(written, bytes);
                }
                proof {
                    assert(self.buf@ =~= old(self).buf@.skip(written as int) + zero_bytes(
                        written as nat,
                    ));
                    Self::lemma_drained_stream(*old(self), *self);
                }
                Err(e)
            },
        }
    }

    /// Drains the complete bytes of the buffer into the sink.
    ///
    /// Where the sink takes them all, only the bits of the last, unfinished
    /// byte stay, at the start of the buffer. Where it gives up, the bytes
    /// that it took before are gone from the buffer, the rest has moved to
    /// its start, and the error is returned. Either way no bit is lost: the
    /// stream is what it was.
    pub fn flush_complete_bytes(&mut self) -> (r: Result<(), WriteError<W::Error>>)
        requires
            old(self).wf(),
        ensures
            final(self).wf(),
            Self::sent_out(
                *old(self),
                *final(self),
                old(self).buf@.subrange(0, old(self).complete_bytes() as int),
                r,
            ),
            Self::drained(*old(self), *final(self)),
            r is Ok <==> Self::taken(*old(self), *final(self)) == old(self).complete_bytes(),
            old(self).bits < 8 ==> final(self).target == old(self).target,
            final(self).stream() == old(self).stream(),
    {
        let complete = self.complete_bytes();
        let bytes = self.all_bytes();
        let mut written: usize = 0;
        let result = self.write_range(0, complete, &mut written);
        proof {
            lemma_clean_bytes(old(self).buf@, old(self).bits as nat);
        }
        match result {
            Ok(()) => {
                self.erase_complete_bytes();
                proof {
                    assert(self.buf@ =~= old(self).buf@.skip(written as int) + zero_bytes(
                        written as nat,
                    ));
                    Self::lemma_drained_stream(*old(self), *self);
                }
                Ok(())
            },
            Err(e) => {
                if written > 0 {
                    self.move_range_to_start(written, bytes);
                }
                proof {
                    assert(self.buf@ =~= old(self).buf@.skip(written as int) + zero_bytes(
                        written as nat,
                    ));
                    Self::lemma_drained_stream(*old(self), *self);
                }
                Err(e)
            },
        }
    }

    /// Offers the bytes from index `from` up to index `to` to the sink until
    /// it has taken them all or the write gives up, and counts in `written`
    /// how many it took.
    ///
    /// Each offer is the part not yet taken, and what follows from each
    /// answer of the sink is decided by `next_step`: the exchanges with the
    /// sink are those of a resilient write. The buffer is not changed.
    pub fn write_range(&mut self, from: usize, to: usize, written: &mut usize) -> (r: Result<
        (),
        WriteError<W::Error>,
    >)
        requires
            from <= to <= old(self).buf.len(),
        ensures
            final(self).buf@ == old(self).buf@,
            final(self).bits == old(self).bits,
            Self::sent_out(
                *old(self),
                *final(self),
                old(self).buf@.subrange(from as int, to as int),
                r,
            ),
            *final(written) == Self::taken(*old(self), *final(self)),
            final(self).sent() == old(self).sent() + old(self).buf@.subrange(
                from as int,
                from + *final(written),
            ),
            r is Ok ==> *final(written) == to - from,
            r is Err ==> *final(written) < to - from,
            from == to ==> r is Ok && final(self).target == old(self).target,
    {
        *written = 0;
        let mut retries: usize = 0;
        let ghost bytes = self.buf@.subrange(from as int, to as int);
        let ghost before = self.target.history();
        proof {
            assert(before + Seq::<Exchange<W>>::empty() =~= before);
            assert(before.skip(before.len() as int) =~= Seq::<Exchange<W>>::empty());
        }
        while from + *written < to
            invariant
                from <= to <= self.buf.len(),
                *written <= to - from,
                self.buf@ == old(self).buf@,
                self.bits == old(self).bits,
                bytes == old(self).buf@.subrange(from as int, to as int),
                before == old(self).target.history(),
                before.len() <= self.target.history().len(),
                self.target.history() == before + self.target.history().skip(before.len() as int),
                progress(bytes, self.target.history().skip(before.len() as int)) == Some(
                    Progress { written: *written as nat, retries: retries as nat },
                ),
                *written == to - from ==> retries == 0,
                from == to ==> self.target == old(self).target,
                self.target.origin() == old(self).target.origin(),
                linked(
                    self.target.history().skip(before.len() as int),
                    old(self).target.inner(),
                    self.target.inner(),
                ),
            decreases to - from - *written, RETRY_LIMIT - retries,
        {
            let start = from + *written;
            let ghost run = self.target.history().skip(before.len() as int);
            let ghost sink = self.target.inner();
            let reply = self.target.accept(slice_subrange(self.buf.as_slice(), start, to));
            proof {
                let now = self.target.history().skip(before.len() as int);
                let last = Exchange {
                    before: sink,
                    offered: self.buf@.subrange(start as int, to as int),
                    reply,
                    after: self.target.inner(),
                };
                assert(now =~= run.push(last));
                assert(now.drop_last() =~= run);
                assert(self.target.history() =~= before + now);
                assert(last.offered =~= bytes.skip(*written as int));
            }
            match next_step(reply, to - start, retries) {
                Step::Taken(n) => {
                    *written = *written + n;
                    retries = 0;
                },
                Step::Retry => {
                    retries = retries + 1;
                },
                Step::Stop(e) => {
                    proof {
                        let now = self.target.history().skip(before.len() as int);
                        lemma_resilient_taken(bytes, now, *written as nat, Err(e));
                        lemma_taken_over_concat(before, now);
                        assert(bytes.take(*written as int) =~= old(self).buf@.subrange(
                            from as int,
                            from + *written,
                        ));
                    }
                    return Err(e);
                },
            }
        }
        proof {
            let now = self.target.history().skip(before.len() as int);
            lemma_resilient_taken(bytes, now, *written as nat, Ok(()));
            lemma_taken_over_concat(before, now);
            assert(bytes.take(*written as int) =~= old(self).buf@.subrange(
                from as int,
                from + *written,
            ));
        }
        Ok(())
    }

    /// Whether the buffer has room, behind the byte that holds the cursor,
    /// for all the bytes that a value of the class `M` may reach.
    pub fn can_insert<M>(&self) -> (b: bool) where M: ByteSize
        ensures
            b == (self.complete_bytes() + M::bytes() < self.buf.len()),
    {
        proof {
            M::bytes_in_range();
        }
        let bytes = M::to_usize();
        let first = self.complete_bytes();
        first + bytes < self.buf.len()
    }

    /// Lays the low `bits` bits of `variable` down at the cursor, storing as
    /// many bytes behind the cursor's byte as the class `M` stands for, in a
    /// loop unrolled for the class.
    pub fn insert<M>(&mut self, variable: u64, bits: u32) where M: ByteSize
        requires
            old(self).wf(),
            1 <= bits <= 8 * M::bytes(),
            fits(variable, bits),
            old(self).complete_bytes() + M::bytes() < old(self).buf.len(),
        ensures
            final(self).wf(),
            final(self).buf@ == inserted(
                old(self).buf@,
                old(self).bits as nat,
                variable,
                M::bytes() as int,
            ),
            final(self).bits == old(self).bits + bits,
            final(self).target == old(self).target,
            final(self).buffered() == old(self).buffered() + value_bits(variable, bits as nat),
    {
        proof {
            M::bytes_in_range();
            lemma_inserted(self.buf@, self.bits as nat, variable, bits, M::bytes() as int);
        }
        let first = self.complete_bytes();
        let offset = self.partial_bits();
        self.buf[first] = self.buf[first] | #[verifier::truncate] ((variable << offset) as u8);
        let rest = variable >> (8 - offset);
        M::store_slices(&mut self.buf, first, rest);
        self.bits = self.bits + bits;
    }

    /// Lays the low `bits` bits of `variable` down at the cursor, storing
    /// behind the cursor's byte exactly the bytes that the value reaches.
    pub fn insert_exact(&mut self, variable: u64, bits: u32)
        requires
            old(self).wf(),
            1 <= bits <= 64,
            fits(variable, bits),
            old(self).bits + bits <= 8 * old(self).buf.len(),
        ensures
            final(self).wf(),
            final(self).buf@ == inserted(
                old(self).buf@,
                old(self).bits as nat,
                variable,
                (old(self).bits % 8 + bits - 1) / 8,
            ),
            final(self).bits == old(self).bits + bits,
            final(self).target == old(self).target,
            final(self).buffered() == old(self).buffered() + value_bits(variable, bits as nat),
    {
        let first = self.complete_bytes();
        let offset = self.partial_bits();
        let count = ((offset + bits - 1) / 8) as usize;
        proof {
            lemma_inserted(self.buf@, self.bits as nat, variable, bits, count as int);
        }
        self.buf[first] = self.buf[first] | #[verifier::truncate] ((variable << offset) as u8);
        let rest = variable >> (8 - offset);
        let ghost merged = self.buf@;
        let mut i: usize = 0;
        while i < count
            invariant
                i <= count <= 8,
                first + count < self.buf.len(),
                self.buf@ == with_slices(merged, first as int, rest, i as int),
                self.bits == old(self).bits,
                self.target == old(self).target,
            decreases count - i,
        {
            put_slice(&mut self.buf, first, rest, i);
            i = i + 1;
            assert(self.buf@ =~= with_slices(merged, first as int, rest, i as int));
        }
        self.bits = self.bits + bits;
    }

    /// The number of bytes of the buffer that are in use from their first
    /// bit to their last.
    pub open spec fn spec_complete_bytes(&self) -> usize {
        (self.bits / 8) as usize
    }

    /// The number of bytes of the buffer that are in use from their first
    /// bit to their last.
    #[verifier::when_used_as_spec(spec_complete_bytes)]
    pub fn complete_bytes(&self) -> (n: usize)
        ensures
            n == self.bits / 8,
    {
        (self.bits / 8) as usize
    }

    /// The number of bytes of the buffer that hold at least one bit in use.
    pub open spec fn spec_all_bytes(&self) -> usize {
        ((self.bits + 7) / 8) as usize
    }

    /// The number of bytes of the buffer that hold at least one bit in use.
    #[verifier::when_used_as_spec(spec_all_bytes)]
    pub fn all_bytes(&self) -> (n: usize)
        ensures
            n == (self.bits + 7) / 8,
    {
        let whole = (self.bits / 8) as usize;
        if self.bits % 8 > 0 {
            whole + 1
        } else {
            whole
        }
    }

    /// The number of bits in use in the last byte, where that byte is not
    /// full; zero where the cursor stands between two bytes.
    pub open spec fn spec_partial_bits(&self) -> u32 {
        self.bits % 8
    }

    /// The number of bits in use in the last byte, where that byte is not
    /// full; zero where the cursor stands between two bytes.
    #[verifier::when_used_as_spec(spec_partial_bits)]
    pub fn partial_bits(&self) -> (n: u32)
        ensures
            n == self.bits % 8,
    {
        self.bits % 8
    }

    /// The last byte in use where it is not full, else zero.
    pub fn partial_byte(&self) -> (b: u8)
        requires
            self.all_bytes() <= self.buf.len(),
        ensures
            b == (if self.bits % 8 > 0 {
                self.buf@[self.all_bytes() - 1]
            } else {
                0u8
            }),
    {
        if self.partial_bits() > 0 {
            self.buf[self.all_bytes() - 1]
        } else {
            0
        }
    }

    /// The number of clear bits that complete the last byte.
    pub open spec fn spec_padding(&self) -> u32 {
        ((8 - self.bits % 8) % 8) as u32
    }

    /// The number of clear bits that complete the last byte.
    #[verifier::when_used_as_spec(spec_padding)]
    pub fn padding(&self) -> (n: u32)
        ensures
            n == (8 - self.bits % 8) % 8,
    {
        (8 - self.partial_bits()) % 8
    }

    /// Clears every byte in use but keeps what the last, unfinished byte
    /// holds: it becomes the first byte, and the cursor stands behind its
    /// bits.
    pub fn erase_complete_bytes(&mut self)
        requires
            0 < old(self).buf.len(),
            old(self).all_bytes() <= old(self).buf.len(),
        ensures
            final(self).buf@ == (zero_bytes(old(self).all_bytes() as nat) + old(self).buf@.skip(
                old(self).all_bytes() as int,
            )).update(
                0,
                if old(self).bits % 8 > 0 {
                    old(self).buf@[old(self).all_bytes() - 1]
                } else {
                    0u8
                },
            ),
            final(self).bits == old(self).bits % 8,
            final(self).target == old(self).target,
            old(self).wf() ==> final(self).wf(),
    {
        let possible_partial = self.partial_byte();
        let partial = self.partial_bits();
        self.erase_all_bytes();
        self.buf[0] = possible_partial;
        self.bits = partial;
        proof {
            if old(self).wf() {
                let complete = old(self).complete_bytes() as int;
                lemma_clean_bytes(old(self).buf@, old(self).bits as nat);
                lemma_drained(old(self).buf@, old(self).bits as nat, complete as nat);
                assert(self.buf@ =~= old(self).buf@.skip(complete) + zero_bytes(complete as nat));
            }
        }
    }

    /// Clears every byte in use and moves the cursor to the start.
    pub fn erase_all_bytes(&mut self)
        requires
            old(self).all_bytes() <= old(self).buf.len(),
        ensures
            final(self).buf@ == zero_bytes(old(self).all_bytes() as nat) + old(self).buf@.skip(
                old(self).all_bytes() as int,
            ),
            final(self).bits == 0,
            final(self).target == old(self).target,
            old(self).wf() ==> final(self).wf(),
    {
        let bytes = self.all_bytes();
        let mut i: usize = 0;
        while i < bytes
            invariant
                i <= bytes <= self.buf.len(),
                self.buf@.len() == old(self).buf@.len(),
                forall|p: int| 0 <= p < i ==> self.buf@[p] == 0u8,
                forall|p: int| i <= p < self.buf@.len() ==> self.buf@[p] == old(self).buf@[p],
                self.bits == old(self).bits,
                self.target == old(self).target,
            decreases bytes - i,
        {
            self.buf[i] = 0;
            i = i + 1;
        }
        assert(self.buf@ =~= zero_bytes(bytes as nat) + old(self).buf@.skip(bytes as int));
        self.bits = 0;
        proof {
            if old(self).wf() {
                lemma_clean_bytes(old(self).buf@, old(self).bits as nat);
                assert(self.buf@ =~= zero_bytes(self.buf@.len()));
                lemma_zero_bytes_clean(self.buf@.len());
            }
        }
    }

    /// Moves the bytes from index `from` up to index `to` to the start of
    /// the buffer, clears the `from` bytes behind them, and moves the
    /// cursor back by as many bytes.
    pub fn move_range_to_start(&mut self, from: usize, to: usize)
        requires
            from <= to <= old(self).buf.len(),
            8 * from <= old(self).bits,
        ensures
            final(self).buf@ == old(self).buf@.subrange(from as int, to as int) + zero_bytes(
                from as nat,
            ) + old(self).buf@.skip(to as int),
            final(self).bits == old(self).bits - 8 * from,
            final(self).target == old(self).target,
            old(self).wf() && old(self).all_bytes() <= to ==> final(self).wf(),
    {
        let mut offset: usize = 0;
        while offset < to
            invariant
                from <= to <= self.buf.len(),
                offset <= to,
                self.buf@.len() == old(self).buf@.len(),
                forall|p: int|
                    0 <= p < offset ==> self.buf@[p] == (if p + from < to {
                        old(self).buf@[p + from]
                    } else {
                        0u8
                    }),
                forall|p: int| offset <= p < self.buf@.len() ==> self.buf@[p] == old(self).buf@[p],
                self.bits == old(self).bits,
                self.target == old(self).target,
            decreases to - offset,
        {
            if from < to - offset {
                self.buf[offset] = self.buf[from + offset];
            } else {
                self.buf[offset] = 0;
            }
            offset = offset + 1;
        }
        assert(self.buf@ =~= old(self).buf@.subrange(from as int, to as int) + zero_bytes(
            from as nat,
        ) + old(self).buf@.skip(to as int));
        self.bits = self.bits - 8 * (from as u32);
        proof {
            if old(self).wf() && old(self).all_bytes() <= to {
                lemma_clean_bytes(old(self).buf@, old(self).bits as nat);
                lemma_drained(old(self).buf@, old(self).bits as nat, from as nat);
                assert(self.buf@ =~= old(self).buf@.skip(from as int) + zero_bytes(from as nat));
            }
        }
    }
}

} // verus!
