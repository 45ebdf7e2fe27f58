//! What holds of whole runs of the writer: packing, decoding, and taking a
//! flush up again after the sink gave up.

use crate::bits::{fits, value_bits, word_bit, zero_bits, zero_bytes};
use crate::sink::{lemma_vector_takes_all, Sink, WriteError};
use crate::writer::VariableSizeByteWriter;
use vstd::prelude::*;

verus! {

/// The bits of a sequence of values, each with its width in bits: the low
/// bits of the first value, least significant first, then those of the
/// second, and so on, with nothing between them.
pub open spec fn packed(values: Seq<(u64, u32)>) -> Seq<bool>
    decreases values.len(),
{
    if values.len() == 0 {
        Seq::empty()
    } else {
        value_bits(values[0].0, values[0].1 as nat) + packed(values.skip(1))
    }
}

/// The widths of a sequence of values.
pub open spec fn widths(values: Seq<(u64, u32)>) -> Seq<u32> {
    Seq::new(values.len(), |i: int| values[i].1)
}

/// The values of a sequence of values with their widths.
pub open spec fn numbers(values: Seq<(u64, u32)>) -> Seq<u64> {
    Seq::new(values.len(), |i: int| values[i].0)
}

/// The number that the first `n` bits of `bits` spell, least significant
/// bit first.
pub open spec fn read_value(bits: Seq<bool>, n: nat) -> u64
    decreases n,
{
    if n == 0 {
        0
    } else {
        read_value(bits, (n - 1) as nat) | (if bits[n - 1] {
            1u64 << ((n - 1) as u64)
        } else {
            0
        })
    }
}

/// What a reader recovers from `bits` that reads one number for each width
/// in turn, each least significant bit first and right behind the one
/// before.
pub open spec fn decoded(bits: Seq<bool>, widths: Seq<u32>) -> Seq<u64>
    decreases widths.len(),
{
    if widths.len() == 0 {
        Seq::empty()
    } else {
        seq![read_value(bits, widths[0] as nat)] + decoded(
            bits.skip(widths[0] as int),
            widths.skip(1),
        )
    }
}

/// The low `m` bits of `v`, as a number.
pub open spec fn low_bits(v: u64, m: nat) -> u64 {
    if m == 0 {
        0
    } else if m >= 64 {
        v
    } else {
        (v << ((64 - m) as u64)) >> ((64 - m) as u64)
    }
}

/// Reading `m` bits that are the low bits of `v` spells the low `m` bits of
/// `v`.
pub proof fn lemma_read_low_bits(bits: Seq<bool>, v: u64, m: nat)
    requires
        m <= 64,
        m <= bits.len(),
        forall|i: int| 0 <= i < m ==> bits[i] == word_bit(v, i),
    ensures
        read_value(bits, m) == low_bits(v, m),
    decreases m,
{
    if m > 0 {
        lemma_read_low_bits(bits, v, (m - 1) as nat);
        let t = (m - 1) as u64;
        let up = (64 - m) as u64;
        assert(bits[m - 1] == word_bit(v, m - 1));
        if m == 1 {
            assert((0u64 | (if (v >> t) & 1 == 1 {
                1u64 << t
            } else {
                0u64
            })) == (v << 63u64) >> 63u64) by (bit_vector)
                requires
                    t == 0,
            ;
        } else if m == 64 {
            assert((((v << 1u64) >> 1u64) | (if (v >> t) & 1 == 1 {
                1u64 << t
            } else {
                0u64
            })) == v) by (bit_vector)
                requires
                    t == 63,
            ;
        } else {
            let up_before = (64 - (m - 1)) as u64;
            assert((((v << up_before) >> up_before) | (if (v >> t) & 1 == 1 {
                1u64 << t
            } else {
                0u64
            })) == (v << up) >> up) by (bit_vector)
                requires
                    1 <= t < 63,
                    up == 63 - t,
                    up_before == 64 - t,
            ;
        }
    }
}

/// A value that fits `n` bits is its own low `n` bits.
pub proof fn lemma_low_bits_fit(v: u64, n: u32)
    requires
        fits(v, n),
    ensures
        low_bits(v, n as nat) == v,
{
    if n == 0 {
        assert(v == 0) by (bit_vector)
            requires
                v >> 0u32 == 0,
        ;
    } else if n < 64 {
        let up = (64 - n) as u64;
        assert((v << up) >> up == v) by (bit_vector)
            requires
                1 <= n < 64,
                up == 64 - n,
                v >> n == 0,
        ;
    }
}

/// Packing one more value appends its bits.
pub proof fn lemma_packed_push(values: Seq<(u64, u32)>, v: u64, n: u32)
    ensures
        packed(values.push((v, n))) == packed(values) + value_bits(v, n as nat),
    decreases values.len(),
{
    let more = values.push((v, n));
    if values.len() == 0 {
        assert(more.skip(1) =~= values);
        assert(packed(more) =~= packed(values) + value_bits(v, n as nat));
    } else {
        assert(more.skip(1) =~= values.skip(1).push((v, n)));
        lemma_packed_push(values.skip(1), v, n);
        assert(packed(more) =~= packed(values) + value_bits(v, n as nat));
    }
}

/// Packing: writes that succeed one after the other and then a flush that
/// succeeds leave with the sink the stream as it was before the first
/// write, then the bits of the values in the order in which they were
/// written, each least significant bit first and with nothing between them,
/// then the clear bits that complete the last byte, and nothing else. Where
/// the stream was empty before, a reader that knows the widths recovers the
/// values from what the sink has.
///
/// `run` holds the states of the writer before and after each write, `end`
/// its state after the flush.
pub proof fn lemma_packing<W: Sink>(
    run: Seq<VariableSizeByteWriter<W>>,
    values: Seq<(u64, u32)>,
    end: VariableSizeByteWriter<W>,
)
    requires
        run.len() == values.len() + 1,
        run[0].wf(),
        forall|i: int|
            0 <= i < values.len() ==> 1 <= (#[trigger] values[i]).1 <= 64 && fits(
                values[i].0,
                values[i].1,
            ),
        forall|i: int|
            0 <= i < values.len() ==> run[i].bits % 8 + (#[trigger] values[i]).1 <= 8
                * run[i].buf@.len(),
        forall|i: int|
            0 <= i < values.len() ==> VariableSizeByteWriter::written(
                run[i],
                run[i + 1],
                (#[trigger] values[i]).0,
                values[i].1,
            ),
        VariableSizeByteWriter::flushed(run.last(), end),
    ensures
        end.emitted() == run[0].stream() + packed(values) + zero_bits(
            run.last().padding() as nat,
        ),
        end.bits == 0,
        run.last().padding() < 8,
        run[0].stream().len() == 0 ==> 8 * end.sent().len() == packed(values).len()
            + run.last().padding(),
        run[0].stream().len() == 0 ==> decoded(end.emitted(), widths(values)) == numbers(values),
{
    lemma_run_stream(run, values, values.len() as int);
    assert(values.take(values.len() as int) =~= values);
    VariableSizeByteWriter::lemma_flushed_stream(run.last(), end);
    assert(end.emitted().len() == 8 * end.sent().len());
    if run[0].stream().len() == 0 {
        lemma_round_trip(values, zero_bits(run.last().padding() as nat));
        assert(end.emitted() =~= packed(values) + zero_bits(run.last().padding() as nat));
    }
}

/// After the first `k` writes of a run the writer is well formed and its
/// stream is what it was, followed by the bits of the first `k` values.
proof fn lemma_run_stream<W: Sink>(
    run: Seq<VariableSizeByteWriter<W>>,
    values: Seq<(u64, u32)>,
    k: int,
)
    requires
        0 <= k <= values.len(),
        run.len() == values.len() + 1,
        run[0].wf(),
        forall|i: int|
            0 <= i < values.len() ==> 1 <= (#[trigger] values[i]).1 <= 64 && fits(
                values[i].0,
                values[i].1,
            ),
        forall|i: int|
            0 <= i < values.len() ==> run[i].bits % 8 + (#[trigger] values[i]).1 <= 8
                * run[i].buf@.len(),
        forall|i: int|
            0 <= i < values.len() ==> VariableSizeByteWriter::written(
                run[i],
                run[i + 1],
                (#[trigger] values[i]).0,
                values[i].1,
            ),
    ensures
        run[k].wf(),
        run[k].stream() == run[0].stream() + packed(values.take(k)),
    decreases k,
{
    if k == 0 {
        assert(values.take(0) =~= Seq::<(u64, u32)>::empty());
        assert(run[0].stream() =~= run[0].stream() + packed(values.take(0)));
    } else {
        lemma_run_stream(run, values, k - 1);
        let v = values[k - 1];
        VariableSizeByteWriter::lemma_written_stream(run[k - 1], run[k], v.0, v.1);
        lemma_packed_push(values.take(k - 1), v.0, v.1);
        assert(values.take(k) =~= values.take(k - 1).push(v));
    }
}

/// Round trip: a reader that takes the packed bits of a sequence of values,
/// with anything behind them, and reads one number for each width in turn
/// recovers the values.
pub proof fn lemma_round_trip(values: Seq<(u64, u32)>, rest: Seq<bool>)
    requires
        forall|i: int|
            0 <= i < values.len() ==> (#[trigger] values[i]).1 <= 64 && fits(
                values[i].0,
                values[i].1,
            ),
    ensures
        decoded(packed(values) + rest, widths(values)) == numbers(values),
    decreases values.len(),
{
    let bits = packed(values) + rest;
    if values.len() == 0 {
        assert(decoded(bits, widths(values)) =~= numbers(values));
    } else {
        let v = values[0].0;
        let n = values[0].1;
        let tail = values.skip(1);
        assert forall|i: int| 0 <= i < tail.len() implies (#[trigger] tail[i]).1 <= 64 && fits(
            tail[i].0,
            tail[i].1,
        ) by {
            assert(tail[i] == values[i + 1]);
        }
        lemma_round_trip(tail, rest);
        lemma_read_low_bits(bits, v, n as nat);
        lemma_low_bits_fit(v, n);
        assert(bits.skip(n as int) =~= packed(tail) + rest);
        assert(widths(values).skip(1) =~= widths(tail));
        assert(numbers(values) =~= seq![v] + numbers(tail));
    }
}

/// Taking a flush up again: where the sink took only some complete bytes of
/// the buffer and then gave up, in a flush or while a write drained the
/// buffer, a flush that succeeds afterwards leaves the writer and the record
/// of the sink exactly as one flush that succeeds at once would have left
/// them. No byte goes out twice and none is left out.
pub proof fn lemma_flush_resumes<W: Sink>(
    pre: VariableSizeByteWriter<W>,
    mid: VariableSizeByteWriter<W>,
    end: VariableSizeByteWriter<W>,
)
    requires
        pre.wf(),
        VariableSizeByteWriter::drained(pre, mid),
        VariableSizeByteWriter::flushed(mid, end),
    ensures
        VariableSizeByteWriter::flushed(pre, end),
        mid.padding() == pre.padding(),
        mid.buffered() == pre.buffered().skip(8 * VariableSizeByteWriter::taken(pre, mid)),
{
    let w = VariableSizeByteWriter::taken(pre, mid);
    let all = pre.all_bytes() as int;
    let left = mid.all_bytes() as int;
    let bytes = pre.buf@;
    assert(left == all - w && mid.padding() == pre.padding()) by {
        assert(mid.bits == pre.bits - 8 * w);
        assert((pre.bits - 8 * w + 7) / 8 == (pre.bits + 7) / 8 - w);
        assert((pre.bits - 8 * w) % 8 == pre.bits % 8);
    }
    assert(mid.buf@.subrange(0, left) =~= bytes.subrange(w, all)) by {
        assert(mid.buf@ == bytes.skip(w) + zero_bytes(w as nat));
        assert(all <= bytes.len());
    }
    assert(end.sent() =~= pre.sent() + bytes.subrange(0, all)) by {
        assert(mid.sent() == pre.sent() + bytes.subrange(0, w));
        assert(end.sent() == mid.sent() + mid.buf@.subrange(0, left));
        assert(bytes.subrange(0, w) + bytes.subrange(w, all) =~= bytes.subrange(0, all));
    }
    assert(end.buf@ =~= zero_bytes(bytes.len())) by {
        assert(mid.buf@.len() == bytes.len());
    }
    assert(mid.buffered() =~= pre.buffered().skip(8 * w)) by {
        assert forall|k: int| 0 <= k < mid.bits implies mid.buffered()[k] == pre.buffered()[k + 8
            * w] by {
            assert((k + 8 * w) / 8 == k / 8 + w);
            assert((k + 8 * w) % 8 == k % 8);
            assert(mid.buf@[k / 8] == bytes[k / 8 + w]);
        }
    }
}

/// Taking a write up again: where the sink gave up while a write drained the
/// buffer, the same write made again and succeeding leaves the stream as it
/// was before the first attempt, followed by the value's bits.
pub proof fn lemma_write_resumes<W: Sink>(
    pre: VariableSizeByteWriter<W>,
    mid: VariableSizeByteWriter<W>,
    end: VariableSizeByteWriter<W>,
    v: u64,
    n: u32,
)
    requires
        pre.wf(),
        1 <= n <= 64,
        fits(v, n),
        pre.bits % 8 + n <= 8 * pre.buf@.len(),
        VariableSizeByteWriter::drained(pre, mid),
        VariableSizeByteWriter::written(mid, end, v, n),
    ensures
        end.wf(),
        end.stream() == pre.stream() + value_bits(v, n as nat),
{
    VariableSizeByteWriter::lemma_drained_stream(pre, mid);
    assert(mid.buf@.len() == pre.buf@.len());
    assert(mid.bits % 8 == pre.bits % 8);
    VariableSizeByteWriter::lemma_written_stream(mid, end, v, n);
}

/// Into a vector: where the sink is a vector, bytes that are sent out are
/// always taken, all of them, and the vector holds them afterwards behind
/// what it held before.
pub proof fn lemma_sent_out_to_vector(
    pre: VariableSizeByteWriter<Vec<u8>>,
    post: VariableSizeByteWriter<Vec<u8>>,
    bytes: Seq<u8>,
    result: Result<(), WriteError<()>>,
)
    requires
        VariableSizeByteWriter::sent_out(pre, post, bytes, result),
    ensures
        result is Ok,
        post.target.inner()@ == pre.target.inner()@ + bytes,
        post.sent() == pre.sent() + bytes,
{
    let run = post.target.history().skip(pre.target.history().len() as int);
    lemma_vector_takes_all(
        bytes,
        run,
        VariableSizeByteWriter::taken(pre, post) as nat,
        result,
        pre.target.inner(),
        post.target.inner(),
    );
    VariableSizeByteWriter::lemma_sent_out(pre, post, bytes, result);
    assert(bytes.take(bytes.len() as int) =~= bytes);
}

} // verus!
