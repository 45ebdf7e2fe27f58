//! The byte sink that a writer drains into, what can go wrong there, and
//! what a write that does not give up easily does with the sink's answers.

use vstd::prelude::*;

verus! {

/// What a sink reports when it has taken none of the bytes offered.
#[derive(Debug)]
pub enum SinkError<E> {
    /// The attempt was interrupted before anything was taken; it may be
    /// made again at once.
    Interrupted,
    /// The sink failed for good.
    Failed(E),
}

/// A byte sink: it takes some prefix of the bytes offered and says how many
/// bytes that was, or it fails.
///
/// Nothing is assumed of a sink: the writer is verified for every answer
/// that a sink may give, so any type may implement this trait. A kind of
/// sink that keeps a promise about its exchanges states it in `kept`, as
/// the vector does.
pub trait Sink: Sized {
    /// The failure that the sink reports.
    type Error;

    /// What this kind of sink promises of an exchange that takes it from
    /// the state `pre` to the state `post`. A sink promises nothing unless
    /// it says otherwise here.
    open spec fn kept(
        pre: Self,
        offered: Seq<u8>,
        reply: Result<usize, SinkError<Self::Error>>,
        post: Self,
    ) -> bool {
        true
    }

    /// Offers `bytes` to the sink. `Ok(n)` says that the sink has taken the
    /// first `n` of them; an error says that it has taken none.
    fn accept(&mut self, bytes: &[u8]) -> (reply: Result<usize, SinkError<Self::Error>>)
        ensures
            Self::kept(*old(self), bytes@, reply, *final(self)),
    ;
}

/// A vector takes all that it is offered, at its end, and never fails.
impl Sink for Vec<u8> {
    type Error = ();

    open spec fn kept(
        pre: Self,
        offered: Seq<u8>,
        reply: Result<usize, SinkError<()>>,
        post: Self,
    ) -> bool {
        post@ == pre@ + offered && reply == Ok::<usize, SinkError<()>>(offered.len() as usize)
    }

    fn accept(&mut self, bytes: &[u8]) -> (reply: Result<usize, SinkError<()>>) {
        self.extend_from_slice(bytes);
        assert(self@ =~= old(self)@ + bytes@);
        Ok(bytes.len())
    }
}

/// Why a write or a flush gave up.
#[derive(Debug)]
pub enum WriteError<E> {
    /// The sink took no byte of a non-empty offer, so the stream cannot
    /// make progress.
    SinkExhausted,
    /// The sink failed; its own error is handed on unchanged.
    Sink(E),
}

/// How many times in a row one offer is made again after an interruption.
/// A sink that interrupts this often is taken to be exhausted.
pub const RETRY_LIMIT: usize = usize::MAX;

/// What to do after one answer of the sink.
pub enum Step<E> {
    /// The sink took this many bytes, at least one and at most what was
    /// offered: go on behind them.
    Taken(usize),
    /// The attempt was interrupted: make the same offer again.
    Retry,
    /// Give up with this error.
    Stop(WriteError<E>),
}

/// What follows from the sink's answer to an offer of `offered` bytes, after
/// `retries` interrupted attempts in a row.
///
/// A count of zero ends the write as `SinkExhausted`. A count above what was
/// offered is read as everything offered. An interruption calls for another
/// attempt until `RETRY_LIMIT` of them have been made in a row. Any other
/// failure is handed on.
pub open spec fn step_of<E>(reply: Result<usize, SinkError<E>>, offered: int, retries: int) -> Step<
    E,
> {
    match reply {
        Ok(n) => if n == 0 {
            Step::Stop(WriteError::SinkExhausted)
        } else if n <= offered {
            Step::Taken(n)
        } else {
            Step::Taken(offered as usize)
        },
        Err(SinkError::Interrupted) => if retries < RETRY_LIMIT {
            Step::Retry
        } else {
            Step::Stop(WriteError::SinkExhausted)
        },
        Err(SinkError::Failed(e)) => Step::Stop(WriteError::Sink(e)),
    }
}

/// Decides what follows from the sink's answer to an offer of `offered`
/// bytes, after `retries` interrupted attempts in a row.
pub fn next_step<E>(reply: Result<usize, SinkError<E>>, offered: usize, retries: usize) -> (step:
    Step<E>)
    ensures
        step == step_of(reply, offered as int, retries as int),
{
    match reply {
        Ok(n) => {
            if n == 0 {
                Step::Stop(WriteError::SinkExhausted)
            } else if n <= offered {
                Step::Taken(n)
            } else {
                Step::Taken(offered)
            }
        },
        Err(SinkError::Interrupted) => {
            if retries < RETRY_LIMIT {
                Step::Retry
            } else {
                Step::Stop(WriteError::SinkExhausted)
            }
        },
        Err(SinkError::Failed(e)) => Step::Stop(WriteError::Sink(e)),
    }
}

/// One exchange with a sink: the sink before it, the bytes that were
/// offered, the sink's answer, and the sink after it.
pub struct Exchange<W> where W: Sink {
    /// The sink before the exchange.
    pub before: W,
    /// The bytes offered.
    pub offered: Seq<u8>,
    /// The sink's answer.
    pub reply: Result<usize, SinkError<W::Error>>,
    /// The sink after the exchange.
    pub after: W,
}

/// The bytes that a sink took in one exchange: as many of the bytes offered
/// as its count says, all of them where the count is larger than their
/// number, and none where it reported an error.
pub open spec fn taken_in<W: Sink>(exchange: Exchange<W>) -> Seq<u8> {
    match exchange.reply {
        Ok(n) => if n <= exchange.offered.len() {
            exchange.offered.take(n as int)
        } else {
            exchange.offered
        },
        Err(_) => Seq::empty(),
    }
}

/// The bytes that a sink took in a run of exchanges, in the order in which
/// it took them.
pub open spec fn taken_over<W: Sink>(run: Seq<Exchange<W>>) -> Seq<u8>
    decreases run.len(),
{
    if run.len() == 0 {
        Seq::empty()
    } else {
        taken_over(run.drop_last()) + taken_in(run.last())
    }
}

/// The exchanges of `run` took a sink from the state `from` to the state
/// `to`, each beginning where the one before ended, and in each the sink
/// kept what its kind promises.
pub open spec fn linked<W: Sink>(run: Seq<Exchange<W>>, from: W, to: W) -> bool
    decreases run.len(),
{
    if run.len() == 0 {
        from == to
    } else {
        &&& linked(run.drop_last(), from, run.last().before)
        &&& W::kept(run.last().before, run.last().offered, run.last().reply, run.last().after)
        &&& run.last().after == to
    }
}

/// How far a write has come: how many bytes the sink has taken, and how
/// many attempts in a row were interrupted since it last took some.
pub struct Progress {
    /// The number of bytes taken.
    pub written: nat,
    /// The number of interrupted attempts in a row.
    pub retries: nat,
}

/// How far a write of `bytes` has come after the exchanges of `run`, where
/// every one of them was the offer that such a write makes at that point,
/// all that is left of `bytes`, and none of them ended the write; `None`
/// where `run` is no such run.
pub open spec fn progress<W: Sink>(bytes: Seq<u8>, run: Seq<Exchange<W>>) -> Option<Progress>
    decreases run.len(),
{
    if run.len() == 0 {
        Some(Progress { written: 0, retries: 0 })
    } else {
        match progress(bytes, run.drop_last()) {
            Some(before) => if before.written < bytes.len() && run.last().offered == bytes.skip(
                before.written as int,
            ) {
                match step_of(
                    run.last().reply,
                    bytes.len() - before.written,
                    before.retries as int,
                ) {
                    Step::Taken(n) => Some(
                        Progress { written: before.written + n as nat, retries: 0 },
                    ),
                    Step::Retry => Some(
                        Progress { written: before.written, retries: before.retries + 1 },
                    ),
                    Step::Stop(_) => None,
                }
            } else {
                None
            },
            None => None,
        }
    }
}

/// The exchanges of `run` are those of one write of `bytes` that does not
/// give up easily, the sink took `written` bytes in them, and the write
/// ended with `result`.
///
/// Such a write goes on while bytes are left. Each time it offers all that
/// is left and does what `step_of` says of the answer. It succeeds when
/// nothing is left, and it fails with the error of the first answer that
/// `step_of` stops at.
pub open spec fn resilient<W: Sink>(
    bytes: Seq<u8>,
    run: Seq<Exchange<W>>,
    written: nat,
    result: Result<(), WriteError<W::Error>>,
) -> bool {
    match result {
        Ok(()) => written == bytes.len() && progress(bytes, run) == Some(
            Progress { written, retries: 0 },
        ),
        Err(e) => run.len() > 0 && (match progress(bytes, run.drop_last()) {
            Some(before) => before.written == written && written < bytes.len()
                && run.last().offered == bytes.skip(written as int) && step_of(
                run.last().reply,
                bytes.len() - written,
                before.retries as int,
            ) == Step::Stop(e),
            None => false,
        }),
    }
}

/// In a run that a write of `bytes` has come through, the sink took the
/// bytes that the write counts as written, and they are the first of
/// `bytes`.
pub proof fn lemma_progress_taken<W: Sink>(bytes: Seq<u8>, run: Seq<Exchange<W>>)
    requires
        progress(bytes, run) is Some,
    ensures
        progress(bytes, run)->0.written <= bytes.len(),
        taken_over(run) == bytes.take(progress(bytes, run)->0.written as int),
    decreases run.len(),
{
    if run.len() == 0 {
        assert(taken_over(run) =~= bytes.take(0));
    } else {
        lemma_progress_taken(bytes, run.drop_last());
        let before = progress(bytes, run.drop_last())->0;
        let now = progress(bytes, run)->0;
        let left = bytes.skip(before.written as int);
        assert(taken_in(run.last()) =~= left.take(now.written - before.written));
        assert(taken_over(run) =~= bytes.take(now.written as int));
    }
}

/// In the exchanges of a resilient write the sink took the first `written`
/// of the bytes, and nothing else.
pub proof fn lemma_resilient_taken<W: Sink>(
    bytes: Seq<u8>,
    run: Seq<Exchange<W>>,
    written: nat,
    result: Result<(), WriteError<W::Error>>,
)
    requires
        resilient(bytes, run, written, result),
    ensures
        written <= bytes.len(),
        taken_over(run) == bytes.take(written as int),
        result is Ok <==> written == bytes.len(),
        bytes.len() == 0 ==> run.len() == 0,
{
    match result {
        Ok(()) => {
            lemma_progress_taken(bytes, run);
        },
        Err(e) => {
            lemma_progress_taken(bytes, run.drop_last());
            assert(taken_in(run.last()) =~= Seq::<u8>::empty());
            assert(taken_over(run) =~= bytes.take(written as int));
        },
    }
    if bytes.len() == 0 && run.len() > 0 {
        lemma_progress_taken(bytes, run.drop_last());
    }
}

/// The bytes taken over two runs, one after the other, are those taken over
/// the first followed by those taken over the second.
pub proof fn lemma_taken_over_concat<W: Sink>(first: Seq<Exchange<W>>, second: Seq<Exchange<W>>)
    ensures
        taken_over(first + second) == taken_over(first) + taken_over(second),
    decreases second.len(),
{
    if second.len() == 0 {
        assert(first + second =~= first);
        assert(taken_over(first + second) =~= taken_over(first) + taken_over(second));
    } else {
        lemma_taken_over_concat(first, second.drop_last());
        assert((first + second).drop_last() =~= first + second.drop_last());
        assert((first + second).last() == second.last());
        assert(taken_over(first + second) =~= taken_over(first) + taken_over(second));
    }
}

/// Two runs, the second beginning where the first ended, make one run from
/// the beginning of the first to the end of the second.
pub proof fn lemma_linked_concat<W: Sink>(
    first: Seq<Exchange<W>>,
    second: Seq<Exchange<W>>,
    from: W,
    between: W,
    to: W,
)
    requires
        linked(first, from, between),
        linked(second, between, to),
    ensures
        linked(first + second, from, to),
    decreases second.len(),
{
    if second.len() == 0 {
        assert(first + second =~= first);
    } else {
        lemma_linked_concat(first, second.drop_last(), from, between, second.last().before);
        assert((first + second).drop_last() =~= first + second.drop_last());
        assert((first + second).last() == second.last());
    }
}

/// A vector that was taken from one state to another by a run of exchanges
/// holds what it held before, followed by the bytes taken in the run.
pub proof fn lemma_vector_grows(run: Seq<Exchange<Vec<u8>>>, from: Vec<u8>, to: Vec<u8>)
    requires
        linked(run, from, to),
    ensures
        to@ == from@ + taken_over(run),
    decreases run.len(),
{
    if run.len() == 0 {
        assert(to@ =~= from@ + taken_over(run));
    } else {
        let last = run.last();
        lemma_vector_grows(run.drop_last(), from, last.before);
        assert(last.after@.len() == last.after.len());
        assert(taken_in(last) =~= last.offered);
        assert(to@ =~= from@ + taken_over(run));
    }
}

/// A vector never makes a write fail: it takes every offer whole, so a
/// resilient write into a vector succeeds.
pub proof fn lemma_vector_takes_all(
    bytes: Seq<u8>,
    run: Seq<Exchange<Vec<u8>>>,
    written: nat,
    result: Result<(), WriteError<()>>,
    from: Vec<u8>,
    to: Vec<u8>,
)
    requires
        resilient(bytes, run, written, result),
        linked(run, from, to),
    ensures
        result is Ok,
        written == bytes.len(),
        to@ == from@ + bytes,
{
    lemma_vector_grows(run, from, to);
    lemma_resilient_taken(bytes, run, written, result);
    if result is Err {
        let last = run.last();
        assert(last.after@.len() == last.after.len());
        assert(last.reply == Ok::<usize, SinkError<()>>(last.offered.len() as usize));
        assert(last.offered.len() == bytes.len() - written);
    }
    assert(bytes.take(bytes.len() as int) =~= bytes);
}

/// A sink together with the record of its exchanges.
///
/// The record is kept for the contracts alone and costs nothing when the
/// program runs. The fields are private: the sink is offered bytes only by
/// `accept`, and the record grows only there, by the exchange that took
/// place.
pub struct Recorded<W> where W: Sink {
    sink: W,
    origin: Ghost<W>,
    record: Ghost<Seq<Exchange<W>>>,
}

impl<W> Recorded<W> where W: Sink {
    /// The exchanges with the sink since it was wrapped, in the order in
    /// which they took place.
    pub closed spec fn history(&self) -> Seq<Exchange<W>> {
        self.record@
    }

    /// The bytes that the sink has taken since it was wrapped, in the order
    /// in which it took them.
    pub open spec fn taken(&self) -> Seq<u8> {
        taken_over(self.history())
    }

    /// The sink inside.
    pub closed spec fn inner(&self) -> W {
        self.sink
    }

    /// The sink as it was when it was wrapped.
    pub closed spec fn origin(&self) -> W {
        self.origin@
    }

    /// The record is that of the sink inside: its exchanges took the sink
    /// from what it was when it was wrapped to what it is now.
    pub open spec fn faithful(&self) -> bool {
        linked(self.history(), self.origin(), self.inner())
    }

    /// Wraps a sink; so far nothing was offered to it.
    pub fn new(sink: W) -> (recorded: Self)
        ensures
            recorded.history() == Seq::<Exchange<W>>::empty(),
            recorded.inner() == sink,
            recorded.origin() == sink,
            recorded.faithful(),
    {
        Recorded { sink, origin: Ghost(sink), record: Ghost(Seq::empty()) }
    }

    /// The sink inside, to look at.
    pub fn sink(&self) -> (sink: &W)
        ensures
            *sink == self.inner(),
    {
        &self.sink
    }

    /// Hands the sink back and drops the record.
    pub fn into_sink(self) -> (sink: W)
        ensures
            sink == self.inner(),
    {
        self.sink
    }

    /// Offers `bytes` to the sink and records the exchange.
    pub fn accept(&mut self, bytes: &[u8]) -> (reply: Result<usize, SinkError<W::Error>>)
        ensures
            final(self).history() == old(self).history().push(
                (Exchange {
                    before: old(self).inner(),
                    offered: bytes@,
                    reply,
                    after: final(self).inner(),
                }),
            ),
            final(self).origin() == old(self).origin(),
            W::kept(old(self).inner(), bytes@, reply, final(self).inner()),
    {
        let ghost before = self.sink;
        let reply = self.sink.accept(bytes);
        proof {
            let exchange = Exchange { before, offered: bytes@, reply, after: self.sink };
            self.record@ = self.record@.push(exchange);
        }
        reply
    }
}

/// A vector inside a faithful record holds what it held when it was wrapped,
/// followed by the bytes on record as taken.
pub proof fn lemma_vector_holds(recorded: Recorded<Vec<u8>>)
    requires
        recorded.faithful(),
    ensures
        recorded.inner()@ == recorded.origin()@ + recorded.taken(),
{
    lemma_vector_grows(recorded.history(), recorded.origin(), recorded.inner());
}

} // verus!
