//! The reader side of one client connection, as a state machine.
//!
//! The worker that owns the socket feeds this machine what happened (bytes
//! read, the store's answer to a command, the signal that ends a blocking
//! wait, whether a reply reached the writer) and performs the step it returns.
//! Bytes accumulate until they frame a whole request, so a request may come
//! in any number of reads; requests are taken one at a time, in the order in
//! which their bytes arrived, and the next one is taken only after the
//! current one has been answered.
use vstd::prelude::*;
use crate::frame::{
    args_view, copy_range, encode_all, encode_request, lemma_extension_keeps_outcome,
    lemma_request_round_trip, parse_command, parse_request, well_formed, Frame, ParseResult,
};

verus! {

/// Where the reader stands.
#[derive(PartialEq, Eq, Structural, Clone, Copy, Debug)]
pub enum Phase {
    /// Waiting for bytes from the socket.
    Reading,
    /// A command has been taken and is to run against the store.
    Executing,
    /// The command waits on a store event; the store is not held.
    Waiting,
    /// A reply is being handed to the writer.
    Replying,
    /// The connection is over.
    Closed,
}

/// What the worker is to do next.
#[derive(PartialEq, Eq, Structural, Clone, Copy, Debug)]
pub enum Step {
    /// Read more bytes and pass them to `receive`.
    ReadMore,
    /// Lock the store, run `command()` against it and pass the outcome to
    /// `executed`.
    Execute,
    /// Release the store, wait on the command's single-shot receiver and pass
    /// what it yields to `signalled`.
    AwaitSignal,
    /// Put the command's reply into the writer mailbox, then call `reply_sent`.
    SendReply,
    /// Put a nil reply into the writer mailbox, then call `reply_sent`.
    SendNil,
    /// Close both the writer and the pub/sub mailboxes and stop reading.
    Shutdown,
}

/// What running a command against the store gave.
#[derive(PartialEq, Eq, Structural, Clone, Copy, Debug)]
pub enum Outcome {
    /// A reply to send.
    Reply,
    /// The command answers nothing.
    NoReply,
    /// The command cannot complete yet and handed back a receiver to wait on.
    Wait,
}

/// The reader's state for one connection: the bytes not yet framed, the
/// command in hand, the phase and the selected database, with a ghost record
/// of every byte received, of the requests taken from them and of how many of
/// those have been answered.
pub struct Connection {
    pending: Vec<u8>,
    command: Vec<Vec<u8>>,
    phase: Phase,
    db_index: usize,
    received: Ghost<Seq<u8>>,
    frames: Ghost<Seq<Seq<u8>>>,
    taken: Ghost<Seq<Seq<Seq<u8>>>>,
    answered: Ghost<nat>,
}

/// Appends `data` to `v`.
fn append(v: &mut Vec<u8>, data: &[u8])
    ensures
        final(v)@ == old(v)@ + data@,
{
    let mut k: usize = 0;
    let ghost start = v@;
    while k < data.len()
        invariant
            k <= data@.len(),
            v@ == start + data@.subrange(0, k as int),
        decreases data.len() - k,
    {
        v.push(data[k]);
        k = k + 1;
        assert(v@ =~= start + data@.subrange(0, k as int));
    }
    assert(data@.subrange(0, data@.len() as int) =~= data@);
}

/// Where bytes cut into whole requests and well-formed requests sent one
/// after another begin the same stream, the cut requests are the sent ones.
proof fn lemma_cuts_match(
    frames: Seq<Seq<u8>>,
    taken: Seq<Seq<Seq<u8>>>,
    p: Seq<u8>,
    sent: Seq<Seq<Seq<u8>>>,
    q: Seq<u8>,
)
    requires
        frames.len() == taken.len(),
        forall|k: int|
            0 <= k < taken.len() ==> #[trigger] parse_request(frames[k]) == Frame::Complete(
                taken[k],
                frames[k].len() as int,
            ),
        forall|k: int| 0 <= k < sent.len() ==> well_formed(#[trigger] sent[k]),
        frames.flatten() + p == encode_all(sent) + q,
    ensures
        forall|k: int| 0 <= k < taken.len() && k < sent.len() ==> #[trigger] taken[k] == sent[k],
    decreases sent.len(),
{
    if taken.len() > 0 && sent.len() > 0 {
        let f0 = frames[0];
        let e0 = encode_request(sent[0]);
        let x = frames.drop_first().flatten() + p;
        let y = encode_all(sent.skip(1)) + q;
        let whole = frames.flatten() + p;
        assert(whole =~= f0 + x);
        assert(whole =~= e0 + y);
        assert(parse_request(f0) == Frame::Complete(taken[0], f0.len() as int));
        lemma_extension_keeps_outcome(f0, x);
        lemma_request_round_trip(sent[0], y);
        assert(f0 =~= whole.subrange(0, f0.len() as int));
        assert(e0 =~= whole.subrange(0, e0.len() as int));
        assert(x =~= whole.subrange(f0.len() as int, whole.len() as int));
        assert(y =~= whole.subrange(e0.len() as int, whole.len() as int));
        let frames1 = frames.drop_first();
        let taken1 = taken.drop_first();
        let sent1 = sent.skip(1);
        assert forall|k: int| 0 <= k < taken1.len() implies #[trigger] parse_request(frames1[k])
            == Frame::Complete(taken1[k], frames1[k].len() as int) by {
            assert(parse_request(frames[k + 1]) == Frame::Complete(taken[k + 1], frames[k + 1].len() as int));
        }
        assert forall|k: int| 0 <= k < sent1.len() implies well_formed(#[trigger] sent1[k]) by {
            assert(well_formed(sent[k + 1]));
        }
        lemma_cuts_match(frames1, taken1, p, sent1, q);
        assert forall|k: int| 0 <= k < taken.len() && k < sent.len() implies #[trigger] taken[k]
            == sent[k] by {
            if k > 0 {
                assert(taken1[k - 1] == sent1[k - 1]);
            }
        }
    }
}

impl Connection {
    /// Bytes read but not yet part of a taken request.
    pub closed spec fn pending(&self) -> Seq<u8> {
        self.pending@
    }

    /// The command being run, waited on or answered.
    pub closed spec fn current(&self) -> Seq<Seq<u8>> {
        args_view(self.command)
    }

    /// The database that commands of this connection address.
    pub closed spec fn db(&self) -> nat {
        self.db_index as nat
    }

    pub closed spec fn phase(&self) -> Phase {
        self.phase
    }

    /// Every byte read on the connection, in order.
    pub closed spec fn received(&self) -> Seq<u8> {
        self.received@
    }

    /// The exact bytes of each request taken, in order.
    pub closed spec fn frames(&self) -> Seq<Seq<u8>> {
        self.frames@
    }

    /// The arguments of each request taken, in order.
    pub closed spec fn taken(&self) -> Seq<Seq<Seq<u8>>> {
        self.taken@
    }

    /// How many of the taken requests have been answered (a reply, a nil or,
    /// for a command that answers nothing, no reply at all).
    pub closed spec fn answered(&self) -> nat {
        self.answered@
    }

    /// The taken requests are the received bytes cut into whole requests, in
    /// order, and at most the last of them is unanswered.
    pub closed spec fn wf(&self) -> bool {
        &&& self.frames@.len() == self.taken@.len()
        &&& self.frames@.flatten() + self.pending@ == self.received@
        &&& forall|k: int|
            0 <= k < self.taken@.len() ==> #[trigger] parse_request(self.frames@[k])
                == Frame::Complete(self.taken@[k], self.frames@[k].len() as int)
        &&& self.answered@ <= self.taken@.len() <= self.answered@ + 1
        &&& self.phase == Phase::Reading ==> self.answered@ == self.taken@.len()
        &&& (self.phase == Phase::Executing || self.phase == Phase::Waiting || self.phase
            == Phase::Replying) ==> {
            &&& self.answered@ + 1 == self.taken@.len()
            &&& self.taken@.last() == args_view(self.command)
        }
    }

    /// `after` is what comes of looking for the next request in `pending`,
    /// on a connection that has received `received`, taken the requests
    /// `taken` from the bytes `frames`, answered `answered` of them and
    /// addresses database `db`; `step` is what that asks for.
    pub open spec fn took_next(
        pending: Seq<u8>,
        received: Seq<u8>,
        taken: Seq<Seq<Seq<u8>>>,
        frames: Seq<Seq<u8>>,
        answered: nat,
        db: nat,
        after: &Connection,
        step: Step,
    ) -> bool {
        &&& after.wf()
        &&& after.received() == received
        &&& after.answered() == answered
        &&& after.db() == db
        &&& match parse_request(pending) {
            Frame::Complete(args, n) => {
                &&& step == Step::Execute
                &&& after.phase() == Phase::Executing
                &&& after.current() == args
                &&& after.pending() == pending.subrange(n, pending.len() as int)
                &&& after.taken() == taken.push(args)
                &&& after.frames() == frames.push(pending.subrange(0, n))
            },
            Frame::Incomplete => {
                &&& step == Step::ReadMore
                &&& after.phase() == Phase::Reading
                &&& after.pending() == pending
                &&& after.taken() == taken
                &&& after.frames() == frames
            },
            Frame::Invalid => {
                &&& step == Step::Shutdown
                &&& after.phase() == Phase::Closed
                &&& after.taken() == taken
            },
        }
    }

    /// `after` is `before` closed.
    pub open spec fn closed_from(before: &Connection, after: &Connection) -> bool {
        &&& after.wf()
        &&& after.phase() == Phase::Closed
        &&& after.received() == before.received()
        &&& after.taken() == before.taken()
        &&& after.answered() == before.answered()
        &&& after.db() == before.db()
    }

    /// A fresh connection: database 0, nothing read.
    pub fn new() -> (r: Connection)
        ensures
            r.wf(),
            r.phase() == Phase::Reading,
            r.db() == 0,
            r.pending() == Seq::<u8>::empty(),
            r.received() == Seq::<u8>::empty(),
            r.taken() == Seq::<Seq<Seq<u8>>>::empty(),
            r.answered() == 0,
    {
        let r = Connection {
            pending: Vec::new(),
            command: Vec::new(),
            phase: Phase::Reading,
            db_index: 0,
            received: Ghost(Seq::empty()),
            frames: Ghost(Seq::empty()),
            taken: Ghost(Seq::empty()),
            answered: Ghost(0),
        };
        assert(r.frames@.flatten() =~= Seq::<u8>::empty());
        assert(r.frames@.flatten() + r.pending@ =~= r.received@);
        r
    }

    /// The arguments of the command to run.
    pub fn command(&self) -> (r: &Vec<Vec<u8>>)
        ensures
            args_view(*r) == self.current(),
    {
        &self.command
    }

    pub fn db_index(&self) -> (r: usize)
        ensures
            r == self.db(),
    {
        self.db_index
    }

    /// Makes `index` the database that later commands address.
    pub fn select_db(&mut self, index: usize)
        requires
            old(self).wf(),
        ensures
            final(self).wf(),
            final(self).phase() == old(self).phase(),
            final(self).db() == index,
            final(self).pending() == old(self).pending(),
            final(self).current() == old(self).current(),
            final(self).received() == old(self).received(),
            final(self).taken() == old(self).taken(),
            final(self).frames() == old(self).frames(),
            final(self).answered() == old(self).answered(),
    {
        self.db_index = index;
    }

    pub fn phase_now(&self) -> (r: Phase)
        ensures
            r == self.phase(),
    {
        self.phase
    }

    fn close(&mut self) -> (r: Step)
        requires
            old(self).wf(),
        ensures
            r == Step::Shutdown,
            Connection::closed_from(old(self), final(self)),
            final(self).pending() == old(self).pending(),
    {
        self.phase = Phase::Closed;
        Step::Shutdown
    }

    /// Looks for the next whole request in the pending bytes.
    fn take_next(&mut self) -> (r: Step)
        requires
            old(self).wf(),
            old(self).answered() == old(self).taken().len(),
        ensures
            Connection::took_next(
                old(self).pending(),
                old(self).received(),
                old(self).taken(),
                old(self).frames(),
                old(self).answered(),
                old(self).db(),
                final(self),
                r,
            ),
    {
        match parse_command(self.pending.as_slice()) {
            ParseResult::Complete(args, n) => {
                proof {
                    crate::frame::lemma_complete_within(self.pending@);
                }
                let ghost frame = self.pending@.subrange(0, n as int);
                let rest = copy_range(self.pending.as_slice(), n, self.pending.len());
                proof {
                    crate::frame::lemma_complete_prefix(self.pending@);
                    assert(frame + rest@ =~= self.pending@);
                    self.frames@.lemma_flatten_push(frame);
                    assert(self.frames@.push(frame).flatten() + rest@ =~= self.received@);
                    let frames2 = self.frames@.push(frame);
                    let taken2 = self.taken@.push(args_view(args));
                    assert forall|k: int| 0 <= k < taken2.len() implies #[trigger] parse_request(
                        frames2[k],
                    ) == Frame::Complete(taken2[k], frames2[k].len() as int) by {
                        if k < self.taken@.len() {
                            assert(frames2[k] == self.frames@[k]);
                        }
                    }
                }
                self.pending = rest;
                self.command = args;
                self.phase = Phase::Executing;
                self.frames = Ghost(self.frames@.push(frame));
                self.taken = Ghost(self.taken@.push(args_view(self.command)));
                Step::Execute
            },
            ParseResult::Incomplete => {
                self.phase = Phase::Reading;
                Step::ReadMore
            },
            ParseResult::Invalid => self.close(),
        }
    }

    /// Bytes came from the socket; an empty read is the end of the stream.
    pub fn receive(&mut self, data: &[u8]) -> (r: Step)
        requires
            old(self).wf(),
            old(self).phase() == Phase::Reading,
        ensures
            data@.len() == 0 ==> r == Step::Shutdown && Connection::closed_from(old(self), final(self)),
            data@.len() > 0 ==> Connection::took_next(
                old(self).pending() + data@,
                old(self).received() + data@,
                old(self).taken(),
                old(self).frames(),
                old(self).answered(),
                old(self).db(),
                final(self),
                r,
            ),
    {
        if data.len() == 0 {
            return self.close();
        }
        append(&mut self.pending, data);
        self.received = Ghost(self.received@ + data@);
        assert(self.frames@.flatten() + self.pending@ =~= self.received@);
        self.take_next()
    }

    /// Reading the socket failed, the store could not be locked, or the
    /// blocking wait broke: the connection ends.
    pub fn fail(&mut self) -> (r: Step)
        requires
            old(self).wf(),
        ensures
            r == Step::Shutdown,
            Connection::closed_from(old(self), final(self)),
    {
        self.close()
    }

    /// The store ran the current command.
    pub fn executed(&mut self, outcome: Outcome) -> (r: Step)
        requires
            old(self).wf(),
            old(self).phase() == Phase::Executing,
        ensures
            outcome == Outcome::Reply ==> {
                &&& r == Step::SendReply
                &&& final(self).wf()
                &&& final(self).phase() == Phase::Replying
                &&& Connection::same_but_phase(old(self), final(self))
            },
            outcome == Outcome::Wait ==> {
                &&& r == Step::AwaitSignal
                &&& final(self).wf()
                &&& final(self).phase() == Phase::Waiting
                &&& Connection::same_but_phase(old(self), final(self))
            },
            outcome == Outcome::NoReply ==> Connection::took_next(
                old(self).pending(),
                old(self).received(),
                old(self).taken(),
                old(self).frames(),
                old(self).answered() + 1,
                old(self).db(),
                final(self),
                r,
            ),
    {
        match outcome {
            Outcome::Reply => {
                self.phase = Phase::Replying;
                Step::SendReply
            },
            Outcome::Wait => {
                self.phase = Phase::Waiting;
                Step::AwaitSignal
            },
            Outcome::NoReply => self.answer(),
        }
    }

    /// The single-shot receiver of a waiting command yielded `signal`: `true`
    /// to run the command again, `false` when the wait ran out.
    pub fn signalled(&mut self, signal: bool) -> (r: Step)
        requires
            old(self).wf(),
            old(self).phase() == Phase::Waiting,
        ensures
            final(self).wf(),
            Connection::same_but_phase(old(self), final(self)),
            signal ==> r == Step::Execute && final(self).phase() == Phase::Executing,
            !signal ==> r == Step::SendNil && final(self).phase() == Phase::Replying,
    {
        if signal {
            self.phase = Phase::Executing;
            Step::Execute
        } else {
            self.phase = Phase::Replying;
            Step::SendNil
        }
    }

    /// A reply was handed to the writer mailbox, or could not be because the
    /// writer is gone.
    pub fn reply_sent(&mut self, delivered: bool) -> (r: Step)
        requires
            old(self).wf(),
            old(self).phase() == Phase::Replying,
        ensures
            !delivered ==> r == Step::Shutdown && Connection::closed_from(old(self), final(self)),
            delivered ==> Connection::took_next(
                old(self).pending(),
                old(self).received(),
                old(self).taken(),
                old(self).frames(),
                old(self).answered() + 1,
                old(self).db(),
                final(self),
                r,
            ),
    {
        if !delivered {
            return self.close();
        }
        self.answer()
    }

    /// `after` is `before` in another phase, with all else kept.
    pub open spec fn same_but_phase(before: &Connection, after: &Connection) -> bool {
        &&& after.pending() == before.pending()
        &&& after.current() == before.current()
        &&& after.received() == before.received()
        &&& after.taken() == before.taken()
        &&& after.frames() == before.frames()
        &&& after.answered() == before.answered()
        &&& after.db() == before.db()
    }

    /// Replies come in the order of the requests: the requests taken are the
    /// received bytes cut, from the start and in order, into whole requests,
    /// with only the bytes after the last one pending; at most one taken
    /// request is unanswered, and none while the connection reads, so each
    /// request is answered before the next is taken.
    pub proof fn lemma_requests_in_order(&self)
        requires
            self.wf(),
        ensures
            self.frames().flatten() + self.pending() == self.received(),
            self.frames().len() == self.taken().len(),
            forall|k: int|
                0 <= k < self.taken().len() ==> #[trigger] parse_request(self.frames()[k])
                    == Frame::Complete(self.taken()[k], self.frames()[k].len() as int),
            self.answered() <= self.taken().len() <= self.answered() + 1,
            self.phase() == Phase::Reading ==> self.answered() == self.taken().len(),
            self.phase() != Phase::Reading && self.phase() != Phase::Closed ==> self.current()
                == self.taken().last(),
    {
    }

    /// Requests are taken exactly as the client sent them: where the bytes
    /// received begin with the well-formed requests `sent`, one after another,
    /// each request taken is the one sent in its place.
    pub proof fn lemma_taken_as_sent(&self, sent: Seq<Seq<Seq<u8>>>, rest: Seq<u8>)
        requires
            self.wf(),
            forall|k: int| 0 <= k < sent.len() ==> well_formed(#[trigger] sent[k]),
            self.received() == encode_all(sent) + rest,
        ensures
            forall|k: int|
                0 <= k < self.taken().len() && k < sent.len() ==> #[trigger] self.taken()[k]
                    == sent[k],
    {
        lemma_cuts_match(self.frames@, self.taken@, self.pending@, sent, rest);
    }

    fn answer(&mut self) -> (r: Step)
        requires
            old(self).wf(),
            old(self).phase() == Phase::Executing || old(self).phase() == Phase::Replying,
        ensures
            Connection::took_next(
                old(self).pending(),
                old(self).received(),
                old(self).taken(),
                old(self).frames(),
                old(self).answered() + 1,
                old(self).db(),
                final(self),
                r,
            ),
    {
        self.answered = Ghost(self.answered@ + 1);
        self.phase = Phase::Reading;
        self.take_next()
    }
}

} // verus!
