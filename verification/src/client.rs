//! The session registry and what it does on a readiness event: flush the
//! outbound queue, drain the inbound side, and carry out the reactions of
//! the message handler.

use vstd::prelude::*;
use crate::error::{Error, IoError};
use crate::keepalive::{route, routed, Inbound};
use crate::message::Message;
use crate::outbound::{
    failures_match, flush_log, lemma_after_sends_concat, lemma_failures_match_concat,
    lemma_flush_settles, lemma_sends_fit_concat, lemma_sends_keep_settled, sends_fit, sends_lead,
    Outbound, SendFailure, SendOutcome,
};
use crate::reaction::Reaction;
use crate::session::{decoded, send_result, Connection, Session};
use crate::trace::{
    exchanged, lemma_runs_join, lemma_sends_calls_concat, sends_calls, sends_log, traced, Exchange,
};

verus! {

/// Names one session of a [`Client`] by its slot in the registry.
/// Slots are handed out in increasing order and never reused.
#[derive(Clone, Copy, Debug, PartialEq, Eq, Structural)]
pub struct SessionId {
    index: usize,
}

impl SessionId {
    /// The slot that the identifier names.
    pub closed spec fn slot(self) -> usize {
        self.index
    }

    /// The slot that the identifier names; readiness events carry it as
    /// their token.
    pub fn index(&self) -> (index: usize)
        ensures
            index == self.slot(),
    {
        self.index
    }
}

/// What a handler learns about the origin of an inbound event.
#[derive(Clone, Copy, Debug)]
pub struct MessageContext {
    session_id: SessionId,
}

impl MessageContext {
    /// The session the event came from.
    pub closed spec fn origin(self) -> SessionId {
        self.session_id
    }

    /// The context of events that come from the session in `slot`.
    pub closed spec fn for_slot(slot: usize) -> MessageContext {
        MessageContext { session_id: SessionId { index: slot } }
    }

    /// The context of events that come from the session `session_id`.
    pub fn new(session_id: SessionId) -> (context: Self)
        ensures
            context.origin() == session_id,
            context == MessageContext::for_slot(session_id.slot()),
    {
        MessageContext { session_id }
    }

    /// The session the event came from.
    pub fn session_id(&self) -> (id: SessionId)
        ensures
            id == self.origin(),
    {
        self.session_id
    }
}

/// The context for a slot names that slot, and a context is the context for
/// the slot it names.
pub proof fn lemma_context_names_slot(slot: usize, context: MessageContext)
    ensures
        MessageContext::for_slot(slot).origin().slot() == slot,
        context == MessageContext::for_slot(context.origin().slot()),
{
}

/// One registered session with its outbound queue and writable flag.
pub struct SessionEntry<C: Connection> {
    inner: Session<C>,
    output_queue: Vec<Message>,
    is_writable: bool,
}

impl<C: Connection> SessionEntry<C> {
    /// The outbound state of the entry.
    pub closed spec fn outbound(&self) -> Outbound {
        Outbound { queue: self.output_queue@, writable: self.is_writable }
    }

    /// The session of the entry.
    pub closed spec fn session_view(&self) -> Session<C> {
        self.inner
    }

    /// An entry for a session that has not sent anything yet: nothing is
    /// queued and the session is not assumed to be writable.
    pub fn new(session: Session<C>) -> (entry: Self)
        ensures
            entry.session_view() == session,
            entry.outbound() == Outbound::fresh(),
    {
        SessionEntry { inner: session, output_queue: Vec::new(), is_writable: false }
    }

    /// The session of this entry.
    pub fn session(&self) -> (session: &Session<C>)
        ensures
            *session == self.session_view(),
    {
        &self.inner
    }

    /// The messages that wait to be written, oldest first.
    pub fn queue(&self) -> (queue: &Vec<Message>)
        ensures
            queue@ == self.outbound().queue,
    {
        &self.output_queue
    }

    /// Whether the session was last known to be writable.
    pub fn is_writable(&self) -> (writable: bool)
        ensures
            writable == self.outbound().writable,
    {
        self.is_writable
    }

    /// Records that a readiness event reported the session writable.
    pub fn mark_writable(&mut self)
        ensures
            final(self).outbound() == old(self).outbound().marked_writable(),
            final(self).session_view() == old(self).session_view(),
    {
        self.is_writable = true;
    }

    /// Books the answer of the transport to which `message` was handed.
    ///
    /// On success nothing changes.  On a transient error the message joins
    /// the end of the queue and the flag is cleared.  On any other error the
    /// message is dropped and handed back with the error.
    pub fn settle(&mut self, message: Message, result: Result<(), Error>) -> (outcome: SendOutcome)
        ensures
            outcome == SendOutcome::of(message, result),
            final(self).outbound() == old(self).outbound().after_send(message, outcome),
            final(self).session_view() == old(self).session_view(),
    {
        match result {
            Ok(_) => SendOutcome::Sent,
            Err(error) => {
                if error.is_transient() {
                    self.is_writable = false;
                    self.output_queue.push(message);
                    SendOutcome::Blocked
                } else {
                    SendOutcome::Failed(SendFailure { message, error })
                }
            },
        }
    }

    /// Sends `message` without letting it overtake what waits.
    ///
    /// If earlier messages wait in the queue, the message joins them and the
    /// connection is not called.  Otherwise the line of the message is
    /// handed to the connection once, and the message is queued if the
    /// connection cannot take it right now.  The outcome is `Blocked` for a
    /// message that was queued, and the classification of the connection's
    /// answer otherwise; the entry changes as the outcome says.
    pub fn send(&mut self, message: Message) -> (outcome: SendOutcome)
        ensures
            old(self).outbound().queue.len() > 0 ==> outcome is Blocked,
            old(self).outbound().queue.len() == 0 ==> exists|
                wire: &mut C,
                line: &str,
                answer: Result<(), IoError>,
            |
                *wire == old(self).wire() && *final(wire) == final(self).wire() && line@
                    == message@ && call_ensures(C::try_send_line, (wire, line), answer)
                    && outcome == SendOutcome::of(message, send_result(answer)),
            final(self).outbound() == old(self).outbound().after_send(message, outcome),
            outcome matches SendOutcome::Failed(failure) ==> failure.message == message
                && !failure.error.transient(),
            exists|wires: Seq<&mut C>, states: Seq<C>|
                traced(
                    wires,
                    states,
                    sends_calls(old(self).outbound(), seq![message], seq![outcome]),
                    old(self).wire(),
                    final(self).wire(),
                ) && forall|k: int|
                    0 <= k < wires.len() ==> *final(#[trigger] wires[k]) == states[k + 1],
    {
        let ghost start = self.outbound();
        let ghost before = self.wire();
        if self.output_queue.len() > 0 {
            self.is_writable = false;
            self.output_queue.push(message);
            proof {
                let outcome = SendOutcome::Blocked;
                let log = sends_calls(start, seq![message], seq![outcome]);
                let none = seq![message].drop_last();
                let nothing = seq![outcome].drop_last();
                assert(start.after_sends(none, nothing) == start);
                assert(sends_calls(start, none, nothing) =~= Seq::<Exchange>::empty());
                assert(log =~= Seq::<Exchange>::empty());
                assert(traced(Seq::<&mut C>::empty(), seq![before], log, before, self.wire()));
            }
            return SendOutcome::Blocked;
        }
        let result = self.inner.try_send(&message);
        let ghost after = self.wire();
        let ghost call = choose|wire: &mut C, line: &str, answer: Result<(), IoError>|
            *wire == before && *final(wire) == after && line@ == message@ && call_ensures(
                C::try_send_line,
                (wire, line),
                answer,
            ) && result == send_result(answer);
        let outcome = self.settle(message, result);
        proof {
            let wires = seq![call.0];
            let states = seq![before, after];
            let log = sends_calls(start, seq![message], seq![outcome]);
            let none = seq![message].drop_last();
            let nothing = seq![outcome].drop_last();
            assert(start.after_sends(none, nothing) == start);
            assert(sends_calls(start, none, nothing) =~= Seq::<Exchange>::empty());
            assert(log =~= seq![Exchange::Sent { message, outcome }]);
            assert(exchanged(wires[0], log[0]));
            assert(traced(wires, states, log, before, after));
            assert forall|k: int| 0 <= k < wires.len() implies *final(#[trigger] wires[k])
                == states[k + 1] by {}
            assert(traced(wires, states, log, old(self).wire(), self.wire()));
            assert(exists|wires: Seq<&mut C>, states: Seq<C>|
                traced(
                    wires,
                    states,
                    sends_calls(start, seq![message], seq![outcome]),
                    old(self).wire(),
                    self.wire(),
                ) && forall|k: int|
                    0 <= k < wires.len() ==> *final(#[trigger] wires[k]) == states[k + 1]);
        }
        outcome
    }

    /// The connection of the entry's session.
    pub open spec fn wire(&self) -> C {
        self.session_view().connection_view()
    }
}

/// Flushes the outbound queue of a session that is, or just became,
/// writable.
///
/// Walks the queue from the front and tries to send each message without
/// blocking.  A message that was sent, or that failed for good, is consumed;
/// the first blocked attempt ends the flush, leaves that message and all
/// after it in the queue, and clears the writable flag.  The consumed prefix
/// is then removed in one pass.
///
/// Returns the log of the attempts, in queue order.  The calls on the
/// connection are exactly one send per logged attempt: the `k`-th hands over
/// the line of the `k`-th queued message, and the `k`-th outcome is the
/// classification of the connection's answer to it.  The log is that of one
/// flush of the queue, its failures name the messages at their positions,
/// and the entry changes as the log says.
pub fn process_writable<C: Connection>(
    session: &mut SessionEntry<C>,
) -> (outcomes: Vec<SendOutcome>)
    ensures
        flush_log(old(session).outbound().queue.len(), outcomes@),
        failures_match(old(session).outbound().queue, outcomes@),
        final(session).outbound() == old(session).outbound().after_flush(outcomes@),
        exists|wires: Seq<&mut C>, states: Seq<C>|
            traced(
                wires,
                states,
                sends_log(old(session).outbound().queue, outcomes@),
                old(session).wire(),
                final(session).wire(),
            ) && forall|k: int|
                0 <= k < wires.len() ==> *final(#[trigger] wires[k]) == states[k + 1],
{
    let ghost start = session.outbound();
    let ghost origin = session.wire();
    let ghost mut states: Seq<C> = seq![origin];
    let mut outcomes: Vec<SendOutcome> = Vec::new();
    let mut msgs_consumed: usize = 0;
    let mut blocked = false;
    assert(traced(
        Seq::<&mut C>::empty(),
        states,
        sends_log(start.queue, outcomes@),
        origin,
        session.wire(),
    ));
    while !blocked && msgs_consumed < session.output_queue.len()
        invariant
            exists|wires: Seq<&mut C>|
                traced(wires, states, sends_log(start.queue, outcomes@), origin, session.wire())
                    && forall|k: int|
                    0 <= k < wires.len() ==> *final(#[trigger] wires[k]) == states[k + 1],
            session.output_queue@ == start.queue,
            session.is_writable == (start.writable && !blocked),
            msgs_consumed <= start.queue.len(),
            outcomes@.len() == msgs_consumed + (if blocked { 1int } else { 0int }),
            forall|i: int| 0 <= i < msgs_consumed ==> !(outcomes@[i] is Blocked),
            blocked ==> msgs_consumed < start.queue.len() && outcomes@.last() is Blocked,
            failures_match(start.queue, outcomes@),
        decreases start.queue.len() - msgs_consumed + (if blocked { 0int } else { 1int }),
    {
        let ghost before = session.wire();
        let ghost done = outcomes@;
        let ghost message = start.queue[msgs_consumed as int];
        let ghost wires = choose|wires: Seq<&mut C>|
            traced(wires, states, sends_log(start.queue, outcomes@), origin, session.wire())
                && forall|k: int|
                0 <= k < wires.len() ==> *final(#[trigger] wires[k]) == states[k + 1];
        let ghost past = states;
        let result = session.inner.try_send(&session.output_queue[msgs_consumed]);
        let ghost after = session.wire();
        let ghost call = choose|wire: &mut C, line: &str, answer: Result<(), IoError>|
            *wire == before && *final(wire) == after && line@ == message@ && call_ensures(
                C::try_send_line,
                (wire, line),
                answer,
            ) && result == send_result(answer);
        let outcome = SendOutcome::classify(&session.output_queue[msgs_consumed], result);
        if outcome.is_blocked() {
            session.is_writable = false;
            blocked = true;
        } else {
            msgs_consumed = msgs_consumed + 1;
        }
        outcomes.push(outcome);
        proof {
            let one = seq![call.0];
            let pair = seq![before, after];
            let step = seq![Exchange::Sent { message, outcome: outcomes@.last() }];
            assert(exchanged(one[0], step[0]));
            assert(traced(one, pair, step, before, after));
            assert forall|k: int| 0 <= k < one.len() implies *final(#[trigger] one[k]) == pair[k
                + 1] by {}
            let log = sends_log(start.queue, outcomes@);
            assert(log =~= sends_log(start.queue, done) + step);
            states = past + pair.skip(1);
            lemma_runs_join(
                wires,
                past,
                sends_log(start.queue, done),
                one,
                pair,
                step,
                origin,
                before,
                after,
                wires + one,
                states,
                log,
            );
            assert(traced(wires + one, states, log, origin, session.wire()));
        }
    }
    let rest = session.output_queue.split_off(msgs_consumed);
    session.output_queue = rest;
    proof {
        let wires = choose|wires: Seq<&mut C>|
            traced(wires, states, sends_log(start.queue, outcomes@), origin, session.wire())
                && forall|k: int|
                0 <= k < wires.len() ==> *final(#[trigger] wires[k]) == states[k + 1];
        assert(traced(wires, states, sends_log(start.queue, outcomes@), origin, session.wire()));
        assert(exists|wires: Seq<&mut C>, states: Seq<C>|
            traced(wires, states, sends_log(start.queue, outcomes@), origin, session.wire())
                && forall|k: int|
                0 <= k < wires.len() ==> *final(#[trigger] wires[k]) == states[k + 1]);
    }
    outcomes
}

/// Carries out a reaction: sends the messages it asks for, depth first and
/// left to right, each as [`SessionEntry::send`] does.
///
/// Returns the outcome of each send, in order.  A message is handed to the
/// connection exactly if nothing waits in the queue when its turn comes, so
/// the calls are the sends of the first messages, in order, up to the first
/// that is blocked; every later message joins the queue behind it.  Each
/// outcome of a call is the classification of the connection's answer.
/// Failures name the messages at their positions, and the entry changes as
/// the outcomes say.
pub fn process_reaction<C: Connection>(
    session: &mut SessionEntry<C>,
    reaction: Reaction,
) -> (outcomes: Vec<SendOutcome>)
    ensures
        outcomes@.len() == reaction.flat().len(),
        failures_match(reaction.flat(), outcomes@),
        sends_fit(old(session).outbound(), reaction.flat(), outcomes@),
        final(session).outbound() == old(session).outbound().after_sends(
            reaction.flat(),
            outcomes@,
        ),
        exists|wires: Seq<&mut C>, states: Seq<C>|
            traced(
                wires,
                states,
                sends_calls(old(session).outbound(), reaction.flat(), outcomes@),
                old(session).wire(),
                final(session).wire(),
            ) && forall|k: int|
                0 <= k < wires.len() ==> *final(#[trigger] wires[k]) == states[k + 1],
{
    let ghost start = session.outbound();
    let ghost origin = session.wire();
    let messages = reaction.flatten();
    let ghost wanted = messages@;
    let mut outcomes: Vec<SendOutcome> = Vec::new();
    assert(traced(
        Seq::<&mut C>::empty(),
        seq![origin],
        sends_calls(start, wanted.take(0), outcomes@),
        origin,
        session.wire(),
    ));
    for message in it: messages
        invariant
            exists|wires: Seq<&mut C>, states: Seq<C>|
                traced(
                    wires,
                    states,
                    sends_calls(start, wanted.take(it.index()), outcomes@),
                    origin,
                    session.wire(),
                ) && forall|k: int|
                    0 <= k < wires.len() ==> *final(#[trigger] wires[k]) == states[k + 1],
            it.seq() == wanted,
            outcomes@.len() == it.index(),
            failures_match(wanted, outcomes@),
            sends_fit(start, wanted.take(it.index()), outcomes@),
            session.outbound() == start.after_sends(wanted.take(it.index()), outcomes@),
    {
        let ghost done = outcomes@;
        let ghost position = it.index();
        let ghost before = session.wire();
        let ghost queued = session.outbound();
        let ghost run = choose|wires: Seq<&mut C>, states: Seq<C>|
            traced(
                wires,
                states,
                sends_calls(start, wanted.take(position), outcomes@),
                origin,
                session.wire(),
            ) && forall|k: int|
                0 <= k < wires.len() ==> *final(#[trigger] wires[k]) == states[k + 1];
        let outcome = session.send(message);
        let ghost one = choose|wires: Seq<&mut C>, states: Seq<C>|
            traced(
                wires,
                states,
                sends_calls(queued, seq![message], seq![outcome]),
                before,
                session.wire(),
            ) && forall|k: int|
                0 <= k < wires.len() ==> *final(#[trigger] wires[k]) == states[k + 1];
        let ghost step = sends_calls(queued, seq![message], seq![outcome]);
        let ghost result = outcome;
        outcomes.push(outcome);
        proof {
            let sent = wanted.take(position + 1);
            assert(sent.drop_last() =~= wanted.take(position));
            assert(sent =~= wanted.take(position) + seq![message]);
            assert(outcomes@.drop_last() =~= done);
            assert(outcomes@ =~= done + seq![result]);
            let none = seq![message].drop_last();
            let nothing = seq![result].drop_last();
            assert(queued.after_sends(none, nothing) == queued);
            assert(sends_fit(queued, none, nothing));
            assert(sends_fit(queued, seq![message], seq![result]));
            lemma_sends_fit_concat(start, wanted.take(position), done, seq![message], seq![result]);
            lemma_sends_calls_concat(
                start,
                wanted.take(position),
                done,
                seq![message],
                seq![result],
            );
            let log = sends_calls(start, sent, outcomes@);
            assert(log == sends_calls(start, wanted.take(position), done) + step);
            lemma_runs_join(
                run.0,
                run.1,
                sends_calls(start, wanted.take(position), done),
                one.0,
                one.1,
                step,
                origin,
                before,
                session.wire(),
                run.0 + one.0,
                run.1 + one.1.skip(1),
                log,
            );
            assert(traced(run.0 + one.0, run.1 + one.1.skip(1), log, origin, session.wire()));
        }
    }
    assert(wanted.take(wanted.len() as int) =~= wanted);
    proof {
        let run = choose|wires: Seq<&mut C>, states: Seq<C>|
            traced(wires, states, sends_calls(start, wanted, outcomes@), origin, session.wire())
                && forall|k: int|
                0 <= k < wires.len() ==> *final(#[trigger] wires[k]) == states[k + 1];
        assert(traced(run.0, run.1, sends_calls(start, wanted, outcomes@), origin, session.wire()));
    }
    outcomes
}

/// How one routed receive result was dealt with.
#[derive(Clone, Copy, Debug, PartialEq, Eq, Structural)]
pub enum Handling {
    /// Nothing was there to deal with.
    Idle,
    /// A keepalive probe was answered without the handler.
    Replied,
    /// The handler was called with a message or with a parse error.
    Handled,
    /// The handler was called with a failure of the transport.
    Faulted,
}

/// The input tells the handler that the transport failed.
pub open spec fn is_fault(input: Result<Message, Error>) -> bool {
    input matches Err(Error::Io(_))
}

/// What dealing with one routed receive result did.
#[derive(Debug, PartialEq, Eq)]
pub struct InboundReport {
    /// How the result was dealt with.
    pub handling: Handling,
    /// The outcome of every send that this set off, in order.
    pub outcomes: Vec<SendOutcome>,
}

/// What one drain of a session did.
#[derive(Debug, PartialEq, Eq)]
pub struct DrainReport {
    /// How often the handler was called.
    pub handled: usize,
    /// How many of these calls told the handler that the transport failed.
    pub faults: usize,
    /// How many keepalive probes were answered without the handler.
    pub keepalives: usize,
    /// The outcome of every send that the drain set off, in order.
    pub outcomes: Vec<SendOutcome>,
    /// The drain stopped because its budget ran out, not because the
    /// session went idle: more input may be waiting, and no readiness event
    /// will announce it.
    pub exhausted: bool,
}

impl DrainReport {
    /// The drain ran out of budget on a session that still works: it
    /// answered a keepalive probe, or called the handler with something
    /// other than a failure of the transport.
    pub open spec fn cut_short(self) -> bool {
        self.exhausted && (self.faults < self.handled || self.keepalives > 0)
    }

    /// Tells whether the drain ran out of budget on a session that still
    /// works.
    pub fn is_cut_short(&self) -> (cut: bool)
        ensures
            cut == self.cut_short(),
    {
        self.exhausted && (self.faults < self.handled || self.keepalives > 0)
    }
}

/// The report's counts stay within the budget and reach it exactly on
/// exhaustion, the faults are among the handler calls, and a drain that
/// dealt with nothing attempted no send.
pub open spec fn drain_fits(report: DrainReport, budget: usize) -> bool {
    &&& report.handled + report.keepalives <= budget
    &&& report.faults <= report.handled
    &&& (report.exhausted <==> report.handled + report.keepalives == budget)
    &&& (report.handled + report.keepalives == 0 ==> report.outcomes@.len() == 0)
}

/// The handler accepts every input.
pub open spec fn handles_all<H: Fn(&MessageContext, Result<Message, Error>) -> Reaction>(
    msg_handler: &H,
) -> bool {
    forall|context: &MessageContext, input: Result<Message, Error>|
        call_requires(msg_handler, (context, input))
}

/// `reaction` is an answer of the handler to `input`, and carrying it out
/// with `outcomes` leads from `before` to `after`.
pub open spec fn handler_leads<H: Fn(&MessageContext, Result<Message, Error>) -> Reaction>(
    msg_handler: &H,
    context: &MessageContext,
    input: Result<Message, Error>,
    reaction: Reaction,
    before: Outbound,
    outcomes: Seq<SendOutcome>,
    after: Outbound,
) -> bool {
    &&& call_ensures(msg_handler, (context, input), reaction)
    &&& sends_lead(before, reaction.flat(), outcomes, after)
}

/// Some messages, one per outcome, sent one after the other with these
/// outcomes, lead from `before` to `after`.
pub open spec fn sends_explain(
    before: Outbound,
    outcomes: Seq<SendOutcome>,
    after: Outbound,
) -> bool {
    exists|messages: Seq<Message>| sends_lead(before, messages, outcomes, after)
}

/// The messages that dealing with `inbound` sends: none when idle, the
/// reply to a keepalive probe, or what some answer of the handler to the
/// input asks for.
pub open spec fn inbound_sends<H: Fn(&MessageContext, Result<Message, Error>) -> Reaction>(
    msg_handler: &H,
    context: &MessageContext,
    inbound: Inbound,
    messages: Seq<Message>,
) -> bool {
    match inbound {
        Inbound::Idle => messages.len() == 0,
        Inbound::Reply(pong) => messages == seq![pong],
        Inbound::Deliver(input) => exists|reaction: Reaction|
            call_ensures(msg_handler, (context, input), reaction) && messages == reaction.flat(),
    }
}

/// How a routed receive result is dealt with.
pub open spec fn handling_of(inbound: Inbound) -> Handling {
    match inbound {
        Inbound::Idle => Handling::Idle,
        Inbound::Reply(_) => Handling::Replied,
        Inbound::Deliver(input) => if is_fault(input) {
            Handling::Faulted
        } else {
            Handling::Handled
        },
    }
}

/// Deals with one routed receive result.
///
/// - Idle: nothing happens.  The entry is left exactly as it was, the
///   handler is not called and nothing is sent.
/// - A keepalive reply: the reply is sent like a single-message reaction;
///   the handler is not called.
/// - An input for the handler: the handler is called once with the
///   session's context and the input, and its reaction is carried out.  The
///   report tells a failure of the transport from other inputs.
///
/// In each case the messages that [`inbound_sends`] names are sent in order
/// as [`process_reaction`] sends them, with the outcomes reported, and the
/// calls on the connection are exactly the calls of these sends.
pub fn process_inbound<C: Connection, H: Fn(&MessageContext, Result<Message, Error>) -> Reaction>(
    session: &mut SessionEntry<C>,
    msg_ctx: &MessageContext,
    msg_handler: &H,
    inbound: Inbound,
) -> (report: InboundReport)
    requires
        handles_all(msg_handler),
    ensures
        match inbound {
            Inbound::Idle => {
                &&& report.handling == Handling::Idle
                &&& report.outcomes@.len() == 0
                &&& *final(session) == *old(session)
            },
            Inbound::Reply(pong) => {
                &&& report.handling == Handling::Replied
                &&& sends_lead(
                    old(session).outbound(),
                    seq![pong],
                    report.outcomes@,
                    final(session).outbound(),
                )
            },
            Inbound::Deliver(input) => {
                &&& report.handling == if is_fault(input) {
                    Handling::Faulted
                } else {
                    Handling::Handled
                }
                &&& exists|reaction: Reaction|
                    handler_leads(
                        msg_handler,
                        msg_ctx,
                        input,
                        reaction,
                        old(session).outbound(),
                        report.outcomes@,
                        final(session).outbound(),
                    )
            },
        },
        report.handling == handling_of(inbound),
        exists|messages: Seq<Message>, wires: Seq<&mut C>, states: Seq<C>|
            traced(
                wires,
                states,
                sends_calls(old(session).outbound(), messages, report.outcomes@),
                old(session).wire(),
                final(session).wire(),
            ) && inbound_sends(msg_handler, msg_ctx, inbound, messages) && sends_lead(
                old(session).outbound(),
                messages,
                report.outcomes@,
                final(session).outbound(),
            ) && forall|k: int|
                0 <= k < wires.len() ==> *final(#[trigger] wires[k]) == states[k + 1],
{
    let ghost origin = session.wire();
    let ghost start = session.outbound();
    match inbound {
        Inbound::Idle => {
            let report = InboundReport { handling: Handling::Idle, outcomes: Vec::new() };
            proof {
                let messages = Seq::<Message>::empty();
                let wires = Seq::<&mut C>::empty();
                assert(traced(
                    wires,
                    seq![origin],
                    sends_calls(start, messages, report.outcomes@),
                    origin,
                    session.wire(),
                ));
                assert(inbound_sends(msg_handler, msg_ctx, inbound, messages));
            }
            report
        },
        Inbound::Reply(pong) => {
            let outcomes = process_reaction(session, Reaction::RawMsg(pong));
            proof {
                let messages = Reaction::RawMsg(pong).flat();
                let run = choose|wires: Seq<&mut C>, states: Seq<C>|
                    traced(wires, states, sends_calls(start, messages, outcomes@), origin, session.wire())
                        && forall|k: int|
                        0 <= k < wires.len() ==> *final(#[trigger] wires[k]) == states[k + 1];
                assert(traced(run.0, run.1, sends_calls(start, messages, outcomes@), origin, session.wire()));
                assert(inbound_sends(msg_handler, msg_ctx, inbound, messages));
            }
            InboundReport { handling: Handling::Replied, outcomes }
        },
        Inbound::Deliver(input) => {
            let handling = match &input {
                Err(Error::Io(_)) => Handling::Faulted,
                _ => Handling::Handled,
            };
            let reaction = msg_handler(msg_ctx, input);
            let ghost answer = reaction;
            let outcomes = process_reaction(session, reaction);
            let report = InboundReport { handling, outcomes };
            assert(handler_leads(
                msg_handler,
                msg_ctx,
                input,
                answer,
                old(session).outbound(),
                report.outcomes@,
                session.outbound(),
            ));
            proof {
                let messages = answer.flat();
                let run = choose|wires: Seq<&mut C>, states: Seq<C>|
                    traced(
                        wires,
                        states,
                        sends_calls(start, messages, report.outcomes@),
                        origin,
                        session.wire(),
                    ) && forall|k: int|
                        0 <= k < wires.len() ==> *final(#[trigger] wires[k]) == states[k + 1];
                assert(traced(
                    run.0,
                    run.1,
                    sends_calls(start, messages, report.outcomes@),
                    origin,
                    session.wire(),
                ));
                assert(inbound_sends(msg_handler, msg_ctx, inbound, messages));
            }
            report
        },
    }
}

/// One receive that found something, and what was done about it.
pub struct Turn {
    /// What the session received.
    pub received: Result<Option<Message>, Error>,
    /// How that was routed.
    pub inbound: Inbound,
    /// The outbound state that the turn found.
    pub before: Outbound,
    /// The messages that were then sent, in order.
    pub messages: Seq<Message>,
    /// The outcome of each of these sends.
    pub outcomes: Seq<SendOutcome>,
    /// The outbound state that the turn left.
    pub after: Outbound,
}

/// The turn follows the rules: what was received is routed as [`routed`]
/// says and is not idle, and the messages are those that dealing with it
/// sends, each with an outcome.
pub open spec fn turn_fits<H: Fn(&MessageContext, Result<Message, Error>) -> Reaction>(
    msg_handler: &H,
    context: &MessageContext,
    turn: Turn,
) -> bool {
    &&& routed(turn.received, turn.inbound)
    &&& !(turn.inbound is Idle)
    &&& inbound_sends(msg_handler, context, turn.inbound, turn.messages)
    &&& sends_lead(turn.before, turn.messages, turn.outcomes, turn.after)
}

/// The calls of one turn: the receive, then the sends.
pub open spec fn turn_log(turn: Turn) -> Seq<Exchange> {
    seq![Exchange::Received { result: turn.received }] + sends_calls(
        turn.before,
        turn.messages,
        turn.outcomes,
    )
}

/// The calls of a series of turns, turn after turn.
pub open spec fn turns_log(turns: Seq<Turn>) -> Seq<Exchange>
    decreases turns.len(),
{
    if turns.len() == 0 {
        Seq::empty()
    } else {
        turns_log(turns.drop_last()) + turn_log(turns.last())
    }
}

/// Each turn finds the outbound state that the turn before it left: the
/// first finds `start`, and the last leaves `end`.
pub open spec fn turns_chain(start: Outbound, turns: Seq<Turn>, end: Outbound) -> bool
    decreases turns.len(),
{
    if turns.len() == 0 {
        start == end
    } else {
        turns.last().after == end && turns_chain(start, turns.drop_last(), turns.last().before)
    }
}

/// The messages sent over a series of turns, in order.
pub open spec fn turns_messages(turns: Seq<Turn>) -> Seq<Message>
    decreases turns.len(),
{
    if turns.len() == 0 {
        Seq::empty()
    } else {
        turns_messages(turns.drop_last()) + turns.last().messages
    }
}

/// The outcomes of the sends of a series of turns, in order.
pub open spec fn turns_outcomes(turns: Seq<Turn>) -> Seq<SendOutcome>
    decreases turns.len(),
{
    if turns.len() == 0 {
        Seq::empty()
    } else {
        turns_outcomes(turns.drop_last()) + turns.last().outcomes
    }
}

/// The number of turns that were dealt with in the given way.
pub open spec fn turns_with(turns: Seq<Turn>, handling: Handling) -> nat
    decreases turns.len(),
{
    if turns.len() == 0 {
        0
    } else {
        turns_with(turns.drop_last(), handling) + if handling_of(turns.last().inbound)
            == handling {
            1nat
        } else {
            0nat
        }
    }
}

/// The call that ends a drain which went idle: the receive that found
/// nothing.  A drain that ran out of budget has none.
pub open spec fn closing_log(closing: Option<Result<Option<Message>, Error>>) -> Seq<Exchange> {
    match closing {
        Some(last) => seq![Exchange::Received { result: last }],
        None => Seq::empty(),
    }
}

/// What a drain amounts to: a series of turns, each following the rules,
/// and, unless the budget ran out, a closing receive that is routed to idle.
/// The counts are those of the turns, the outcomes are those of the turns'
/// sends in a row, and the outbound state is what these sends lead to.
pub open spec fn drain_leads<H: Fn(&MessageContext, Result<Message, Error>) -> Reaction>(
    msg_handler: &H,
    context: &MessageContext,
    before: Outbound,
    turns: Seq<Turn>,
    closing: Option<Result<Option<Message>, Error>>,
    handled: usize,
    faults: usize,
    keepalives: usize,
    outcomes: Seq<SendOutcome>,
    exhausted: bool,
    after: Outbound,
) -> bool {
    &&& forall|k: int| 0 <= k < turns.len() ==> turn_fits(msg_handler, context, #[trigger] turns[k])
    &&& turns.len() == handled + keepalives
    &&& keepalives == turns_with(turns, Handling::Replied)
    &&& faults == turns_with(turns, Handling::Faulted)
    &&& handled == turns_with(turns, Handling::Handled) + turns_with(turns, Handling::Faulted)
    &&& outcomes == turns_outcomes(turns)
    &&& turns_chain(before, turns, after)
    &&& sends_lead(before, turns_messages(turns), turns_outcomes(turns), after)
    &&& match closing {
        Some(last) => routed(last, Inbound::Idle) && !exhausted,
        None => exhausted,
    }
}

/// A drain with turns begins with the receive of its first turn.
pub proof fn lemma_turns_begin_with_receive(turns: Seq<Turn>)
    requires
        turns.len() > 0,
    ensures
        turns_log(turns).len() > 0,
        turns_log(turns)[0] == (Exchange::Received { result: turns[0].received }),
    decreases turns.len(),
{
    if turns.len() > 1 {
        lemma_turns_begin_with_receive(turns.drop_last());
        assert(turns.drop_last()[0] == turns[0]);
    } else {
        assert(turns_log(turns.drop_last()) =~= Seq::empty());
    }
}

/// The report that a drain makes of its counts and outcomes; it reports
/// exhaustion unless it went idle.
pub open spec fn report_of(
    handled: usize,
    faults: usize,
    keepalives: usize,
    outcomes: Vec<SendOutcome>,
    idle: bool,
) -> DrainReport {
    DrainReport { handled, faults, keepalives, outcomes, exhausted: !idle }
}

/// What a drain did to a session, call by call: the calls of the turns and
/// of the closing receive were made on the session's connection, which they
/// took from its state in `before` to its state in `after`, and the drain
/// was what [`drain_leads`] says, for the context of `slot`.
pub open spec fn drain_traced<
    C: Connection,
    H: Fn(&MessageContext, Result<Message, Error>) -> Reaction,
>(
    msg_handler: &H,
    slot: usize,
    before: SessionEntry<C>,
    report: DrainReport,
    after: SessionEntry<C>,
    turns: Seq<Turn>,
    closing: Option<Result<Option<Message>, Error>>,
    wires: Seq<&mut C>,
    states: Seq<C>,
) -> bool {
    &&& traced(wires, states, turns_log(turns) + closing_log(closing), before.wire(), after.wire())
    &&& drain_leads(
        msg_handler,
        &MessageContext::for_slot(slot),
        before.outbound(),
        turns,
        closing,
        report.handled,
        report.faults,
        report.keepalives,
        report.outcomes@,
        report.exhausted,
        after.outbound(),
    )
}

/// Drains the inbound side of a readable session.
///
/// Receives until the session has no complete message, a receive fails with
/// a transient error, or `budget` results have been dealt with.  Each result
/// is routed as [`route`] says and dealt with as [`process_inbound`] says,
/// before the next receive.
///
/// The budget bounds how long one session can hold the engine: a session
/// whose receive keeps failing with a lasting error spends it and hands
/// control back.
///
/// The drain is a series of turns, as [`drain_leads`] says.  Each turn is
/// one receive on the connection, routed to something other than idle, and
/// then the sends that dealing with it asks for; the handler, where it is
/// called, gets the context of `session_index` and the input that the
/// receive was routed to.  Unless the budget ran out, one more receive
/// closes the drain, and that one is routed to idle.  These are all the
/// calls on the connection, in this order.  The counts of the report are
/// those of the turns, its outcomes are those of the turns' sends in a row,
/// and the drain reports exhaustion exactly if the turns used up the budget.
pub fn process_readable<C: Connection, H: Fn(&MessageContext, Result<Message, Error>) -> Reaction>(
    session: &mut SessionEntry<C>,
    session_index: usize,
    msg_handler: &H,
    budget: usize,
) -> (report: DrainReport)
    requires
        handles_all(msg_handler),
    ensures
        drain_fits(report, budget),
        sends_explain(old(session).outbound(), report.outcomes@, final(session).outbound()),
        report.handled + report.keepalives == 0
            ==> final(session).outbound() == old(session).outbound(),
        exists|
            turns: Seq<Turn>,
            closing: Option<Result<Option<Message>, Error>>,
            wires: Seq<&mut C>,
            states: Seq<C>,
        |
            drain_traced(
                msg_handler,
                session_index,
                *old(session),
                report,
                *final(session),
                turns,
                closing,
                wires,
                states,
            ) && forall|k: int|
                0 <= k < wires.len() ==> *final(#[trigger] wires[k]) == states[k + 1],
{
    let ghost first = *session;
    let ghost start = session.outbound();
    let ghost origin = session.wire();
    let msg_ctx = MessageContext { session_id: SessionId { index: session_index } };
    let mut handled: usize = 0;
    let mut faults: usize = 0;
    let mut keepalives: usize = 0;
    let mut outcomes: Vec<SendOutcome> = Vec::new();
    let mut idle = false;
    proof {
        let turns = Seq::<Turn>::empty();
        assert(traced(
            Seq::<&mut C>::empty(),
            seq![origin],
            turns_log(turns) + closing_log(None),
            origin,
            session.wire(),
        ));
        assert(drain_leads(
            msg_handler,
            &msg_ctx,
            start,
            turns,
            None,
            handled,
            faults,
            keepalives,
            outcomes@,
            !idle,
            session.outbound(),
        ));
        assert(drain_traced(
            msg_handler,
            session_index,
            first,
            report_of(handled, faults, keepalives, outcomes, idle),
            *session,
            turns,
            None,
            Seq::<&mut C>::empty(),
            seq![origin],
        ));
    }
    while !idle && handled + keepalives < budget
        invariant
            handles_all(msg_handler),
            msg_ctx == MessageContext::for_slot(session_index),
            origin == first.wire(),
            start == first.outbound(),
            handled + keepalives <= budget,
            idle ==> handled + keepalives < budget,
            exists|
                turns: Seq<Turn>,
                closing: Option<Result<Option<Message>, Error>>,
                wires: Seq<&mut C>,
                states: Seq<C>,
            |
                drain_traced(
                    msg_handler,
                    session_index,
                    first,
                    report_of(handled, faults, keepalives, outcomes, idle),
                    *session,
                    turns,
                    closing,
                    wires,
                    states,
                ) && forall|k: int|
                    0 <= k < wires.len() ==> *final(#[trigger] wires[k]) == states[k + 1],
        decreases budget - (handled + keepalives) + (if idle { 0int } else { 1int }),
    {
        let ghost before = session.wire();
        let ghost queued = session.outbound();
        let ghost done = outcomes@;
        let ghost entry = *session;
        let ghost so_far = report_of(handled, faults, keepalives, outcomes, idle);
        let ghost run = choose|
            turns: Seq<Turn>,
            closing: Option<Result<Option<Message>, Error>>,
            wires: Seq<&mut C>,
            states: Seq<C>,
        |
            drain_traced(
                msg_handler,
                session_index,
                first,
                so_far,
                entry,
                turns,
                closing,
                wires,
                states,
            ) && forall|k: int|
                0 <= k < wires.len() ==> *final(#[trigger] wires[k]) == states[k + 1];
        let received = session.inner.recv();
        let ghost got = received;
        let ghost middle = session.wire();
        let ghost asked = choose|wire: &mut C, raw: Result<Option<String>, IoError>|
            *wire == before && *final(wire) == middle && call_ensures(C::recv_line, (wire,), raw)
                && decoded(raw, got);
        let inbound = route(received);
        let ghost way = inbound;
        let mut step = process_inbound(session, &msg_ctx, msg_handler, inbound);
        let ghost fresh = step.outcomes@;
        let ghost made = choose|messages: Seq<Message>, wires: Seq<&mut C>, states: Seq<C>|
            traced(wires, states, sends_calls(queued, messages, fresh), middle, session.wire())
                && inbound_sends(msg_handler, &msg_ctx, way, messages) && sends_lead(
                queued,
                messages,
                fresh,
                session.outbound(),
            ) && forall|k: int|
                0 <= k < wires.len() ==> *final(#[trigger] wires[k]) == states[k + 1];
        match step.handling {
            Handling::Idle => {
                idle = true;
            },
            Handling::Replied => {
                keepalives = keepalives + 1;
            },
            Handling::Handled => {
                handled = handled + 1;
            },
            Handling::Faulted => {
                handled = handled + 1;
                faults = faults + 1;
            },
        }
        outcomes.append(&mut step.outcomes);
        proof {
            assert(drain_traced(
                msg_handler,
                session_index,
                first,
                so_far,
                entry,
                run.0,
                run.1,
                run.2,
                run.3,
            ));
            let turns = run.0;
            let earlier = turns_log(turns) + closing_log(run.1);
            let one = seq![asked.0];
            let pair = seq![before, middle];
            let receive = seq![Exchange::Received { result: got }];
            assert(exchanged(one[0], receive[0]));
            assert(traced(one, pair, receive, before, middle));
            assert forall|k: int| 0 <= k < one.len() implies *final(#[trigger] one[k]) == pair[k
                + 1] by {}
            let wires_one = run.2 + one;
            let states_one = run.3 + pair.skip(1);
            let log_one = earlier + receive;
            lemma_runs_join(
                run.2,
                run.3,
                earlier,
                one,
                pair,
                receive,
                origin,
                before,
                middle,
                wires_one,
                states_one,
                log_one,
            );
            let sends = sends_calls(queued, made.0, fresh);
            let wires_all = wires_one + made.1;
            let states_all = states_one + made.2.skip(1);
            let log_all = log_one + sends;
            lemma_runs_join(
                wires_one,
                states_one,
                log_one,
                made.1,
                made.2,
                sends,
                origin,
                middle,
                session.wire(),
                wires_all,
                states_all,
                log_all,
            );
            if way is Idle {
                let closing = Some(got);
                assert(log_all =~= turns_log(turns) + closing_log(closing));
                assert(traced(
                    wires_all,
                    states_all,
                    turns_log(turns) + closing_log(closing),
                    origin,
                    session.wire(),
                ));
                assert(outcomes@ =~= done);
                assert(drain_leads(
                    msg_handler,
                    &msg_ctx,
                    start,
                    turns,
                    closing,
                    handled,
                    faults,
                    keepalives,
                    outcomes@,
                    !idle,
                    session.outbound(),
                ));
                assert(drain_traced(
                    msg_handler,
                    session_index,
                    first,
                    report_of(handled, faults, keepalives, outcomes, idle),
                    *session,
                    turns,
                    closing,
                    wires_all,
                    states_all,
                ));
            } else {
                let turn = Turn {
                    received: got,
                    inbound: way,
                    before: queued,
                    messages: made.0,
                    outcomes: fresh,
                    after: session.outbound(),
                };
                let grown = turns.push(turn);
                assert(grown.drop_last() =~= turns);
                assert(log_all =~= turns_log(grown) + closing_log(None));
                assert(traced(
                    wires_all,
                    states_all,
                    turns_log(grown) + closing_log(None),
                    origin,
                    session.wire(),
                ));
                lemma_after_sends_concat(
                    start,
                    turns_messages(turns),
                    turns_outcomes(turns),
                    made.0,
                    fresh,
                );
                lemma_failures_match_concat(
                    turns_messages(turns),
                    turns_outcomes(turns),
                    made.0,
                    fresh,
                );
                lemma_sends_fit_concat(
                    start,
                    turns_messages(turns),
                    turns_outcomes(turns),
                    made.0,
                    fresh,
                );
                assert(outcomes@ =~= done + fresh);
                assert forall|k: int| 0 <= k < grown.len() implies turn_fits(
                    msg_handler,
                    &msg_ctx,
                    #[trigger] grown[k],
                ) by {
                    if k < turns.len() {
                        assert(grown[k] == turns[k]);
                    }
                }
                assert(drain_leads(
                    msg_handler,
                    &msg_ctx,
                    start,
                    grown,
                    None,
                    handled,
                    faults,
                    keepalives,
                    outcomes@,
                    !idle,
                    session.outbound(),
                ));
                assert(drain_traced(
                    msg_handler,
                    session_index,
                    first,
                    report_of(handled, faults, keepalives, outcomes, idle),
                    *session,
                    grown,
                    None,
                    wires_all,
                    states_all,
                ));
            }
        }
    }
    let report = DrainReport { handled, faults, keepalives, outcomes, exhausted: !idle };
    proof {
        assert(report == report_of(handled, faults, keepalives, report.outcomes, idle));
        let run = choose|
            turns: Seq<Turn>,
            closing: Option<Result<Option<Message>, Error>>,
            wires: Seq<&mut C>,
            states: Seq<C>,
        |
            drain_traced(
                msg_handler,
                session_index,
                first,
                report,
                *session,
                turns,
                closing,
                wires,
                states,
            ) && forall|k: int|
                0 <= k < wires.len() ==> *final(#[trigger] wires[k]) == states[k + 1];
        assert(drain_traced(
            msg_handler,
            session_index,
            first,
            report,
            *session,
            run.0,
            run.1,
            run.2,
            run.3,
        ));
        assert(sends_lead(
            start,
            turns_messages(run.0),
            report.outcomes@,
            session.outbound(),
        ));
    }
    report
}

/// One readiness event, as the poller reports it.
#[derive(Clone, Copy, Debug, PartialEq, Eq, Structural)]
pub struct ReadyEvent {
    /// The slot of the session that the event is about.
    pub token: usize,
    /// The session has input.
    pub readable: bool,
    /// The session takes output again.
    pub writable: bool,
}

/// What the engine did on one readiness event.
#[derive(Debug, PartialEq, Eq)]
pub struct EventReport {
    /// The slot of the session that the event was about.
    pub token: usize,
    /// The log of the flush, if the session was flushed.
    pub flushed: Option<Vec<SendOutcome>>,
    /// The report of the drain, if the session was drained.
    pub drained: Option<DrainReport>,
}

impl EventReport {
    /// The event that the caller owes the engine before it polls again: a
    /// readable event for the same session if its drain was cut short.
    pub open spec fn owed(self) -> Option<ReadyEvent> {
        match self.drained {
            Some(drain) => if drain.cut_short() {
                Some(ReadyEvent { token: self.token, readable: true, writable: false })
            } else {
                None
            },
            None => None,
        }
    }

    /// The event that the caller owes the engine before it polls again.
    ///
    /// Readiness is reported once per transition, so input that a drain left
    /// behind is not announced again; the caller makes up for it.  A drain
    /// that spent its whole budget on failures of the transport is owed
    /// nothing: the session is taken to be broken until the poller reports
    /// it readable once more, which keeps a transport that fails on every
    /// receive from holding the engine for ever.
    pub fn follow_up(&self) -> (event: Option<ReadyEvent>)
        ensures
            event == self.owed(),
    {
        match &self.drained {
            Some(drain) => if drain.is_cut_short() {
                Some(ReadyEvent { token: self.token, readable: true, writable: false })
            } else {
                None
            },
            None => None,
        }
    }
}

/// The state after a flush that may not have taken place.
pub open spec fn after_optional_flush(
    before: Outbound,
    flushed: Option<Vec<SendOutcome>>,
) -> Outbound {
    match flushed {
        Some(outcomes) => before.after_flush(outcomes@),
        None => before,
    }
}

/// How one event moves the outbound state of its session from `before` to
/// `after`, as `report` tells it.
///
/// A writable event sets the flag.  The session is flushed exactly if the
/// flag is then set, and drained exactly if the event is readable, in this
/// order.
pub open spec fn event_leads(
    before: Outbound,
    event: ReadyEvent,
    budget: usize,
    report: EventReport,
    after: Outbound,
) -> bool {
    let marked = if event.writable {
        before.marked_writable()
    } else {
        before
    };
    let flushed = after_optional_flush(marked, report.flushed);
    &&& report.token == event.token
    &&& report.flushed is Some <==> marked.writable
    &&& report.flushed matches Some(outcomes) ==> flush_log(marked.queue.len(), outcomes@)
        && failures_match(marked.queue, outcomes@)
    &&& report.drained is Some <==> event.readable
    &&& match report.drained {
        Some(drain) => drain_fits(drain, budget) && sends_explain(flushed, drain.outcomes@, after),
        None => after == flushed,
    }
}

/// Whatever state a session was in, an event leaves it with a backlog only
/// if its flag is cleared.  So a session whose flag is set has nothing
/// queued, and flushing it is needed only when an event sets the flag.
pub proof fn lemma_event_settles(
    before: Outbound,
    event: ReadyEvent,
    budget: usize,
    report: EventReport,
    after: Outbound,
)
    requires
        event_leads(before, event, budget, report, after),
    ensures
        after.settled(),
{
    let marked = if event.writable {
        before.marked_writable()
    } else {
        before
    };
    let flushed = after_optional_flush(marked, report.flushed);
    match report.flushed {
        Some(outcomes) => {
            lemma_flush_settles(marked, outcomes@);
        },
        None => {},
    }
    match report.drained {
        Some(drain) => {
            let messages = choose|messages: Seq<Message>|
                sends_lead(flushed, messages, drain.outcomes@, after);
            lemma_sends_keep_settled(flushed, messages, drain.outcomes@);
        },
        None => {},
    }
}

/// A flush that no writable event asked for finds nothing to do: on a
/// session with a backlog only behind a cleared flag, an event that does not
/// signal writable attempts no send from the queue and leaves the queue and
/// the flag as they were before the drain.
pub proof fn lemma_flush_needs_writable_event(
    before: Outbound,
    event: ReadyEvent,
    budget: usize,
    report: EventReport,
    after: Outbound,
)
    requires
        before.settled(),
        !event.writable,
        event_leads(before, event, budget, report, after),
    ensures
        report.flushed matches Some(outcomes) ==> outcomes@.len() == 0,
        after_optional_flush(before, report.flushed) == before,
{
    match report.flushed {
        Some(outcomes) => {
            assert(before.queue.skip(0) =~= before.queue);
        },
        None => {},
    }
}

/// The outbound state of a session once the event's writability is noted.
pub open spec fn marked_by(before: Outbound, event: ReadyEvent) -> Outbound {
    if event.writable {
        before.marked_writable()
    } else {
        before
    }
}

/// The calls of a flush that may not have taken place.
pub open spec fn flush_calls(queue: Seq<Message>, flushed: Option<Vec<SendOutcome>>) -> Seq<
    Exchange,
> {
    match flushed {
        Some(outcomes) => sends_log(queue, outcomes@),
        None => Seq::empty(),
    }
}

/// The calls of a drain that may not have taken place.
pub open spec fn drain_calls(
    drained: Option<DrainReport>,
    turns: Seq<Turn>,
    closing: Option<Result<Option<Message>, Error>>,
) -> Seq<Exchange> {
    match drained {
        Some(_) => turns_log(turns) + closing_log(closing),
        None => Seq::empty(),
    }
}

/// The calls that an event makes on the connection of its session: the
/// sends of the flush, if there was one, and then the calls of the drain,
/// if there was one.
pub open spec fn event_log(
    queue: Seq<Message>,
    report: EventReport,
    turns: Seq<Turn>,
    closing: Option<Result<Option<Message>, Error>>,
) -> Seq<Exchange> {
    flush_calls(queue, report.flushed) + drain_calls(report.drained, turns, closing)
}

/// What the drain of an event amounts to, from the outbound state that the
/// flush left: the turns and the closing receive of [`drain_leads`], for the
/// handler and the context of the event's slot; or nothing at all, if the
/// event was not readable.
pub open spec fn event_drains<H: Fn(&MessageContext, Result<Message, Error>) -> Reaction>(
    msg_handler: &H,
    slot: usize,
    before: Outbound,
    report: EventReport,
    turns: Seq<Turn>,
    closing: Option<Result<Option<Message>, Error>>,
    after: Outbound,
) -> bool {
    match report.drained {
        Some(drain) => drain_leads(
            msg_handler,
            &MessageContext::for_slot(slot),
            before,
            turns,
            closing,
            drain.handled,
            drain.faults,
            drain.keepalives,
            drain.outcomes@,
            drain.exhausted,
            after,
        ),
        None => turns.len() == 0 && closing is None && after == before,
    }
}

/// What one event did to its session, call by call: the calls of
/// [`event_log`] were made on the session's connection, which they took from
/// its state in `before` to its state in `after`, and the drain was what
/// [`event_drains`] says, from the outbound state that the flush left.
pub open spec fn event_traced<
    C: Connection,
    H: Fn(&MessageContext, Result<Message, Error>) -> Reaction,
>(
    msg_handler: &H,
    event: ReadyEvent,
    report: EventReport,
    before: SessionEntry<C>,
    after: SessionEntry<C>,
    turns: Seq<Turn>,
    closing: Option<Result<Option<Message>, Error>>,
    wires: Seq<&mut C>,
    states: Seq<C>,
) -> bool {
    &&& traced(
        wires,
        states,
        event_log(before.outbound().queue, report, turns, closing),
        before.wire(),
        after.wire(),
    )
    &&& event_drains(
        msg_handler,
        event.token,
        after_optional_flush(marked_by(before.outbound(), event), report.flushed),
        report,
        turns,
        closing,
        after.outbound(),
    )
}

/// What a batch of events did, event by event: `stages` are the states of
/// the registry before, between and after the events; each event moves the
/// registry as [`registry_step`] says, and each event with a report did to
/// its session what [`event_traced`] says.
pub open spec fn batch_traced<
    C: Connection,
    H: Fn(&MessageContext, Result<Message, Error>) -> Reaction,
>(
    msg_handler: &H,
    budget: usize,
    events: Seq<ReadyEvent>,
    reports: Seq<Option<EventReport>>,
    stages: Seq<Seq<SessionEntry<C>>>,
    turns: Seq<Seq<Turn>>,
    closings: Seq<Option<Result<Option<Message>, Error>>>,
    wires: Seq<Seq<&mut C>>,
    states: Seq<Seq<C>>,
) -> bool {
    &&& reports.len() == events.len()
    &&& stages.len() == events.len() + 1
    &&& turns.len() == events.len()
    &&& closings.len() == events.len()
    &&& wires.len() == events.len()
    &&& states.len() == events.len()
    &&& forall|k: int|
        0 <= k < events.len() ==> registry_step(
            stages[k],
            #[trigger] events[k],
            budget,
            reports[k],
            stages[k + 1],
        ) && (reports[k] matches Some(told) ==> event_traced(
            msg_handler,
            events[k],
            told,
            stages[k][events[k].token as int],
            stages[k + 1][events[k].token as int],
            turns[k],
            closings[k],
            wires[k],
            states[k],
        ))
}

/// How one event moves the registry from `before` to `after`, as `report`
/// tells it: the session in the event's slot changes as [`event_leads`]
/// says, an event for a slot that is not taken changes nothing and has no
/// report, and no other session is touched.
pub open spec fn registry_step<C: Connection>(
    before: Seq<SessionEntry<C>>,
    event: ReadyEvent,
    budget: usize,
    report: Option<EventReport>,
    after: Seq<SessionEntry<C>>,
) -> bool {
    &&& after.len() == before.len()
    &&& forall|slot: int|
        0 <= slot < before.len() && slot != event.token ==> after[slot] == before[slot]
    &&& match report {
        Some(told) => event.token < before.len() && event_leads(
            before[event.token as int].outbound(),
            event,
            budget,
            told,
            after[event.token as int].outbound(),
        ),
        None => event.token >= before.len() && after == before,
    }
}

/// How a batch of events, handled one after the other, moves the registry
/// from `before` to `after`, as the reports tell it.
pub open spec fn registry_run<C: Connection>(
    before: Seq<SessionEntry<C>>,
    events: Seq<ReadyEvent>,
    budget: usize,
    reports: Seq<Option<EventReport>>,
    after: Seq<SessionEntry<C>>,
) -> bool
    decreases events.len(),
{
    if events.len() == 0 {
        reports.len() == 0 && after == before
    } else {
        &&& reports.len() == events.len()
        &&& exists|middle: Seq<SessionEntry<C>>|
            {
                &&& registry_run(before, events.drop_last(), budget, reports.drop_last(), middle)
                &&& registry_step(middle, events.last(), budget, reports.last(), after)
            }
    }
}

/// The events that the caller owes the engine after a batch, in the order
/// of the reports.
pub open spec fn owed_events(reports: Seq<Option<EventReport>>) -> Seq<ReadyEvent>
    decreases reports.len(),
{
    if reports.len() == 0 {
        Seq::empty()
    } else {
        let earlier = owed_events(reports.drop_last());
        match reports.last() {
            Some(report) => match report.owed() {
                Some(event) => earlier.push(event),
                None => earlier,
            },
            None => earlier,
        }
    }
}

/// Collects the events that the caller owes the engine after a batch: one
/// readable event for every session whose drain ran out of budget.  The
/// caller hands them back as the next batch before it polls again.
pub fn follow_ups(reports: &Vec<Option<EventReport>>) -> (events: Vec<ReadyEvent>)
    ensures
        events@ == owed_events(reports@),
{
    let mut events: Vec<ReadyEvent> = Vec::new();
    let mut position: usize = 0;
    while position < reports.len()
        invariant
            position <= reports@.len(),
            events@ == owed_events(reports@.take(position as int)),
        decreases reports@.len() - position,
    {
        proof {
            assert(reports@.take(position + 1).drop_last() =~= reports@.take(position as int));
        }
        match &reports[position] {
            Some(report) => match report.follow_up() {
                Some(event) => {
                    events.push(event);
                },
                None => {},
            },
            None => {},
        }
        position = position + 1;
    }
    assert(reports@.take(position as int) =~= reports@);
    events
}

/// The registry of sessions: an append-only list, indexed by slot.
pub struct Client<C: Connection> {
    sessions: Vec<SessionEntry<C>>,
}

impl<C: Connection> Client<C> {
    /// The entries of the registry, by slot.
    pub closed spec fn entries(&self) -> Seq<SessionEntry<C>> {
        self.sessions@
    }

    /// A registry without sessions.
    pub fn new() -> (client: Self)
        ensures
            client.entries().len() == 0,
    {
        Client { sessions: Vec::new() }
    }

    /// Registers a session and returns its identifier.
    ///
    /// The session gets the next free slot, an empty outbound queue and a
    /// cleared writable flag.  The sessions registered before keep their
    /// slots and their state.
    pub fn add_session(&mut self, session: Session<C>) -> (id: SessionId)
        ensures
            id.slot() == old(self).entries().len(),
            final(self).entries().len() == old(self).entries().len() + 1,
            final(self).entries().drop_last() == old(self).entries(),
            final(self).entries().last().session_view() == session,
            final(self).entries().last().outbound() == Outbound::fresh(),
    {
        let index = self.sessions.len();
        self.sessions.push(SessionEntry::new(session));
        SessionId { index }
    }

    /// Resolves the token of a readiness event to the session it names.
    pub fn resolve(&self, token: usize) -> (id: Option<SessionId>)
        ensures
            match id {
                Some(found) => token < self.entries().len() && found.slot() == token,
                None => token >= self.entries().len(),
            },
    {
        if token < self.sessions.len() {
            Some(SessionId { index: token })
        } else {
            None
        }
    }

    /// The number of registered sessions.
    pub fn len(&self) -> (len: usize)
        ensures
            len == self.entries().len(),
    {
        self.sessions.len()
    }

    /// The entry in a slot, if the slot is taken.
    pub fn entry(&self, index: usize) -> (entry: Option<&SessionEntry<C>>)
        ensures
            match entry {
                Some(found) => index < self.entries().len()
                    && *found == self.entries()[index as int],
                None => index >= self.entries().len(),
            },
    {
        if index < self.sessions.len() {
            Some(&self.sessions[index])
        } else {
            None
        }
    }

    /// Handles one readiness event.
    ///
    /// The event's token is resolved to a session by slot; an event for a
    /// slot that is not taken is ignored.  If the event signals writable, the
    /// session's flag is set.  A session whose flag is set is flushed.  If
    /// the event signals readable, the session is then drained within the
    /// budget.
    ///
    /// No other session is touched.  The calls on the connection of the
    /// event's session are those of the flush and then those of the drain,
    /// as [`event_traced`] says.
    pub fn handle_event<H: Fn(&MessageContext, Result<Message, Error>) -> Reaction>(
        &mut self,
        event: ReadyEvent,
        msg_handler: &H,
        budget: usize,
    ) -> (report: Option<EventReport>)
        requires
            handles_all(msg_handler),
        ensures
            registry_step(old(self).entries(), event, budget, report, final(self).entries()),
            report matches Some(told) ==> exists|
                turns: Seq<Turn>,
                closing: Option<Result<Option<Message>, Error>>,
                wires: Seq<&mut C>,
                states: Seq<C>,
            |
                event_traced(
                    msg_handler,
                    event,
                    told,
                    old(self).entries()[event.token as int],
                    final(self).entries()[event.token as int],
                    turns,
                    closing,
                    wires,
                    states,
                ) && forall|k: int|
                    0 <= k < wires.len() ==> *final(#[trigger] wires[k]) == states[k + 1],
    {
        if event.token >= self.sessions.len() {
            return None;
        }
        let ghost first = self.sessions@[event.token as int];
        let session = &mut self.sessions[event.token];
        if event.writable {
            session.mark_writable();
        }
        let ghost marked = session.outbound();
        let flushed = if session.is_writable() {
            Some(process_writable(session))
        } else {
            None
        };
        let ghost middle = session.wire();
        let ghost emptied = session.outbound();
        let ghost flushed_entry = *session;
        let drained = if event.readable {
            Some(process_readable(session, event.token, msg_handler, budget))
        } else {
            None
        };
        let ghost last = session.wire();
        let ghost after = session.outbound();
        let report = EventReport { token: event.token, flushed, drained };
        proof {
            let no_turns = Seq::<Turn>::empty();
            let flush_log = flush_calls(first.outbound().queue, report.flushed);
            if report.flushed is None {
                assert(traced(
                    Seq::<&mut C>::empty(),
                    seq![first.wire()],
                    flush_log,
                    first.wire(),
                    middle,
                ));
            }
            if report.flushed is Some {
                let found = choose|wires: Seq<&mut C>, states: Seq<C>|
                    traced(
                        wires,
                        states,
                        sends_log(first.outbound().queue, report.flushed->0@),
                        first.wire(),
                        middle,
                    ) && forall|k: int|
                        0 <= k < wires.len() ==> *final(#[trigger] wires[k]) == states[k + 1];
                assert(traced(found.0, found.1, flush_log, first.wire(), middle));
            }
            let flush = choose|wires: Seq<&mut C>, states: Seq<C>|
                traced(wires, states, flush_log, first.wire(), middle) && forall|k: int|
                    0 <= k < wires.len() ==> *final(#[trigger] wires[k]) == states[k + 1];
            if report.drained is None {
                assert(traced(
                    Seq::<&mut C>::empty(),
                    seq![middle],
                    drain_calls(report.drained, no_turns, None),
                    middle,
                    last,
                ));
                assert(event_drains(
                    msg_handler,
                    event.token,
                    emptied,
                    report,
                    no_turns,
                    None,
                    after,
                ));
            } else {
                let told = report.drained->0;
                let found = choose|
                    turns: Seq<Turn>,
                    closing: Option<Result<Option<Message>, Error>>,
                    wires: Seq<&mut C>,
                    states: Seq<C>,
                |
                    drain_traced(
                        msg_handler,
                        event.token,
                        flushed_entry,
                        told,
                        self.sessions@[event.token as int],
                        turns,
                        closing,
                        wires,
                        states,
                    ) && forall|k: int|
                        0 <= k < wires.len() ==> *final(#[trigger] wires[k]) == states[k + 1];
                assert(drain_traced(
                    msg_handler,
                    event.token,
                    flushed_entry,
                    told,
                    self.sessions@[event.token as int],
                    found.0,
                    found.1,
                    found.2,
                    found.3,
                ));
                assert(traced(
                    found.2,
                    found.3,
                    drain_calls(report.drained, found.0, found.1),
                    middle,
                    last,
                ));
                assert(event_drains(
                    msg_handler,
                    event.token,
                    emptied,
                    report,
                    found.0,
                    found.1,
                    after,
                ));
            }
            let drain = choose|
                turns: Seq<Turn>,
                closing: Option<Result<Option<Message>, Error>>,
                wires: Seq<&mut C>,
                states: Seq<C>,
            |
                traced(wires, states, drain_calls(report.drained, turns, closing), middle, last)
                    && event_drains(msg_handler, event.token, emptied, report, turns, closing, after)
                    && forall|k: int|
                    0 <= k < wires.len() ==> *final(#[trigger] wires[k]) == states[k + 1];
            let drain_log = drain_calls(report.drained, drain.0, drain.1);
            let log = event_log(first.outbound().queue, report, drain.0, drain.1);
            lemma_runs_join(
                flush.0,
                flush.1,
                flush_log,
                drain.2,
                drain.3,
                drain_log,
                first.wire(),
                middle,
                last,
                flush.0 + drain.2,
                flush.1 + drain.3.skip(1),
                log,
            );
            assert(traced(
                flush.0 + drain.2,
                flush.1 + drain.3.skip(1),
                log,
                first.wire(),
                last,
            ));
            assert(emptied == after_optional_flush(
                marked_by(first.outbound(), event),
                report.flushed,
            ));
            assert(event_traced(
                msg_handler,
                event,
                report,
                first,
                self.sessions@[event.token as int],
                drain.0,
                drain.1,
                flush.0 + drain.2,
                flush.1 + drain.3.skip(1),
            ));
            assert(first == old(self).entries()[event.token as int]);
            assert(self.sessions@[event.token as int] == self.entries()[event.token as int]);
            assert(event_traced(
                msg_handler,
                event,
                report,
                old(self).entries()[event.token as int],
                self.entries()[event.token as int],
                drain.0,
                drain.1,
                flush.0 + drain.2,
                flush.1 + drain.3.skip(1),
            ));
            assert(exists|
                turns: Seq<Turn>,
                closing: Option<Result<Option<Message>, Error>>,
                wires: Seq<&mut C>,
                states: Seq<C>,
            |
                event_traced(
                    msg_handler,
                    event,
                    report,
                    old(self).entries()[event.token as int],
                    self.entries()[event.token as int],
                    turns,
                    closing,
                    wires,
                    states,
                ) && forall|k: int|
                    0 <= k < wires.len() ==> *final(#[trigger] wires[k]) == states[k + 1]);
        }
        Some(report)
    }

    /// Handles a batch of readiness events to completion, one event after
    /// the other in the order given, each as [`Client::handle_event`] says.
    ///
    /// Returns one report per event.  What each event did to its session,
    /// call by call, is what [`batch_traced`] says.
    pub fn handle_events<H: Fn(&MessageContext, Result<Message, Error>) -> Reaction>(
        &mut self,
        events: &Vec<ReadyEvent>,
        msg_handler: &H,
        budget: usize,
    ) -> (reports: Vec<Option<EventReport>>)
        requires
            handles_all(msg_handler),
        ensures
            registry_run(old(self).entries(), events@, budget, reports@, final(self).entries()),
            exists|
                stages: Seq<Seq<SessionEntry<C>>>,
                turns: Seq<Seq<Turn>>,
                closings: Seq<Option<Result<Option<Message>, Error>>>,
                wires: Seq<Seq<&mut C>>,
                states: Seq<Seq<C>>,
            |
                batch_traced(
                    msg_handler,
                    budget,
                    events@,
                    reports@,
                    stages,
                    turns,
                    closings,
                    wires,
                    states,
                ) && stages[0] == old(self).entries()
                    && stages[events@.len() as int] == final(self).entries()
                    && forall|k: int, j: int|
                    0 <= k < wires.len() && 0 <= j < wires[k].len()
                        ==> *final(#[trigger] wires[k][j]) == states[k][j + 1],
    {
        let mut reports: Vec<Option<EventReport>> = Vec::new();
        let mut position: usize = 0;
        assert(batch_traced(
            msg_handler,
            budget,
            events@.take(0),
            reports@,
            seq![self.entries()],
            Seq::<Seq<Turn>>::empty(),
            Seq::<Option<Result<Option<Message>, Error>>>::empty(),
            Seq::<Seq<&mut C>>::empty(),
            Seq::<Seq<C>>::empty(),
        ));
        while position < events.len()
            invariant
                handles_all(msg_handler),
                position <= events@.len(),
                exists|
                    stages: Seq<Seq<SessionEntry<C>>>,
                    turns: Seq<Seq<Turn>>,
                    closings: Seq<Option<Result<Option<Message>, Error>>>,
                    wires: Seq<Seq<&mut C>>,
                    states: Seq<Seq<C>>,
                |
                    batch_traced(
                        msg_handler,
                        budget,
                        events@.take(position as int),
                        reports@,
                        stages,
                        turns,
                        closings,
                        wires,
                        states,
                    ) && stages[0] == old(self).entries() && stages[position as int]
                        == self.entries() && forall|k: int, j: int|
                        0 <= k < wires.len() && 0 <= j < wires[k].len()
                            ==> *final(#[trigger] wires[k][j]) == states[k][j + 1],
                registry_run(
                    old(self).entries(),
                    events@.take(position as int),
                    budget,
                    reports@,
                    self.entries(),
                ),
            decreases events@.len() - position,
        {
            let ghost middle = self.entries();
            let ghost told = reports@;
            let ghost past = choose|
                stages: Seq<Seq<SessionEntry<C>>>,
                turns: Seq<Seq<Turn>>,
                closings: Seq<Option<Result<Option<Message>, Error>>>,
                wires: Seq<Seq<&mut C>>,
                states: Seq<Seq<C>>,
            |
                batch_traced(
                    msg_handler,
                    budget,
                    events@.take(position as int),
                    reports@,
                    stages,
                    turns,
                    closings,
                    wires,
                    states,
                ) && stages[0] == old(self).entries() && stages[position as int] == self.entries()
                    && forall|k: int, j: int|
                    0 <= k < wires.len() && 0 <= j < wires[k].len()
                        ==> *final(#[trigger] wires[k][j]) == states[k][j + 1];
            let event = events[position];
            let report = self.handle_event(event, msg_handler, budget);
            let ghost news = report;
            let ghost found = choose|
                turns: Seq<Turn>,
                closing: Option<Result<Option<Message>, Error>>,
                wires: Seq<&mut C>,
                states: Seq<C>,
            |
                event_traced(
                    msg_handler,
                    event,
                    news->0,
                    middle[event.token as int],
                    self.entries()[event.token as int],
                    turns,
                    closing,
                    wires,
                    states,
                ) && forall|k: int|
                    0 <= k < wires.len() ==> *final(#[trigger] wires[k]) == states[k + 1];
            reports.push(report);
            proof {
                let handled = events@.take(position + 1);
                assert(handled.drop_last() =~= events@.take(position as int));
                assert(reports@.drop_last() =~= told);
                assert(registry_step(
                    middle,
                    handled.last(),
                    budget,
                    reports@.last(),
                    self.entries(),
                ));
                let stages = past.0.push(self.entries());
                let turns = past.1.push(found.0);
                let closings = past.2.push(found.1);
                let wires = past.3.push(
                    if news is Some {
                        found.2
                    } else {
                        Seq::empty()
                    },
                );
                let states = past.4.push(found.3);
                assert forall|k: int| 0 <= k < handled.len() implies registry_step(
                    stages[k],
                    #[trigger] handled[k],
                    budget,
                    reports@[k],
                    stages[k + 1],
                ) && (reports@[k] matches Some(told) ==> event_traced(
                    msg_handler,
                    handled[k],
                    told,
                    stages[k][handled[k].token as int],
                    stages[k + 1][handled[k].token as int],
                    turns[k],
                    closings[k],
                    wires[k],
                    states[k],
                )) by {
                    if k < position {
                        assert(handled[k] == events@.take(position as int)[k]);
                        assert(reports@[k] == told[k]);
                        assert(stages[k] == past.0[k] && stages[k + 1] == past.0[k + 1]);
                    } else {
                        assert(handled[k] == event);
                        assert(reports@[k] == news);
                        assert(stages[k] == middle && stages[k + 1] == self.entries());
                    }
                }
                assert(batch_traced(
                    msg_handler,
                    budget,
                    handled,
                    reports@,
                    stages,
                    turns,
                    closings,
                    wires,
                    states,
                ));
                assert forall|k: int, j: int|
                    0 <= k < wires.len() && 0 <= j < wires[k].len() implies *final(#[trigger] wires[k][j]) == states[k][j + 1] by {
                    if k < position {
                        assert(wires[k] == past.3[k] && states[k] == past.4[k]);
                    }
                }
            }
            position = position + 1;
        }
        assert(events@.take(position as int) =~= events@);
        proof {
            let past = choose|
                stages: Seq<Seq<SessionEntry<C>>>,
                turns: Seq<Seq<Turn>>,
                closings: Seq<Option<Result<Option<Message>, Error>>>,
                wires: Seq<Seq<&mut C>>,
                states: Seq<Seq<C>>,
            |
                batch_traced(
                    msg_handler,
                    budget,
                    events@.take(position as int),
                    reports@,
                    stages,
                    turns,
                    closings,
                    wires,
                    states,
                ) && stages[0] == old(self).entries() && stages[position as int] == self.entries()
                    && forall|k: int, j: int|
                    0 <= k < wires.len() && 0 <= j < wires[k].len()
                        ==> *final(#[trigger] wires[k][j]) == states[k][j + 1];
            assert(batch_traced(
                msg_handler,
                budget,
                events@,
                reports@,
                past.0,
                past.1,
                past.2,
                past.3,
                past.4,
            ));
        }
        reports
    }
}

} // verus!
