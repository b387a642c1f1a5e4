//! What the engine asked of a connection, call by call.

use vstd::prelude::*;
use crate::error::{Error, IoError};
use crate::message::Message;
use crate::outbound::{
    lemma_after_sends_concat, lemma_sends_keep_backlog, Outbound, SendOutcome,
};
use crate::session::{decoded, send_result, Connection};

verus! {

/// One call on the connection of a session.
pub enum Exchange {
    /// The line of `message` was handed to the connection, and the
    /// connection's answer amounts to `outcome`.
    Sent { message: Message, outcome: SendOutcome },
    /// The connection was asked for a line, and its answer decodes to
    /// `result`.
    Received { result: Result<Option<Message>, Error> },
}

/// The call that `wire` was borrowed for is the exchange: the connection's
/// own contract admits an answer to that call which gives the outcome, or
/// the result, that the exchange holds.
pub open spec fn exchanged<C: Connection>(wire: &mut C, exchange: Exchange) -> bool {
    match exchange {
        Exchange::Sent { message, outcome } => exists|line: &str, answer: Result<(), IoError>|
            line@ == message@ && call_ensures(C::try_send_line, (wire, line), answer) && outcome
                == SendOutcome::of(message, send_result(answer)),
        Exchange::Received { result } => exists|raw: Result<Option<String>, IoError>|
            call_ensures(C::recv_line, (wire,), raw) && decoded(raw, result),
    }
}

/// The calls of `log` were made on one connection, one after the other:
/// `wires` are the borrows that the calls were handed, and `states` the
/// states that the connection went through from `start` to `end`, one more
/// than calls.  Each borrow found the connection in the state before its
/// call.
pub open spec fn traced<C: Connection>(
    wires: Seq<&mut C>,
    states: Seq<C>,
    log: Seq<Exchange>,
    start: C,
    end: C,
) -> bool {
    &&& wires.len() == log.len()
    &&& states.len() == log.len() + 1
    &&& states[0] == start
    &&& states[log.len() as int] == end
    &&& forall|k: int|
        0 <= k < log.len() ==> *(#[trigger] wires[k]) == states[k] && exchanged(wires[k], log[k])
}

/// The calls of a flush that tried `messages` with `outcomes`, in order.
pub open spec fn sends_log(messages: Seq<Message>, outcomes: Seq<SendOutcome>) -> Seq<Exchange> {
    Seq::new(
        outcomes.len(),
        |k: int| Exchange::Sent { message: messages[k], outcome: outcomes[k] },
    )
}

/// The calls that sends of `messages` with `outcomes` make, starting from
/// the outbound state `start`: a message is handed to the connection exactly
/// if nothing waits in the queue when its turn comes.
pub open spec fn sends_calls(
    start: Outbound,
    messages: Seq<Message>,
    outcomes: Seq<SendOutcome>,
) -> Seq<Exchange>
    decreases messages.len(),
{
    if messages.len() == 0 {
        Seq::empty()
    } else {
        let earlier = sends_calls(start, messages.drop_last(), outcomes.drop_last());
        if start.after_sends(messages.drop_last(), outcomes.drop_last()).queue.len() == 0 {
            earlier.push(Exchange::Sent { message: messages.last(), outcome: outcomes.last() })
        } else {
            earlier
        }
    }
}

/// The calls of two batches of sends are the calls of the first
/// batch followed by those of the second, which starts from the state that
/// the first batch left.
pub proof fn lemma_sends_calls_concat(
    start: Outbound,
    first: Seq<Message>,
    first_outcomes: Seq<SendOutcome>,
    second: Seq<Message>,
    second_outcomes: Seq<SendOutcome>,
)
    requires
        first.len() == first_outcomes.len(),
        second.len() == second_outcomes.len(),
    ensures
        sends_calls(start, first + second, first_outcomes + second_outcomes) == sends_calls(
            start,
            first,
            first_outcomes,
        ) + sends_calls(start.after_sends(first, first_outcomes), second, second_outcomes),
    decreases second.len(),
{
    if second.len() > 0 {
        lemma_sends_calls_concat(
            start,
            first,
            first_outcomes,
            second.drop_last(),
            second_outcomes.drop_last(),
        );
        lemma_after_sends_concat(
            start,
            first,
            first_outcomes,
            second.drop_last(),
            second_outcomes.drop_last(),
        );
        assert((first + second).drop_last() =~= first + second.drop_last());
        assert((first_outcomes + second_outcomes).drop_last() =~= first_outcomes
            + second_outcomes.drop_last());
        assert(sends_calls(start, first + second, first_outcomes + second_outcomes)
            =~= sends_calls(start, first, first_outcomes) + sends_calls(
            start.after_sends(first, first_outcomes),
            second,
            second_outcomes,
        ));
    } else {
        assert(first + second =~= first);
        assert(first_outcomes + second_outcomes =~= first_outcomes);
        assert(sends_calls(start, first, first_outcomes) + Seq::<Exchange>::empty()
            =~= sends_calls(start, first, first_outcomes));
    }
}

/// Calls are made only while nothing waits.
///
/// Take any sends whose outcomes respect the queue.  The calls
/// are the sends of the first messages, in order, with none left out in
/// between; if something waited at the start there is no call at all; and
/// if nothing waits in the end, every message was handed over.
pub proof fn lemma_calls_come_first(
    start: Outbound,
    messages: Seq<Message>,
    outcomes: Seq<SendOutcome>,
)
    requires
        messages.len() == outcomes.len(),
    ensures
        sends_calls(start, messages, outcomes).len() <= messages.len(),
        sends_calls(start, messages, outcomes) == sends_log(messages, outcomes).take(
            sends_calls(start, messages, outcomes).len() as int,
        ),
        start.queue.len() > 0 ==> sends_calls(start, messages, outcomes).len() == 0,
        start.after_sends(messages, outcomes).queue.len() == 0 ==> sends_calls(
            start,
            messages,
            outcomes,
        ).len() == messages.len(),
    decreases messages.len(),
{
    let calls = sends_calls(start, messages, outcomes);
    if messages.len() == 0 {
        assert(calls =~= sends_log(messages, outcomes).take(0));
    } else {
        let earlier = messages.drop_last();
        let earlier_outcomes = outcomes.drop_last();
        lemma_calls_come_first(start, earlier, earlier_outcomes);
        lemma_sends_keep_backlog(start, earlier, earlier_outcomes);
        let before = start.after_sends(earlier, earlier_outcomes);
        let made = sends_calls(start, earlier, earlier_outcomes);
        assert(sends_log(earlier, earlier_outcomes).take(made.len() as int) =~= sends_log(
            messages,
            outcomes,
        ).take(made.len() as int));
        if before.queue.len() == 0 {
            assert(made.len() == earlier.len());
            assert(calls =~= sends_log(messages, outcomes).take(messages.len() as int));
        } else {
            assert(calls == made);
        }
    }
}

/// Two runs of calls, the second starting where the first ended, are one
/// run of calls.
pub proof fn lemma_runs_join<C: Connection>(
    first_wires: Seq<&mut C>,
    first: Seq<C>,
    first_log: Seq<Exchange>,
    second_wires: Seq<&mut C>,
    second: Seq<C>,
    second_log: Seq<Exchange>,
    start: C,
    middle: C,
    end: C,
    wires: Seq<&mut C>,
    states: Seq<C>,
    log: Seq<Exchange>,
)
    requires
        wires == first_wires + second_wires,
        states == first + second.skip(1),
        log == first_log + second_log,
        traced(first_wires, first, first_log, start, middle),
        traced(second_wires, second, second_log, middle, end),
        forall|k: int|
            0 <= k < first_wires.len() ==> *final(#[trigger] first_wires[k]) == first[k + 1],
        forall|k: int|
            0 <= k < second_wires.len() ==> *final(#[trigger] second_wires[k]) == second[k + 1],
    ensures
        traced(wires, states, log, start, end),
        forall|k: int| 0 <= k < wires.len() ==> *final(#[trigger] wires[k]) == states[k + 1],
{
    assert forall|k: int| 0 <= k < log.len() implies *(#[trigger] wires[k]) == states[k]
        && exchanged(wires[k], log[k]) by {
        if k < first_log.len() {
            assert(wires[k] == first_wires[k]);
        } else {
            assert(wires[k] == second_wires[k - first_log.len()]);
            assert(states[k] == second[k - first_log.len()]);
        }
    }
    assert forall|k: int| 0 <= k < wires.len() implies *final(#[trigger] wires[k]) == states[k
        + 1] by {
        if k < first_log.len() {
            assert(wires[k] == first_wires[k]);
        } else {
            assert(wires[k] == second_wires[k - first_log.len()]);
            assert(states[k + 1] == second[k - first_log.len() + 1]);
        }
    }
}

} // verus!
