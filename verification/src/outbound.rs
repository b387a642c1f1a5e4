//! The outbound side of a session as a mathematical model: the queue of
//! messages that still wait to be written, the "last known writable" flag,
//! and what a send attempt does to both.

use vstd::prelude::*;
use crate::error::Error;
use crate::message::Message;

verus! {

/// A message that was given up, with the error that caused it.
#[derive(Debug, PartialEq, Eq)]
pub struct SendFailure {
    pub message: Message,
    pub error: Error,
}

/// How one attempt to send a message ended.
#[derive(Debug, PartialEq, Eq)]
pub enum SendOutcome {
    /// The transport took the message.
    Sent,
    /// The message waits in the queue: the transport could not take it right
    /// now, or earlier messages wait ahead of it.
    Blocked,
    /// The transport refused the message for good; the message is dropped.
    Failed(SendFailure),
}

impl SendOutcome {
    /// The outcome that a transport's answer to sending `message` amounts
    /// to: success, a transient error, or any other error.
    pub open spec fn of(message: Message, result: Result<(), Error>) -> SendOutcome {
        match result {
            Ok(_) => SendOutcome::Sent,
            Err(error) => if error.transient() {
                SendOutcome::Blocked
            } else {
                SendOutcome::Failed(SendFailure { message, error })
            },
        }
    }

    /// Classifies a transport's answer to sending `message`.
    pub fn classify(message: &Message, result: Result<(), Error>) -> (outcome: SendOutcome)
        ensures
            outcome == SendOutcome::of(*message, result),
    {
        match result {
            Ok(_) => SendOutcome::Sent,
            Err(error) => if error.is_transient() {
                SendOutcome::Blocked
            } else {
                SendOutcome::Failed(SendFailure { message: message.clone(), error })
            },
        }
    }

    /// Tells whether the attempt was blocked.
    pub fn is_blocked(&self) -> (r: bool)
        ensures
            r == (*self is Blocked),
    {
        match self {
            SendOutcome::Blocked => true,
            _ => false,
        }
    }
}

/// The outbound state of one session.
pub struct Outbound {
    /// The messages not yet written, oldest first.
    pub queue: Seq<Message>,
    /// Whether the transport was last known to take writes.
    pub writable: bool,
}

/// Some attempt in `outcomes` was blocked.
pub open spec fn any_blocked(outcomes: Seq<SendOutcome>) -> bool {
    exists|i: int| 0 <= i < outcomes.len() && outcomes[i] is Blocked
}

/// Some attempt in `outcomes` failed for good.
pub open spec fn any_failed(outcomes: Seq<SendOutcome>) -> bool {
    exists|i: int| 0 <= i < outcomes.len() && outcomes[i] is Failed
}

/// The log ends in a blocked attempt.
pub open spec fn stalled(outcomes: Seq<SendOutcome>) -> bool {
    outcomes.len() > 0 && outcomes.last() is Blocked
}

/// The number of messages that a flush with this log took off the queue:
/// every attempt but a blocked last one.
pub open spec fn consumed(outcomes: Seq<SendOutcome>) -> nat {
    if stalled(outcomes) {
        (outcomes.len() - 1) as nat
    } else {
        outcomes.len()
    }
}

/// `outcomes` is the log of one flush of a queue of `queued` messages: one
/// outcome per attempt, in queue order, where only the last attempt may have
/// been blocked and the flush went on to the end of the queue unless it was.
pub open spec fn flush_log(queued: nat, outcomes: Seq<SendOutcome>) -> bool {
    &&& outcomes.len() <= queued
    &&& forall|i: int| 0 <= i < outcomes.len() - 1 ==> !(outcomes[i] is Blocked)
    &&& (stalled(outcomes) || outcomes.len() == queued)
}

/// Every failure in `outcomes` names the message at its own position in
/// `messages`, and carries an error that is not transient.
pub open spec fn failures_match(messages: Seq<Message>, outcomes: Seq<SendOutcome>) -> bool {
    forall|i: int|
        0 <= i < outcomes.len() ==> (#[trigger] outcomes[i] matches SendOutcome::Failed(failure)
            ==> failure.message == messages[i] && !failure.error.transient())
}

/// The messages among the first `outcomes.len()` of `messages` whose attempt
/// succeeded, in order.
pub open spec fn delivered(messages: Seq<Message>, outcomes: Seq<SendOutcome>) -> Seq<Message>
    decreases outcomes.len(),
{
    if outcomes.len() == 0 {
        Seq::empty()
    } else {
        let earlier = delivered(messages, outcomes.drop_last());
        if outcomes.last() is Sent {
            earlier.push(messages[outcomes.len() - 1])
        } else {
            earlier
        }
    }
}

impl Outbound {
    /// The state of a session that was just registered.
    pub open spec fn fresh() -> Outbound {
        Outbound { queue: Seq::empty(), writable: false }
    }

    /// A readiness event reported the transport writable.
    pub open spec fn marked_writable(self) -> Outbound {
        Outbound { queue: self.queue, writable: true }
    }

    /// A send of `message` ended in `outcome`: a blocked message joins the
    /// end of the queue and clears the flag; otherwise nothing changes.
    pub open spec fn after_send(self, message: Message, outcome: SendOutcome) -> Outbound {
        if outcome is Blocked {
            Outbound { queue: self.queue.push(message), writable: false }
        } else {
            self
        }
    }

    /// Sends of `messages`, one after the other, ended in
    /// `outcomes`.
    pub open spec fn after_sends(
        self,
        messages: Seq<Message>,
        outcomes: Seq<SendOutcome>,
    ) -> Outbound
        decreases messages.len(),
    {
        if messages.len() == 0 {
            self
        } else {
            self.after_sends(messages.drop_last(), outcomes.drop_last()).after_send(
                messages.last(),
                outcomes.last(),
            )
        }
    }

    /// A flush walked the queue from the front and logged `outcomes`: the
    /// consumed prefix leaves the queue, the rest stays as it was, and a
    /// blocked attempt clears the flag.
    pub open spec fn after_flush(self, outcomes: Seq<SendOutcome>) -> Outbound {
        Outbound {
            queue: self.queue.skip(consumed(outcomes) as int),
            writable: self.writable && !stalled(outcomes),
        }
    }

    /// A backlog implies a cleared flag.
    pub open spec fn settled(self) -> bool {
        self.queue.len() > 0 ==> !self.writable
    }

    /// The state after a series of writable events, where the flush that
    /// the `k`-th event set off logged `rounds[k]`.
    pub open spec fn after_rounds(self, rounds: Seq<Seq<SendOutcome>>) -> Outbound
        decreases rounds.len(),
    {
        if rounds.len() == 0 {
            self
        } else {
            self.after_rounds(rounds.drop_last()).marked_writable().after_flush(rounds.last())
        }
    }

    /// Every round is the log of a flush of the queue as the rounds before
    /// it left it.
    pub open spec fn rounds_fit(self, rounds: Seq<Seq<SendOutcome>>) -> bool
        decreases rounds.len(),
    {
        rounds.len() > 0 ==> {
            &&& self.rounds_fit(rounds.drop_last())
            &&& flush_log(self.after_rounds(rounds.drop_last()).queue.len(), rounds.last())
        }
    }

    /// The messages that the transport took over a series of flushes, in the
    /// order it took them.
    pub open spec fn delivered_in_rounds(self, rounds: Seq<Seq<SendOutcome>>) -> Seq<Message>
        decreases rounds.len(),
    {
        if rounds.len() == 0 {
            Seq::empty()
        } else {
            self.delivered_in_rounds(rounds.drop_last()) + delivered(
                self.after_rounds(rounds.drop_last()).queue,
                rounds.last(),
            )
        }
    }
}

/// The outcomes respect the queue: a message that found earlier ones
/// waiting, at the start or because a send before it was blocked, is blocked
/// too, so that it cannot overtake them.
pub open spec fn sends_fit(
    start: Outbound,
    messages: Seq<Message>,
    outcomes: Seq<SendOutcome>,
) -> bool
    decreases messages.len(),
{
    messages.len() > 0 ==> {
        &&& sends_fit(start, messages.drop_last(), outcomes.drop_last())
        &&& (start.after_sends(messages.drop_last(), outcomes.drop_last()).queue.len() > 0
            ==> outcomes.last() is Blocked)
    }
}

/// Sending `messages` one after the other, with `outcomes` as the outcomes,
/// leads from `before` to `after`.
pub open spec fn sends_lead(
    before: Outbound,
    messages: Seq<Message>,
    outcomes: Seq<SendOutcome>,
    after: Outbound,
) -> bool {
    &&& messages.len() == outcomes.len()
    &&& failures_match(messages, outcomes)
    &&& sends_fit(before, messages, outcomes)
    &&& after == before.after_sends(messages, outcomes)
}

/// Outcomes that respect the queue in two batches respect it in the batches
/// put together.
pub proof fn lemma_sends_fit_concat(
    start: Outbound,
    first: Seq<Message>,
    first_outcomes: Seq<SendOutcome>,
    second: Seq<Message>,
    second_outcomes: Seq<SendOutcome>,
)
    requires
        first.len() == first_outcomes.len(),
        second.len() == second_outcomes.len(),
        sends_fit(start, first, first_outcomes),
        sends_fit(start.after_sends(first, first_outcomes), second, second_outcomes),
    ensures
        sends_fit(start, first + second, first_outcomes + second_outcomes),
    decreases second.len(),
{
    if second.len() > 0 {
        lemma_sends_fit_concat(
            start,
            first,
            first_outcomes,
            second.drop_last(),
            second_outcomes.drop_last(),
        );
        lemma_after_sends_concat(
            start,
            first,
            first_outcomes,
            second.drop_last(),
            second_outcomes.drop_last(),
        );
        assert((first + second).drop_last() =~= first + second.drop_last());
        assert((first_outcomes + second_outcomes).drop_last() =~= first_outcomes
            + second_outcomes.drop_last());
    } else {
        assert(first + second =~= first);
        assert(first_outcomes + second_outcomes =~= first_outcomes);
    }
}

/// The number of blocked outcomes.
pub open spec fn waiting(outcomes: Seq<SendOutcome>) -> nat
    decreases outcomes.len(),
{
    if outcomes.len() == 0 {
        0
    } else {
        waiting(outcomes.drop_last()) + if outcomes.last() is Blocked {
            1nat
        } else {
            0nat
        }
    }
}

/// A new message never overtakes those that wait.
///
/// Take any sends whose outcomes respect the queue.  The blocked messages
/// are the last ones asked for, and they join the queue in order behind
/// what waited before: everything that did not end up waiting comes before
/// everything that did.  If something waited at the start, every message
/// joins the queue.
pub proof fn lemma_sends_never_overtake(
    start: Outbound,
    messages: Seq<Message>,
    outcomes: Seq<SendOutcome>,
)
    requires
        messages.len() == outcomes.len(),
        sends_fit(start, messages, outcomes),
    ensures
        waiting(outcomes) <= outcomes.len(),
        start.after_sends(messages, outcomes).queue == start.queue + messages.skip(
            messages.len() - waiting(outcomes),
        ),
        forall|k: int|
            0 <= k < outcomes.len() ==> (outcomes[k] is Blocked <==> k >= outcomes.len()
                - waiting(outcomes)),
        start.queue.len() > 0 ==> waiting(outcomes) == outcomes.len(),
    decreases messages.len(),
{
    if messages.len() == 0 {
        assert(start.queue + messages.skip(0) =~= start.queue);
    } else {
        let earlier = messages.drop_last();
        let earlier_outcomes = outcomes.drop_last();
        lemma_sends_never_overtake(start, earlier, earlier_outcomes);
        let before = start.after_sends(earlier, earlier_outcomes);
        let held = waiting(earlier_outcomes);
        assert(before.queue.len() == start.queue.len() + held);
        if outcomes.last() is Blocked {
            assert(before.queue.push(messages.last()) =~= start.queue + messages.skip(
                messages.len() - (held + 1),
            ));
        } else {
            assert(start.queue + messages.skip(messages.len() as int) =~= start.queue);
            assert(earlier.skip(earlier.len() as int) =~= Seq::<Message>::empty());
        }
        assert forall|k: int| 0 <= k < outcomes.len() implies (outcomes[k] is Blocked <==> k
            >= outcomes.len() - waiting(outcomes)) by {
            if k < earlier_outcomes.len() {
                assert(outcomes[k] == earlier_outcomes[k]);
            }
        }
    }
}

/// Once a message waits, every later one waits behind it: sends never
/// shorten the queue.
pub proof fn lemma_sends_keep_backlog(
    start: Outbound,
    messages: Seq<Message>,
    outcomes: Seq<SendOutcome>,
)
    ensures
        start.after_sends(messages, outcomes).queue.len() >= start.queue.len(),
    decreases messages.len(),
{
    if messages.len() > 0 {
        lemma_sends_keep_backlog(start, messages.drop_last(), outcomes.drop_last());
    }
}

/// Where every attempt succeeded, what was delivered is the prefix that was
/// attempted.
pub proof fn lemma_delivered_when_all_sent(messages: Seq<Message>, outcomes: Seq<SendOutcome>)
    requires
        outcomes.len() <= messages.len(),
        forall|i: int| 0 <= i < outcomes.len() ==> outcomes[i] is Sent,
    ensures
        delivered(messages, outcomes) == messages.take(outcomes.len() as int),
    decreases outcomes.len(),
{
    if outcomes.len() > 0 {
        lemma_delivered_when_all_sent(messages, outcomes.drop_last());
        assert(messages.take(outcomes.len() as int) =~= messages.take(outcomes.len() - 1).push(
            messages[outcomes.len() - 1],
        ));
    }
}

/// A flush on a transport that refuses nothing for good delivers exactly
/// the messages it consumes, in queue order.
pub proof fn lemma_flush_delivers_consumed(queue: Seq<Message>, outcomes: Seq<SendOutcome>)
    requires
        flush_log(queue.len(), outcomes),
        !any_failed(outcomes),
    ensures
        delivered(queue, outcomes) == queue.take(consumed(outcomes) as int),
{
    // Neither blocked nor failed, every attempt but a blocked last one
    // succeeded.
    if stalled(outcomes) {
        lemma_delivered_when_all_sent(queue, outcomes.drop_last());
    } else {
        lemma_delivered_when_all_sent(queue, outcomes);
    }
}

/// On a transport that refuses nothing for good, what a series of flushes
/// has delivered so far, followed by what is still queued, is the queue the
/// series started with: nothing is lost, repeated or reordered.
pub proof fn lemma_rounds_keep_order(start: Outbound, rounds: Seq<Seq<SendOutcome>>)
    requires
        start.rounds_fit(rounds),
        forall|k: int| 0 <= k < rounds.len() ==> !any_failed(#[trigger] rounds[k]),
    ensures
        start.delivered_in_rounds(rounds) + start.after_rounds(rounds).queue == start.queue,
    decreases rounds.len(),
{
    if rounds.len() > 0 {
        let earlier = rounds.drop_last();
        lemma_rounds_keep_order(start, earlier);
        let queue = start.after_rounds(earlier).queue;
        lemma_flush_delivers_consumed(queue, rounds.last());
        // The last flush moves a prefix of the queue over to what was
        // delivered.
        assert(start.delivered_in_rounds(rounds) + start.after_rounds(rounds).queue
            =~= start.delivered_in_rounds(earlier) + queue);
    }
}

/// Flushing under backpressure delivers the queue whole.
///
/// Take any queue and any series of flushes on a transport that refuses no
/// message for good.  However often a flush is cut short by a blocked
/// attempt, once a flush runs through without one, the transport has taken
/// every message of the queue exactly once, in the order in which they were
/// queued, and the queue is empty.
pub proof fn lemma_flushes_deliver_queue(start: Outbound, rounds: Seq<Seq<SendOutcome>>)
    requires
        rounds.len() > 0,
        start.rounds_fit(rounds),
        forall|k: int| 0 <= k < rounds.len() ==> !any_failed(#[trigger] rounds[k]),
        !stalled(rounds.last()),
    ensures
        start.delivered_in_rounds(rounds) == start.queue,
        start.after_rounds(rounds).queue == Seq::<Message>::empty(),
{
    lemma_rounds_keep_order(start, rounds);
    assert(start.delivered_in_rounds(rounds) + Seq::<Message>::empty()
        =~= start.delivered_in_rounds(rounds));
}

/// The backpressure boundary.
///
/// If the `nth` attempt of a flush, counted from one, is blocked, then the
/// flush ends there: the `nth - 1` messages before it are consumed, the
/// `nth` message and all after it stay in the queue as they were, and the
/// writable flag is cleared.
pub proof fn lemma_blocked_attempt_keeps_rest(start: Outbound, outcomes: Seq<SendOutcome>, nth: int)
    requires
        flush_log(start.queue.len(), outcomes),
        1 <= nth <= outcomes.len(),
        outcomes[nth - 1] is Blocked,
    ensures
        nth == outcomes.len(),
        start.after_flush(outcomes).queue == start.queue.subrange(
            nth - 1,
            start.queue.len() as int,
        ),
        !start.after_flush(outcomes).writable,
{
}

/// A flush leaves a backlog only with the flag cleared.
pub proof fn lemma_flush_settles(start: Outbound, outcomes: Seq<SendOutcome>)
    requires
        flush_log(start.queue.len(), outcomes),
    ensures
        start.after_flush(outcomes).settled(),
{
}

/// The flag is pessimistic: sends never set it, and a single blocked send
/// clears it.
pub proof fn lemma_sends_flag(start: Outbound, messages: Seq<Message>, outcomes: Seq<SendOutcome>)
    requires
        messages.len() == outcomes.len(),
    ensures
        start.after_sends(messages, outcomes).writable == (start.writable && !any_blocked(
            outcomes,
        )),
    decreases messages.len(),
{
    if messages.len() > 0 {
        let earlier = outcomes.drop_last();
        lemma_sends_flag(start, messages.drop_last(), earlier);
        if any_blocked(outcomes) && !(outcomes.last() is Blocked) {
            let i = choose|i: int| 0 <= i < outcomes.len() && outcomes[i] is Blocked;
            assert(earlier[i] is Blocked);
        }
    }
}

/// Sends never leave a backlog behind a set flag.
pub proof fn lemma_sends_keep_settled(
    start: Outbound,
    messages: Seq<Message>,
    outcomes: Seq<SendOutcome>,
)
    requires
        start.settled(),
    ensures
        start.after_sends(messages, outcomes).settled(),
    decreases messages.len(),
{
    if messages.len() > 0 {
        lemma_sends_keep_settled(start, messages.drop_last(), outcomes.drop_last());
    }
}

/// Failures that match in two batches match in the batches put together.
pub proof fn lemma_failures_match_concat(
    first: Seq<Message>,
    first_outcomes: Seq<SendOutcome>,
    second: Seq<Message>,
    second_outcomes: Seq<SendOutcome>,
)
    requires
        first.len() == first_outcomes.len(),
        second.len() == second_outcomes.len(),
        failures_match(first, first_outcomes),
        failures_match(second, second_outcomes),
    ensures
        failures_match(first + second, first_outcomes + second_outcomes),
{
}

/// Sending one batch of messages and then another is sending both batches
/// in one go, outcome for outcome.
pub proof fn lemma_after_sends_concat(
    start: Outbound,
    first: Seq<Message>,
    first_outcomes: Seq<SendOutcome>,
    second: Seq<Message>,
    second_outcomes: Seq<SendOutcome>,
)
    requires
        first.len() == first_outcomes.len(),
        second.len() == second_outcomes.len(),
    ensures
        start.after_sends(first + second, first_outcomes + second_outcomes) == start.after_sends(
            first,
            first_outcomes,
        ).after_sends(second, second_outcomes),
    decreases second.len(),
{
    if second.len() > 0 {
        lemma_after_sends_concat(
            start,
            first,
            first_outcomes,
            second.drop_last(),
            second_outcomes.drop_last(),
        );
        assert((first + second).drop_last() =~= first + second.drop_last());
        assert((first_outcomes + second_outcomes).drop_last() =~= first_outcomes
            + second_outcomes.drop_last());
    }
}

} // verus!
