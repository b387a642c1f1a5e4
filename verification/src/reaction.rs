//! The effect a handler asks for in answer to one inbound event.

use vstd::prelude::*;
use crate::message::Message;
use crate::outbound::{lemma_after_sends_concat, Outbound, SendOutcome};

verus! {

/// What a handler wants sent: nothing, one message, or an ordered list of
/// further reactions.
#[derive(Debug, PartialEq, Eq)]
pub enum Reaction {
    /// No effect.
    Nothing,
    /// One outbound message.
    RawMsg(Message),
    /// Reactions to be carried out one after the other.
    Multi(Vec<Reaction>),
}

impl Reaction {
    /// The messages a reaction asks for, depth first and left to right.
    pub open spec fn flat(self) -> Seq<Message>
        decreases self,
    {
        match self {
            Reaction::Nothing => Seq::empty(),
            Reaction::RawMsg(message) => seq![message],
            Reaction::Multi(reactions) => Reaction::flat_all(reactions@),
        }
    }

    /// The messages of a list of reactions: those of the first reaction,
    /// then those of the second, and so on.
    pub open spec fn flat_all(reactions: Seq<Reaction>) -> Seq<Message>
        decreases reactions,
    {
        if reactions.len() == 0 {
            Seq::empty()
        } else {
            Reaction::flat_all(reactions.drop_last()) + reactions.last().flat()
        }
    }

    /// The number of nodes in a reaction.
    spec fn weight(self) -> nat
        decreases self,
    {
        match self {
            Reaction::Nothing => 1,
            Reaction::RawMsg(_) => 1,
            Reaction::Multi(reactions) => 1 + Reaction::weight_all(reactions@),
        }
    }

    spec fn weight_all(reactions: Seq<Reaction>) -> nat
        decreases reactions,
    {
        if reactions.len() == 0 {
            0
        } else {
            Reaction::weight_all(reactions.drop_last()) + reactions.last().weight()
        }
    }

    /// The messages still owed by a work stack whose top is its last item.
    spec fn pending(stack: Seq<Reaction>) -> Seq<Message>
        decreases stack.len(),
    {
        if stack.len() == 0 {
            Seq::empty()
        } else {
            stack.last().flat() + Reaction::pending(stack.drop_last())
        }
    }

    /// Flattens the reaction into the messages it asks for, in order.
    ///
    /// Works through an explicit stack, so that a deeply nested reaction
    /// cannot exhaust the call stack.
    pub fn flatten(self) -> (messages: Vec<Message>)
        ensures
            messages@ == self.flat(),
    {
        let ghost whole = self.flat();
        let mut messages: Vec<Message> = Vec::new();
        let mut stack: Vec<Reaction> = Vec::new();
        stack.push(self);
        assert(Reaction::pending(stack@.drop_last()) =~= Seq::<Message>::empty());
        while stack.len() > 0
            invariant
                messages@ + Reaction::pending(stack@) == whole,
            decreases Reaction::weight_all(stack@),
        {
            let ghost before = stack@;
            let top = stack.pop().unwrap();
            assert(Reaction::weight_all(before) == Reaction::weight_all(stack@) + top.weight());
            match top {
                Reaction::Nothing => {},
                Reaction::RawMsg(message) => {
                    messages.push(message);
                },
                Reaction::Multi(children) => {
                    let ghost rest = stack@;
                    let ghost all = children@;
                    let mut children = children;
                    while children.len() > 0
                        invariant
                            Reaction::flat_all(children@) + Reaction::pending(stack@)
                                == Reaction::flat_all(all) + Reaction::pending(rest),
                            Reaction::weight_all(children@) + Reaction::weight_all(stack@)
                                == Reaction::weight_all(all) + Reaction::weight_all(rest),
                        decreases children.len(),
                    {
                        let ghost left = children@;
                        let ghost under = stack@;
                        let child = children.pop().unwrap();
                        stack.push(child);
                        assert(stack@.drop_last() =~= under);
                        assert(Reaction::flat_all(left) + Reaction::pending(under)
                            =~= Reaction::flat_all(children@) + Reaction::pending(stack@));
                    }
                },
            }
        }
        messages
    }
}

/// The outcomes of several batches of sends, batch after batch.
pub open spec fn joined(batches: Seq<Seq<SendOutcome>>) -> Seq<SendOutcome>
    decreases batches.len(),
{
    if batches.len() == 0 {
        Seq::empty()
    } else {
        joined(batches.drop_last()) + batches.last()
    }
}

/// The outbound state after `reactions` were carried out one after the
/// other, each as if it had been returned alone, where carrying out the
/// `k`-th ended in the outcomes `outcomes[k]`.
pub open spec fn after_reactions(
    start: Outbound,
    reactions: Seq<Reaction>,
    outcomes: Seq<Seq<SendOutcome>>,
) -> Outbound
    decreases reactions.len(),
{
    if reactions.len() == 0 {
        start
    } else {
        after_reactions(start, reactions.drop_last(), outcomes.drop_last()).after_sends(
            reactions.last().flat(),
            outcomes.last(),
        )
    }
}

/// Flattening keeps the order of a list: the messages of a list of
/// reactions followed by another list are those of the first list followed
/// by those of the second.
pub proof fn lemma_flat_all_concat(first: Seq<Reaction>, second: Seq<Reaction>)
    ensures
        Reaction::flat_all(first + second) == Reaction::flat_all(first) + Reaction::flat_all(
            second,
        ),
    decreases second.len(),
{
    if second.len() > 0 {
        lemma_flat_all_concat(first, second.drop_last());
        assert((first + second).drop_last() =~= first + second.drop_last());
        assert(Reaction::flat_all(first + second) =~= Reaction::flat_all(first)
            + Reaction::flat_all(second));
    }
}

/// A list of one reaction asks for what that reaction asks for.
pub proof fn lemma_flat_all_single(reaction: Reaction)
    ensures
        Reaction::flat_all(seq![reaction]) == reaction.flat(),
{
    let single = seq![reaction];
    assert(Reaction::flat_all(single.drop_last()) =~= Seq::<Message>::empty());
}

/// Carrying out a list of reactions in one go is carrying them out one
/// after the other.
proof fn lemma_list_is_sequence(
    start: Outbound,
    reactions: Seq<Reaction>,
    outcomes: Seq<Seq<SendOutcome>>,
)
    requires
        outcomes.len() == reactions.len(),
        forall|k: int|
            0 <= k < reactions.len() ==> (#[trigger] outcomes[k]).len()
                == reactions[k].flat().len(),
    ensures
        joined(outcomes).len() == Reaction::flat_all(reactions).len(),
        start.after_sends(Reaction::flat_all(reactions), joined(outcomes)) == after_reactions(
            start,
            reactions,
            outcomes,
        ),
    decreases reactions.len(),
{
    if reactions.len() > 0 {
        let earlier = reactions.drop_last();
        let earlier_outcomes = outcomes.drop_last();
        lemma_list_is_sequence(start, earlier, earlier_outcomes);
        lemma_after_sends_concat(
            start,
            Reaction::flat_all(earlier),
            joined(earlier_outcomes),
            reactions.last().flat(),
            outcomes.last(),
        );
    }
}

/// A list reaction is equivalent to its elements in sequence.
///
/// Take a list reaction and, for each element, as many outcomes as the
/// element asks for messages.  Sending the messages of the flattened list
/// with all those outcomes in a row leads to the same outbound state as
/// carrying out the elements one after the other, each as if it had been
/// returned alone, with its own outcomes.
pub proof fn lemma_multi_is_sequence(
    start: Outbound,
    reactions: Vec<Reaction>,
    outcomes: Seq<Seq<SendOutcome>>,
)
    requires
        outcomes.len() == reactions@.len(),
        forall|k: int|
            0 <= k < reactions@.len() ==> (#[trigger] outcomes[k]).len()
                == reactions@[k].flat().len(),
    ensures
        joined(outcomes).len() == Reaction::Multi(reactions).flat().len(),
        start.after_sends(Reaction::Multi(reactions).flat(), joined(outcomes)) == after_reactions(
            start,
            reactions@,
            outcomes,
        ),
{
    lemma_list_is_sequence(start, reactions@, outcomes);
}

} // verus!
