//! The automatic answer to the protocol's liveness probe.

use vstd::prelude::*;
use vstd::std_specs::iter::IteratorSpec;
use crate::error::{Error, ParseErrorKind};
use crate::message::{parse_result, Message};

verus! {

/// The command of a keepalive probe.
pub open spec fn probe_command() -> Seq<char> {
    seq!['P', 'I', 'N', 'G']
}

/// The character that marks a probe.
pub const PROBE_MARKER: char = 'I';

/// The character that takes the marker's place in the reply.
pub const REPLY_MARKER: char = 'O';

/// `index` is where `wanted` first occurs in `text`.
pub open spec fn first_at(text: Seq<char>, wanted: char, index: int) -> bool {
    &&& 0 <= index < text.len()
    &&& text[index] == wanted
    &&& forall|j: int| 0 <= j < index ==> text[j] != wanted
}

/// `text` with the first occurrence of `from` rewritten to `to`; `text`
/// itself where `from` does not occur.
pub open spec fn replace_first(text: Seq<char>, from: char, to: char) -> Seq<char> {
    if exists|index: int| first_at(text, from, index) {
        text.update(choose|index: int| first_at(text, from, index), to)
    } else {
        text
    }
}

/// The first occurrence of a character is unique.
pub proof fn lemma_first_at_unique(text: Seq<char>, wanted: char, a: int, b: int)
    requires
        first_at(text, wanted, a),
        first_at(text, wanted, b),
    ensures
        a == b,
{
    if a < b {
    } else if b < a {
    }
}

/// Finds the first occurrence of `wanted` in `text`, counted in characters.
pub fn find_first(text: &str, wanted: char) -> (found: Option<usize>)
    ensures
        match found {
            Some(index) => first_at(text@, wanted, index as int),
            None => forall|j: int| 0 <= j < text@.len() ==> text@[j] != wanted,
        },
{
    let length = text.unicode_len();
    let mut position: usize = 0;
    let mut rest = text.chars();
    loop
        invariant
            length == text@.len(),
            position <= length,
            rest.remaining() == text@.skip(position as int),
            forall|j: int| 0 <= j < position ==> text@[j] != wanted,
        decreases length - position,
    {
        match rest.next() {
            Some(c) => {
                if c == wanted {
                    return Some(position);
                }
                position = position + 1;
            },
            None => {
                return None;
            },
        }
    }
}

/// Compares two texts character by character.
pub fn same_text(a: &str, b: &str) -> (same: bool)
    ensures
        same == (a@ == b@),
{
    let mut left = a.chars();
    let mut right = b.chars();
    let ghost mut position: int = 0;
    loop
        invariant
            0 <= position <= a@.len(),
            position <= b@.len(),
            left.remaining() == a@.skip(position),
            right.remaining() == b@.skip(position),
            forall|j: int| 0 <= j < position ==> a@[j] == b@[j],
        decreases a@.len() - position,
    {
        let x = left.next();
        let y = right.next();
        match (x, y) {
            (Some(c), Some(d)) => {
                if c != d {
                    return false;
                }
                proof {
                    position = position + 1;
                }
            },
            (None, None) => {
                assert(a@ =~= b@);
                return true;
            },
            (Some(_), None) => {
                return false;
            },
            (None, Some(_)) => {
                return false;
            },
        }
    }
}

/// Derives the text of the reply from the text of a probe: the first probe
/// marker becomes the reply marker, and nothing else changes.
pub fn reply_text(request: &str) -> (reply: String)
    ensures
        reply@ == replace_first(request@, PROBE_MARKER, REPLY_MARKER),
{
    match find_first(request, PROBE_MARKER) {
        Some(index) => {
            let length = request.unicode_len();
            let head = request.substring_char(0, index);
            let tail = request.substring_char(index + 1, length);
            proof {
                reveal_strlit("O");
            }
            let reply = String::from_str(head).concat("O").concat(tail);
            proof {
                let chosen = choose|i: int| first_at(request@, PROBE_MARKER, i);
                lemma_first_at_unique(request@, PROBE_MARKER, chosen, index as int);
            }
            reply
        },
        None => {
            String::from_str(request)
        },
    }
}

/// A line is a keepalive probe when the parser finds the probe command in
/// it.
pub open spec fn is_probe(text: Seq<char>) -> bool {
    parse_result(text) == Ok::<Seq<char>, ParseErrorKind>(probe_command())
}

/// What the engine does with one result of a receive.
#[derive(Debug, PartialEq, Eq)]
pub enum Inbound {
    /// Nothing more can be received right now; the drain ends.
    Idle,
    /// A keepalive probe came in; this reply goes out and the handler is
    /// not called.
    Reply(Message),
    /// The handler is called with this input.
    Deliver(Result<Message, Error>),
}

/// The routing rule.
///
/// - No message, or a transient error: the drain ends.
/// - A keepalive probe: its reply text is the probe's text with the first
///   probe marker rewritten to the reply marker.  Where that text parses,
///   the reply goes out without the handler; where it does not, the handler
///   gets the parse error.
/// - Any other message and any other error: the handler gets it.
pub open spec fn routed(received: Result<Option<Message>, Error>, inbound: Inbound) -> bool {
    match received {
        Ok(None) => inbound == Inbound::Idle,
        Err(error) => if error.transient() {
            inbound == Inbound::Idle
        } else {
            inbound == Inbound::Deliver(Err(error))
        },
        Ok(Some(message)) => if is_probe(message@) {
            let reply = replace_first(message@, PROBE_MARKER, REPLY_MARKER);
            match parse_result(reply) {
                Ok(_) => inbound matches Inbound::Reply(pong) && pong@ == reply,
                Err(why) => inbound matches Inbound::Deliver(Err(Error::Parse { reason, raw }))
                    && reason == why && raw@ == reply,
            }
        } else {
            inbound == Inbound::Deliver(Ok(message))
        },
    }
}

/// Nothing received, nothing done: "no complete message yet" and a
/// transient error alike end the drain, and neither reaches the handler nor
/// sets off a reply.
pub proof fn lemma_nothing_received_is_idle(
    received: Result<Option<Message>, Error>,
    inbound: Inbound,
)
    requires
        routed(received, inbound),
        received == Ok::<Option<Message>, Error>(None) || (received matches Err(error)
            && error.transient()),
    ensures
        inbound == Inbound::Idle,
{
}

/// The keepalive round trip: a probe whose reply text parses is answered
/// with that text, which is the probe's text with its first probe marker
/// rewritten to the reply marker, and the handler is left out of it.
pub proof fn lemma_probe_is_answered(probe: Message, inbound: Inbound)
    requires
        is_probe(probe@),
        parse_result(replace_first(probe@, PROBE_MARKER, REPLY_MARKER)) is Ok,
        routed(Ok(Some(probe)), inbound),
    ensures
        inbound matches Inbound::Reply(pong) && pong@ == replace_first(
            probe@,
            PROBE_MARKER,
            REPLY_MARKER,
        ),
{
}

/// The reply text differs from the probe's text in at most the first probe
/// marker: it is as long, and equal everywhere else.
pub proof fn lemma_reply_keeps_the_rest(text: Seq<char>, index: int)
    requires
        0 <= index < text.len(),
    ensures
        replace_first(text, PROBE_MARKER, REPLY_MARKER).len() == text.len(),
        replace_first(text, PROBE_MARKER, REPLY_MARKER)[index] == if first_at(
            text,
            PROBE_MARKER,
            index,
        ) {
            REPLY_MARKER
        } else {
            text[index]
        },
{
    if exists|i: int| first_at(text, PROBE_MARKER, i) {
        let chosen = choose|i: int| first_at(text, PROBE_MARKER, i);
        if first_at(text, PROBE_MARKER, index) {
            lemma_first_at_unique(text, PROBE_MARKER, chosen, index);
        }
    }
}

/// Decides what to do with one result of a receive.
pub fn route(received: Result<Option<Message>, Error>) -> (inbound: Inbound)
    ensures
        routed(received, inbound),
{
    match received {
        Ok(None) => Inbound::Idle,
        Err(error) => if error.is_transient() {
            Inbound::Idle
        } else {
            Inbound::Deliver(Err(error))
        },
        Ok(Some(message)) => {
            proof {
                reveal_strlit("PING");
                assert("PING"@ =~= probe_command());
            }
            if same_text(message.raw_command(), "PING") {
                match Message::parse(reply_text(message.raw_message())) {
                    Ok(pong) => Inbound::Reply(pong),
                    Err(error) => Inbound::Deliver(Err(error)),
                }
            } else {
                Inbound::Deliver(Ok(message))
            }
        },
    }
}

} // verus!
