//! Protocol messages: lines that the wire parser accepts.

use vstd::prelude::*;
use crate::error::{Error, ParseErrorKind};

verus! {

/// What `pircolate`'s message parser makes of a line: the command of the
/// message it builds, or the reason it gives for refusing the line.
pub uninterp spec fn wire_parse(text: Seq<char>) -> Result<Seq<char>, ParseErrorKind>;

/// The text of a line that holds nothing but the marker that opens a tag
/// list.
pub open spec fn lone_tag_marker() -> Seq<char> {
    seq!['@']
}

/// What the library makes of a line.  A lone tag marker is refused as ending
/// too early; every other line is judged by the wire parser.
pub open spec fn parse_result(text: Seq<char>) -> Result<Seq<char>, ParseErrorKind> {
    if text == lone_tag_marker() {
        Err(ParseErrorKind::UnexpectedEnd)
    } else {
        wire_parse(text)
    }
}

/// Calls `<pircolate::Message as FromStr>::from_str` on `text` and, where it
/// succeeds, `pircolate::Message::raw_command` on the message.
///
/// Trusted: the parser's result depends on the text alone, so the command or
/// the kind of refusal that comes back is `wire_parse` of the text.  The
/// parser indexes past the end of a line that consists of a single `@`, so
/// that line is excluded.
#[verifier::external_body]
fn parse_line(text: &str) -> (r: Result<String, ParseErrorKind>)
    requires
        text@ != lone_tag_marker(),
    ensures
        match r {
            Ok(command) => wire_parse(text@) == Ok::<Seq<char>, ParseErrorKind>(command@),
            Err(kind) => wire_parse(text@) == Err::<Seq<char>, ParseErrorKind>(kind),
        },
{
    match text.parse::<pircolate::Message>() {
        Ok(message) => Ok(message.raw_command().to_owned()),
        Err(pircolate::error::Error(kind, _)) => match kind {
            pircolate::error::ErrorKind::UnexpectedEndOfInput => Err(ParseErrorKind::UnexpectedEnd),
            pircolate::error::ErrorKind::InputTooLong(_) => Err(ParseErrorKind::TooLong),
            _ => Err(ParseErrorKind::Other),
        },
    }
}

/// A protocol message: a line that the parser accepted, together with the
/// command the parser found in it.
#[derive(Debug, PartialEq, Eq)]
pub struct Message {
    raw: String,
    command: String,
}

impl View for Message {
    type V = Seq<char>;

    /// A message is modelled by the text of its line.
    closed spec fn view(&self) -> Seq<char> {
        self.raw@
    }
}

impl Message {
    #[verifier::type_invariant]
    spec fn well_formed(&self) -> bool {
        parse_result(self.raw@) == Ok::<Seq<char>, ParseErrorKind>(self.command@)
    }

    /// Parses a line, without its line terminator, into a message.
    ///
    /// Succeeds exactly on the lines for which `parse_result` gives a
    /// command; otherwise the error carries the reason and the line.
    pub fn parse(text: String) -> (r: Result<Message, Error>)
        ensures
            match r {
                Ok(message) => message@ == text@ && parse_result(text@) is Ok,
                Err(error) => error matches Error::Parse { reason, raw } && raw@ == text@
                    && parse_result(text@) == Err::<Seq<char>, ParseErrorKind>(reason),
            },
    {
        let line = text.as_str();
        if line.unicode_len() == 1 && line.get_char(0) == '@' {
            assert(text@ =~= lone_tag_marker());
            return Err(Error::Parse { reason: ParseErrorKind::UnexpectedEnd, raw: text });
        }
        match parse_line(line) {
            Ok(command) => Ok(Message { raw: text, command }),
            Err(reason) => Err(Error::Parse { reason, raw: text }),
        }
    }

    /// The line this message was parsed from.
    pub fn raw_message(&self) -> (text: &str)
        ensures
            text@ == self@,
    {
        self.raw.as_str()
    }

    /// The command of this message.
    pub fn raw_command(&self) -> (command: &str)
        ensures
            parse_result(self@) == Ok::<Seq<char>, ParseErrorKind>(command@),
    {
        proof {
            use_type_invariant(self);
        }
        self.command.as_str()
    }
}

impl Clone for Message {
    fn clone(&self) -> (copy: Self)
        ensures
            copy == *self,
    {
        proof {
            use_type_invariant(self);
        }
        Message { raw: self.raw.clone(), command: self.command.clone() }
    }
}

} // verus!
