//! Sessions: a message-level view over one transport connection.

use vstd::prelude::*;
use crate::error::{Error, IoError, ParseErrorKind};
use crate::message::{parse_result, Message};

verus! {

/// A non-blocking transport of text lines.
///
/// Plain and encrypted transports alike implement this trait; the engine
/// never looks behind it.  Neither method may block: an attempt that would
/// have to wait reports an I/O error of a transient kind instead.
pub trait Connection {
    /// Hands out the next complete line, without its terminator, or `None`
    /// when no complete line has arrived yet.
    fn recv_line(&mut self) -> Result<Option<String>, IoError>;

    /// Writes one line, to which the transport adds the terminator.
    fn try_send_line(&mut self, line: &str) -> Result<(), IoError>;
}

/// What a received line amounts to once it went through the parser: the
/// absence of a line and a transport error pass through unchanged, an
/// accepted line becomes a message, and a refused line becomes a parse error
/// that keeps the line.
pub open spec fn decoded(
    received: Result<Option<String>, IoError>,
    result: Result<Option<Message>, Error>,
) -> bool {
    match received {
        Ok(None) => result == Ok::<Option<Message>, Error>(None),
        Err(failure) => result == Err::<Option<Message>, Error>(Error::Io(failure)),
        Ok(Some(line)) => match parse_result(line@) {
            Ok(_) => result matches Ok(Some(message)) && message@ == line@,
            Err(why) => result matches Err(Error::Parse { reason, raw }) && reason == why && raw@
                == line@,
        },
    }
}

/// Turns what a connection handed out into what a session hands out.
pub fn decode(received: Result<Option<String>, IoError>) -> (result: Result<
    Option<Message>,
    Error,
>)
    ensures
        decoded(received, result),
{
    match received {
        Ok(None) => Ok(None),
        Err(failure) => Err(Error::Io(failure)),
        Ok(Some(line)) => match Message::parse(line) {
            Ok(message) => Ok(Some(message)),
            Err(error) => Err(error),
        },
    }
}

/// One framed, message-level view over a single connection.
pub struct Session<C: Connection> {
    connection: C,
}

impl<C: Connection> Session<C> {
    /// Wraps a connection.
    pub fn new(connection: C) -> (session: Self)
        ensures
            session.connection_view() == connection,
    {
        Session { connection }
    }

    /// The connection under this session.
    pub closed spec fn connection_view(&self) -> C {
        self.connection
    }

    /// The connection under this session.
    pub fn connection(&self) -> (connection: &C)
        ensures
            *connection == self.connection_view(),
    {
        &self.connection
    }

    /// Receives the next message, if a complete one has arrived.
    ///
    /// Asks the connection for a line once.  The result is what [`decode`]
    /// makes of the connection's answer.
    pub fn recv(&mut self) -> (result: Result<Option<Message>, Error>)
        ensures
            exists|wire: &mut C, received: Result<Option<String>, IoError>|
                *wire == old(self).connection_view()
                    && *final(wire) == final(self).connection_view()
                    && call_ensures(C::recv_line, (wire,), received)
                    && decoded(received, result),
    {
        decode(self.connection.recv_line())
    }

    /// Tries to write one message without blocking.
    ///
    /// Hands the line of the message to the connection once.  The result is
    /// [`sent`] of the connection's answer.
    pub fn try_send(&mut self, message: &Message) -> (result: Result<(), Error>)
        ensures
            exists|wire: &mut C, line: &str, answer: Result<(), IoError>|
                *wire == old(self).connection_view()
                    && *final(wire) == final(self).connection_view()
                    && line@ == message@
                    && call_ensures(C::try_send_line, (wire, line), answer)
                    && result == send_result(answer),
    {
        let answer = self.connection.try_send_line(message.raw_message());
        sent(answer)
    }
}

/// What a connection's answer to a send amounts to for the engine: success
/// stays success, and a failure becomes an I/O error.
pub open spec fn send_result(answer: Result<(), IoError>) -> Result<(), Error> {
    match answer {
        Ok(_) => Ok(()),
        Err(failure) => Err(Error::Io(failure)),
    }
}

/// Turns a connection's answer to a send into what a session answers.
pub fn sent(answer: Result<(), IoError>) -> (result: Result<(), Error>)
    ensures
        result == send_result(answer),
{
    match answer {
        Ok(_) => Ok(()),
        Err(failure) => Err(Error::Io(failure)),
    }
}

} // verus!
