//! A single-threaded engine for line-oriented chat protocol clients.
//!
//! The engine keeps a registry of sessions, each with an outbound queue and a
//! pessimistic "last known writable" flag, and reacts to readiness events by
//! flushing queued messages and draining inbound ones.  Everything here is
//! free of I/O: the transport is reached through the [`Connection`] trait and
//! readiness events are handed in by whoever runs the poll loop.

pub mod client;
pub mod error;
pub mod keepalive;
pub mod message;
pub mod outbound;
pub mod reaction;
pub mod session;
pub mod trace;

pub use client::{
    follow_ups, process_inbound, process_reaction, process_readable, process_writable, Client,
    DrainReport, EventReport, Handling, InboundReport, MessageContext, ReadyEvent, SessionEntry,
    SessionId,
};
pub use error::{Error, IoError, IoErrorKind, ParseErrorKind};
pub use message::Message;
pub use outbound::{Outbound, SendFailure, SendOutcome};
pub use reaction::Reaction;
pub use session::{Connection, Session};
pub use trace::Exchange;
