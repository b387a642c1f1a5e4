use irc_bot::{
    follow_ups, process_inbound, process_reaction, process_readable, process_writable, Client,
    Connection, DrainReport, Error, EventReport, Handling, InboundReport, IoError, IoErrorKind,
    Message, MessageContext, ParseErrorKind, Reaction, ReadyEvent, SendFailure, SendOutcome,
    Session, SessionEntry,
};
use irc_bot::keepalive::Inbound;
use std::cell::RefCell;
use std::collections::VecDeque;

/// A scripted transport.
#[derive(Default)]
struct Wire {
    inbound: VecDeque<Result<Option<String>, IoError>>,
    answers: VecDeque<Result<(), IoError>>,
    receives: usize,
    attempts: Vec<String>,
    sent: Vec<String>,
}

impl Wire {
    fn new() -> Wire {
        Wire::default()
    }

    fn receiving(lines: &[&str]) -> Wire {
        let mut wire = Wire::new();
        for line in lines {
            wire.inbound.push_back(Ok(Some((*line).to_owned())));
        }
        wire
    }

    fn answering(mut self, answers: Vec<Result<(), IoError>>) -> Wire {
        self.answers = answers.into();
        self
    }
}

impl Connection for Wire {
    fn recv_line(&mut self) -> Result<Option<String>, IoError> {
        self.receives += 1;
        self.inbound.pop_front().unwrap_or(Ok(None))
    }

    fn try_send_line(&mut self, line: &str) -> Result<(), IoError> {
        self.attempts.push(line.to_owned());
        let answer = self.answers.pop_front().unwrap_or(Ok(()));
        if answer.is_ok() {
            self.sent.push(line.to_owned());
        }
        answer
    }
}

fn message(text: &str) -> Message {
    Message::parse(text.to_owned()).unwrap()
}

fn one(text: &str) -> Reaction {
    Reaction::RawMsg(message(text))
}

fn failure(kind: IoErrorKind) -> IoError {
    IoError { kind, detail: "scripted".to_owned() }
}

fn refuse(kind: IoErrorKind) -> Result<(), IoError> {
    Err(failure(kind))
}

fn entry(wire: Wire) -> SessionEntry<Wire> {
    SessionEntry::new(Session::new(wire))
}

fn wire_of(entry: &SessionEntry<Wire>) -> &Wire {
    entry.session().connection()
}

fn quiet(_: &MessageContext, _: Result<Message, Error>) -> Reaction {
    Reaction::Nothing
}

/// The report of a drain that found nothing.
fn idle() -> DrainReport {
    DrainReport { handled: 0, faults: 0, keepalives: 0, outcomes: Vec::new(), exhausted: false }
}

/// An entry whose queue holds `texts`: the first was blocked by the wire,
/// the others queued behind it.  The wire goes on with `answers`.
fn backlog(texts: &[&str], answers: Vec<Result<(), IoError>>) -> SessionEntry<Wire> {
    let mut blocked = Vec::new();
    if !texts.is_empty() {
        blocked.push(refuse(IoErrorKind::WouldBlock));
    }
    blocked.extend(answers);
    let mut entry = entry(Wire::new().answering(blocked));
    for text in texts {
        assert_eq!(entry.send(message(text)), SendOutcome::Blocked);
    }
    entry
}

fn texts(queue: &Vec<Message>) -> Vec<String> {
    queue.iter().map(|message| message.raw_message().to_owned()).collect()
}

#[test]
fn new_client_has_no_sessions() {
    let client: Client<Wire> = Client::new();
    assert_eq!(client.len(), 0);
    assert!(client.entry(0).is_none());
}

#[test]
fn register_assigns_increasing_slots() {
    let mut client = Client::new();
    let first = client.add_session(Session::new(Wire::new()));
    let second = client.add_session(Session::new(Wire::new()));
    let third = client.add_session(Session::new(Wire::new()));
    assert_eq!(first.index(), 0);
    assert_eq!(second.index(), 1);
    assert_eq!(third.index(), 2);
    assert_eq!(client.len(), 3);
    assert_ne!(first, second);
}

#[test]
fn registered_session_starts_empty_and_not_writable() {
    let mut client = Client::new();
    let id = client.add_session(Session::new(Wire::new()));
    let entry = client.entry(id.index()).unwrap();
    assert!(entry.queue().is_empty());
    assert!(!entry.is_writable());
    assert_eq!(wire_of(entry).receives, 0);
    assert!(wire_of(entry).attempts.is_empty());
}

#[test]
fn register_keeps_earlier_sessions() {
    let mut client = Client::new();
    let first = client.add_session(Session::new(Wire::receiving(&["NOTICE a"])));
    client.add_session(Session::new(Wire::new()));
    let entry = client.entry(first.index()).unwrap();
    assert_eq!(wire_of(entry).inbound.len(), 1);
    assert!(client.entry(2).is_none());
}

#[test]
fn send_success_changes_nothing() {
    let mut entry = entry(Wire::new());
    assert_eq!(entry.send(message("NICK bot")), SendOutcome::Sent);
    assert!(entry.queue().is_empty());
    assert!(!entry.is_writable());
    assert_eq!(wire_of(&entry).sent, vec!["NICK bot"]);
}

#[test]
fn send_success_keeps_the_flag() {
    let mut entry = entry(Wire::new());
    entry.mark_writable();
    assert_eq!(entry.send(message("NICK bot")), SendOutcome::Sent);
    assert!(entry.is_writable());
}

#[test]
fn send_would_block_queues_and_clears_flag() {
    let mut entry = entry(Wire::new().answering(vec![refuse(IoErrorKind::WouldBlock)]));
    entry.mark_writable();
    assert_eq!(entry.send(message("NICK bot")), SendOutcome::Blocked);
    assert_eq!(texts(entry.queue()), vec!["NICK bot"]);
    assert!(!entry.is_writable());
    assert!(wire_of(&entry).sent.is_empty());
}

#[test]
fn send_timed_out_queues_and_clears_flag() {
    let mut entry = entry(Wire::new().answering(vec![refuse(IoErrorKind::TimedOut)]));
    entry.mark_writable();
    assert_eq!(entry.send(message("NICK bot")), SendOutcome::Blocked);
    assert_eq!(texts(entry.queue()), vec!["NICK bot"]);
    assert!(!entry.is_writable());
}

#[test]
fn send_failure_drops_the_message_and_reports_it() {
    let mut entry = entry(Wire::new().answering(vec![refuse(IoErrorKind::BrokenPipe)]));
    entry.mark_writable();
    assert_eq!(
        entry.send(message("NICK bot")),
        SendOutcome::Failed(SendFailure {
            message: message("NICK bot"),
            error: Error::Io(failure(IoErrorKind::BrokenPipe)),
        })
    );
    assert!(entry.queue().is_empty());
    assert!(entry.is_writable());
    assert!(wire_of(&entry).sent.is_empty());
}

#[test]
fn send_queues_behind_earlier_messages() {
    let entry = backlog(&["A", "B", "C"], vec![]);
    assert_eq!(texts(entry.queue()), vec!["A", "B", "C"]);
    assert!(!entry.is_writable());
    assert_eq!(wire_of(&entry).attempts, vec!["A"]);
}

#[test]
fn send_behind_a_backlog_makes_no_call() {
    let mut entry = backlog(&["A"], vec![]);
    assert_eq!(entry.send(message("B")), SendOutcome::Blocked);
    assert_eq!(texts(entry.queue()), vec!["A", "B"]);
    assert!(!entry.is_writable());
    assert_eq!(wire_of(&entry).attempts, vec!["A"]);
    assert!(wire_of(&entry).sent.is_empty());
}

#[test]
fn send_behind_a_backlog_clears_the_flag() {
    let mut entry = backlog(&["A"], vec![]);
    entry.mark_writable();
    assert_eq!(entry.send(message("B")), SendOutcome::Blocked);
    assert!(!entry.is_writable());
}

#[test]
fn new_message_never_overtakes_queued_ones() {
    let mut entry = backlog(&["A", "B"], vec![]);
    assert_eq!(process_reaction(&mut entry, one("C")), vec![SendOutcome::Blocked]);
    assert!(wire_of(&entry).sent.is_empty());
    entry.mark_writable();
    assert_eq!(
        process_writable(&mut entry),
        vec![SendOutcome::Sent, SendOutcome::Sent, SendOutcome::Sent]
    );
    assert_eq!(wire_of(&entry).sent, vec!["A", "B", "C"]);
    assert_eq!(entry.send(message("D")), SendOutcome::Sent);
    assert_eq!(wire_of(&entry).sent, vec!["A", "B", "C", "D"]);
    assert!(entry.queue().is_empty());
}

#[test]
fn send_tries_again_once_the_queue_is_empty() {
    let mut entry = backlog(&["A"], vec![Ok(()), refuse(IoErrorKind::TimedOut)]);
    entry.mark_writable();
    assert_eq!(process_writable(&mut entry), vec![SendOutcome::Sent]);
    assert_eq!(entry.send(message("B")), SendOutcome::Blocked);
    assert_eq!(texts(entry.queue()), vec!["B"]);
    assert_eq!(wire_of(&entry).attempts, vec!["A", "A", "B"]);
}

#[test]
fn settle_follows_the_answer() {
    let mut entry = entry(Wire::new());
    assert_eq!(entry.settle(message("A"), Ok(())), SendOutcome::Sent);
    assert!(entry.queue().is_empty());
    let blocked = Err(Error::Io(failure(IoErrorKind::WouldBlock)));
    assert_eq!(entry.settle(message("B"), blocked), SendOutcome::Blocked);
    assert_eq!(texts(entry.queue()), vec!["B"]);
    let lost = Error::Io(failure(IoErrorKind::ConnectionReset));
    assert_eq!(
        entry.settle(message("C"), Err(lost.clone())),
        SendOutcome::Failed(SendFailure { message: message("C"), error: lost })
    );
    assert_eq!(texts(entry.queue()), vec!["B"]);
    assert!(wire_of(&entry).attempts.is_empty());
}

#[test]
fn classify_follows_the_answer() {
    let hello = message("PRIVMSG #a :hello");
    assert_eq!(SendOutcome::classify(&hello, Ok(())), SendOutcome::Sent);
    assert_eq!(
        SendOutcome::classify(&hello, Err(Error::Io(failure(IoErrorKind::TimedOut)))),
        SendOutcome::Blocked
    );
    let lost = Error::Io(failure(IoErrorKind::UnexpectedEof));
    assert_eq!(
        SendOutcome::classify(&hello, Err(lost.clone())),
        SendOutcome::Failed(SendFailure { message: hello.clone(), error: lost })
    );
    assert!(SendOutcome::Blocked.is_blocked());
    assert!(!SendOutcome::Sent.is_blocked());
}

#[test]
fn flush_of_empty_queue_attempts_nothing() {
    let mut entry = entry(Wire::new());
    entry.mark_writable();
    assert_eq!(process_writable(&mut entry), Vec::<SendOutcome>::new());
    assert!(entry.is_writable());
    assert!(wire_of(&entry).attempts.is_empty());
}

#[test]
fn flush_sends_the_queue_in_order() {
    let mut entry = backlog(&["A", "B", "C"], vec![]);
    entry.mark_writable();
    assert_eq!(
        process_writable(&mut entry),
        vec![SendOutcome::Sent, SendOutcome::Sent, SendOutcome::Sent]
    );
    assert!(entry.queue().is_empty());
    assert!(entry.is_writable());
    assert_eq!(wire_of(&entry).sent, vec!["A", "B", "C"]);
}

#[test]
fn flush_after_repeated_backpressure_delivers_everything_once() {
    let mut entry = backlog(
        &["A", "B", "C"],
        vec![
            refuse(IoErrorKind::WouldBlock),
            refuse(IoErrorKind::TimedOut),
            refuse(IoErrorKind::WouldBlock),
        ],
    );
    for _ in 0..3 {
        entry.mark_writable();
        assert_eq!(process_writable(&mut entry), vec![SendOutcome::Blocked]);
        assert_eq!(texts(entry.queue()), vec!["A", "B", "C"]);
        assert!(!entry.is_writable());
        assert!(wire_of(&entry).sent.is_empty());
    }
    entry.mark_writable();
    assert_eq!(
        process_writable(&mut entry),
        vec![SendOutcome::Sent, SendOutcome::Sent, SendOutcome::Sent]
    );
    assert!(entry.queue().is_empty());
    assert_eq!(wire_of(&entry).sent, vec!["A", "B", "C"]);
}

#[test]
fn flush_in_parts_keeps_order() {
    let mut entry = backlog(
        &["A", "B", "C", "D"],
        vec![
            Ok(()),
            refuse(IoErrorKind::WouldBlock),
            Ok(()),
            Ok(()),
            refuse(IoErrorKind::TimedOut),
        ],
    );
    entry.mark_writable();
    assert_eq!(process_writable(&mut entry), vec![SendOutcome::Sent, SendOutcome::Blocked]);
    assert_eq!(texts(entry.queue()), vec!["B", "C", "D"]);
    entry.mark_writable();
    assert_eq!(
        process_writable(&mut entry),
        vec![SendOutcome::Sent, SendOutcome::Sent, SendOutcome::Blocked]
    );
    assert_eq!(texts(entry.queue()), vec!["D"]);
    entry.mark_writable();
    assert_eq!(process_writable(&mut entry), vec![SendOutcome::Sent]);
    assert!(entry.queue().is_empty());
    assert_eq!(wire_of(&entry).sent, vec!["A", "B", "C", "D"]);
}

#[test]
fn flush_stops_at_the_blocked_message() {
    let mut entry =
        backlog(&["A", "B", "C", "D"], vec![Ok(()), Ok(()), refuse(IoErrorKind::WouldBlock)]);
    entry.mark_writable();
    assert_eq!(
        process_writable(&mut entry),
        vec![SendOutcome::Sent, SendOutcome::Sent, SendOutcome::Blocked]
    );
    assert_eq!(texts(entry.queue()), vec!["C", "D"]);
    assert!(!entry.is_writable());
    assert_eq!(wire_of(&entry).sent, vec!["A", "B"]);
    assert_eq!(wire_of(&entry).attempts, vec!["A", "A", "B", "C"]);
}

#[test]
fn flush_blocked_at_the_first_message_keeps_the_queue() {
    let mut entry = backlog(&["A", "B"], vec![refuse(IoErrorKind::WouldBlock)]);
    entry.mark_writable();
    assert_eq!(process_writable(&mut entry), vec![SendOutcome::Blocked]);
    assert_eq!(texts(entry.queue()), vec!["A", "B"]);
    assert!(!entry.is_writable());
}

#[test]
fn flush_blocked_at_the_last_message_keeps_it() {
    let mut entry = backlog(&["A", "B"], vec![Ok(()), refuse(IoErrorKind::TimedOut)]);
    entry.mark_writable();
    assert_eq!(process_writable(&mut entry), vec![SendOutcome::Sent, SendOutcome::Blocked]);
    assert_eq!(texts(entry.queue()), vec!["B"]);
    assert!(!entry.is_writable());
}

#[test]
fn flush_drops_a_failed_message_and_goes_on() {
    let mut entry = backlog(&["M1", "M2"], vec![refuse(IoErrorKind::ConnectionReset), Ok(())]);
    entry.mark_writable();
    assert_eq!(
        process_writable(&mut entry),
        vec![
            SendOutcome::Failed(SendFailure {
                message: message("M1"),
                error: Error::Io(failure(IoErrorKind::ConnectionReset)),
            }),
            SendOutcome::Sent,
        ]
    );
    assert!(entry.queue().is_empty());
    assert!(entry.is_writable());
    assert_eq!(wire_of(&entry).sent, vec!["M2"]);
}

#[test]
fn flush_works_without_the_flag_and_leaves_it_cleared() {
    let mut entry = backlog(&["A"], vec![]);
    assert_eq!(process_writable(&mut entry), vec![SendOutcome::Sent]);
    assert!(entry.queue().is_empty());
    assert!(!entry.is_writable());
}

#[test]
fn reaction_nothing_sends_nothing() {
    let mut entry = entry(Wire::new());
    assert_eq!(process_reaction(&mut entry, Reaction::Nothing), Vec::<SendOutcome>::new());
    assert!(wire_of(&entry).attempts.is_empty());
}

#[test]
fn reaction_list_is_sent_in_order() {
    let mut entry = entry(Wire::new());
    let reaction = Reaction::Multi(vec![
        one("A"),
        Reaction::Multi(vec![one("B"), Reaction::Nothing, one("C")]),
        one("D"),
    ]);
    assert_eq!(
        process_reaction(&mut entry, reaction),
        vec![SendOutcome::Sent, SendOutcome::Sent, SendOutcome::Sent, SendOutcome::Sent]
    );
    assert_eq!(wire_of(&entry).sent, vec!["A", "B", "C", "D"]);
    assert!(entry.queue().is_empty());
}

#[test]
fn reaction_list_equals_its_elements_in_sequence() {
    let answers = || {
        vec![
            Ok(()),
            refuse(IoErrorKind::BrokenPipe),
            refuse(IoErrorKind::WouldBlock),
            Ok(()),
            refuse(IoErrorKind::TimedOut),
        ]
    };
    let elements = || {
        vec![
            Reaction::Multi(vec![one("A"), one("B")]),
            one("C"),
            Reaction::Nothing,
            Reaction::Multi(vec![one("D"), Reaction::Multi(vec![one("E")])]),
        ]
    };

    let mut whole = entry(Wire::new().answering(answers()));
    whole.mark_writable();
    let outcomes = process_reaction(&mut whole, Reaction::Multi(elements()));

    let mut parts = entry(Wire::new().answering(answers()));
    parts.mark_writable();
    let mut outcomes_of_parts = Vec::new();
    for element in elements() {
        outcomes_of_parts.extend(process_reaction(&mut parts, element));
    }

    assert_eq!(outcomes, outcomes_of_parts);
    assert_eq!(
        outcomes,
        vec![
            SendOutcome::Sent,
            SendOutcome::Failed(SendFailure {
                message: message("B"),
                error: Error::Io(failure(IoErrorKind::BrokenPipe)),
            }),
            SendOutcome::Blocked,
            SendOutcome::Blocked,
            SendOutcome::Blocked,
        ]
    );
    assert_eq!(whole.queue(), parts.queue());
    assert_eq!(texts(whole.queue()), vec!["C", "D", "E"]);
    assert_eq!(whole.is_writable(), parts.is_writable());
    assert!(!whole.is_writable());
    assert_eq!(wire_of(&whole).attempts, wire_of(&parts).attempts);
    assert_eq!(wire_of(&whole).attempts, vec!["A", "B", "C"]);
    assert_eq!(wire_of(&whole).sent, vec!["A"]);
}

#[test]
fn reaction_waits_behind_a_backlog() {
    let mut entry = backlog(&["A"], vec![]);
    let reaction = Reaction::Multi(vec![one("B"), one("C")]);
    assert_eq!(
        process_reaction(&mut entry, reaction),
        vec![SendOutcome::Blocked, SendOutcome::Blocked]
    );
    assert_eq!(texts(entry.queue()), vec!["A", "B", "C"]);
    assert_eq!(wire_of(&entry).attempts, vec!["A"]);
    assert!(wire_of(&entry).sent.is_empty());
}

#[test]
fn reaction_stops_calling_once_a_message_is_blocked() {
    let mut entry = entry(Wire::new().answering(vec![Ok(()), refuse(IoErrorKind::WouldBlock)]));
    let reaction = Reaction::Multi(vec![one("A"), one("B"), one("C")]);
    assert_eq!(
        process_reaction(&mut entry, reaction),
        vec![SendOutcome::Sent, SendOutcome::Blocked, SendOutcome::Blocked]
    );
    assert_eq!(texts(entry.queue()), vec!["B", "C"]);
    assert_eq!(wire_of(&entry).attempts, vec!["A", "B"]);
    assert_eq!(wire_of(&entry).sent, vec!["A"]);
}

#[test]
fn drain_without_input_is_a_noop_however_often() {
    let mut entry = backlog(&["A", "B"], vec![]);
    entry.mark_writable();
    let calls = RefCell::new(0);
    let handler = |_: &MessageContext, _: Result<Message, Error>| -> Reaction {
        *calls.borrow_mut() += 1;
        one("NOTICE x")
    };
    let attempts_before = wire_of(&entry).attempts.len();
    for _ in 0..5 {
        let report = process_readable(&mut entry, 0, &handler, 16);
        assert_eq!(
            report,
            idle()
        );
        assert_eq!(texts(entry.queue()), vec!["A", "B"]);
        assert!(entry.is_writable());
    }
    assert_eq!(*calls.borrow(), 0);
    assert_eq!(wire_of(&entry).attempts.len(), attempts_before);
    assert_eq!(wire_of(&entry).receives, 5);
}

#[test]
fn drain_ends_quietly_on_a_transient_error() {
    for kind in [IoErrorKind::WouldBlock, IoErrorKind::TimedOut] {
        let mut wire = Wire::new();
        wire.inbound.push_back(Err(failure(kind)));
        wire.inbound.push_back(Ok(Some("NOTICE late".to_owned())));
        let mut entry = entry(wire);
        let calls = RefCell::new(0);
        let handler = |_: &MessageContext, _: Result<Message, Error>| -> Reaction {
            *calls.borrow_mut() += 1;
            Reaction::Nothing
        };
        let report = process_readable(&mut entry, 0, &handler, 16);
        assert_eq!(
            report,
            idle()
        );
        assert_eq!(*calls.borrow(), 0);
        assert_eq!(wire_of(&entry).receives, 1);
        assert_eq!(wire_of(&entry).inbound.len(), 1);
    }
}

#[test]
fn drain_hands_messages_to_the_handler_in_order() {
    let mut entry = entry(Wire::receiving(&["NOTICE one", "NOTICE two", "NOTICE three"]));
    let seen = RefCell::new(Vec::new());
    let handler = |context: &MessageContext, input: Result<Message, Error>| -> Reaction {
        seen.borrow_mut().push((context.session_id().index(), input));
        Reaction::Nothing
    };
    let report = process_readable(&mut entry, 7, &handler, 16);
    assert_eq!(
        report,
        DrainReport { handled: 3, faults: 0, keepalives: 0, outcomes: Vec::new(), exhausted: false }
    );
    assert_eq!(
        *seen.borrow(),
        vec![
            (7, Ok(message("NOTICE one"))),
            (7, Ok(message("NOTICE two"))),
            (7, Ok(message("NOTICE three"))),
        ]
    );
    assert_eq!(wire_of(&entry).receives, 4);
}

#[test]
fn drain_carries_out_each_reaction_before_the_next_receive() {
    let mut entry = entry(Wire::receiving(&["PRIVMSG bot :a", "PRIVMSG bot :b"]));
    let handler = |_: &MessageContext, input: Result<Message, Error>| -> Reaction {
        let text = input.unwrap().raw_message().to_owned();
        Reaction::Multi(vec![one(&format!("NOTICE x :got {}", text)), one("NOTICE x :done")])
    };
    let report = process_readable(&mut entry, 0, &handler, 16);
    assert_eq!(report.handled, 2);
    assert_eq!(report.outcomes.len(), 4);
    assert_eq!(
        wire_of(&entry).sent,
        vec![
            "NOTICE x :got PRIVMSG bot :a",
            "NOTICE x :done",
            "NOTICE x :got PRIVMSG bot :b",
            "NOTICE x :done",
        ]
    );
}

#[test]
fn drain_hands_lasting_errors_to_the_handler_and_goes_on() {
    let mut wire = Wire::new();
    wire.inbound.push_back(Err(failure(IoErrorKind::ConnectionReset)));
    wire.inbound.push_back(Ok(Some(String::new())));
    wire.inbound.push_back(Ok(Some("@".to_owned())));
    wire.inbound.push_back(Ok(Some("NOTICE ok".to_owned())));
    let mut entry = entry(wire);
    let seen = RefCell::new(Vec::new());
    let handler = |_: &MessageContext, input: Result<Message, Error>| -> Reaction {
        seen.borrow_mut().push(input);
        Reaction::Nothing
    };
    let report = process_readable(&mut entry, 0, &handler, 16);
    assert_eq!(report.handled, 4);
    assert!(!report.exhausted);
    assert_eq!(
        *seen.borrow(),
        vec![
            Err(Error::Io(failure(IoErrorKind::ConnectionReset))),
            Err(Error::Parse { reason: ParseErrorKind::UnexpectedEnd, raw: String::new() }),
            Err(Error::Parse { reason: ParseErrorKind::UnexpectedEnd, raw: "@".to_owned() }),
            Ok(message("NOTICE ok")),
        ]
    );
}

#[test]
fn drain_stops_when_the_budget_is_spent() {
    let mut entry = entry(Wire::receiving(&["NOTICE 1", "NOTICE 2", "NOTICE 3"]));
    let report = process_readable(&mut entry, 0, &quiet, 2);
    assert_eq!(
        report,
        DrainReport { handled: 2, faults: 0, keepalives: 0, outcomes: Vec::new(), exhausted: true }
    );
    assert_eq!(wire_of(&entry).receives, 2);
    let report = process_readable(&mut entry, 0, &quiet, 2);
    assert_eq!(
        report,
        DrainReport { handled: 1, faults: 0, keepalives: 0, outcomes: Vec::new(), exhausted: false }
    );
}

#[test]
fn drain_without_budget_receives_nothing() {
    let mut entry = entry(Wire::receiving(&["NOTICE 1"]));
    let report = process_readable(&mut entry, 0, &quiet, 0);
    assert_eq!(
        report,
        DrainReport { handled: 0, faults: 0, keepalives: 0, outcomes: Vec::new(), exhausted: true }
    );
    assert_eq!(wire_of(&entry).receives, 0);
}

#[test]
fn drain_bounds_a_session_that_keeps_failing() {
    let mut wire = Wire::new();
    for _ in 0..100 {
        wire.inbound.push_back(Err(failure(IoErrorKind::ConnectionAborted)));
    }
    let mut entry = entry(wire);
    let report = process_readable(&mut entry, 0, &quiet, 10);
    assert_eq!(
        report,
        DrainReport {
            handled: 10,
            faults: 10,
            keepalives: 0,
            outcomes: Vec::new(),
            exhausted: true,
        }
    );
    assert!(!report.is_cut_short());
    assert_eq!(wire_of(&entry).receives, 10);
}

#[test]
fn broken_session_is_not_owed_another_turn() {
    let mut wire = Wire::new();
    for _ in 0..100 {
        wire.inbound.push_back(Err(failure(IoErrorKind::ConnectionReset)));
    }
    let mut client = Client::new();
    let id = client.add_session(Session::new(wire));
    let readable = ReadyEvent { token: id.index(), readable: true, writable: false };
    let report = client.handle_event(readable, &quiet, 8).unwrap();
    assert!(report.drained.as_ref().unwrap().exhausted);
    assert_eq!(report.follow_up(), None);
    assert!(follow_ups(&vec![Some(report)]).is_empty());
    assert_eq!(wire_of(client.entry(id.index()).unwrap()).receives, 8);
}

#[test]
fn session_with_one_good_line_among_faults_is_owed_another_turn() {
    let mut wire = Wire::new();
    wire.inbound.push_back(Err(failure(IoErrorKind::Other)));
    wire.inbound.push_back(Ok(Some("NOTICE a".to_owned())));
    wire.inbound.push_back(Err(failure(IoErrorKind::Other)));
    let mut entry = entry(wire);
    let report = process_readable(&mut entry, 0, &quiet, 2);
    assert_eq!(
        report,
        DrainReport { handled: 2, faults: 1, keepalives: 0, outcomes: Vec::new(), exhausted: true }
    );
    assert!(report.is_cut_short());
}

#[test]
fn parse_errors_do_not_count_as_faults() {
    let mut entry = entry(Wire::receiving(&["", ":x", ""]));
    let report = process_readable(&mut entry, 0, &quiet, 2);
    assert_eq!(
        report,
        DrainReport { handled: 2, faults: 0, keepalives: 0, outcomes: Vec::new(), exhausted: true }
    );
    assert!(report.is_cut_short());
}

#[test]
fn drain_that_went_idle_is_not_cut_short() {
    let mut entry = entry(Wire::receiving(&["NOTICE a"]));
    let report = process_readable(&mut entry, 0, &quiet, 2);
    assert!(!report.exhausted);
    assert!(!report.is_cut_short());
}

#[test]
fn keepalive_is_answered_without_the_handler() {
    let mut entry = entry(Wire::receiving(&["PING :irc.example.net"]));
    let calls = RefCell::new(0);
    let handler = |_: &MessageContext, _: Result<Message, Error>| -> Reaction {
        *calls.borrow_mut() += 1;
        Reaction::Nothing
    };
    let report = process_readable(&mut entry, 0, &handler, 16);
    assert_eq!(
        report,
        DrainReport {
            handled: 0,
            faults: 0,
            keepalives: 1,
            outcomes: vec![SendOutcome::Sent],
            exhausted: false
        }
    );
    assert_eq!(*calls.borrow(), 0);
    assert_eq!(wire_of(&entry).sent, vec!["PONG :irc.example.net"]);
}

#[test]
fn keepalive_reply_waits_in_the_queue_under_backpressure() {
    let wire = Wire::receiving(&["PING :abc"]).answering(vec![refuse(IoErrorKind::WouldBlock)]);
    let mut entry = entry(wire);
    entry.mark_writable();
    let report = process_readable(&mut entry, 0, &quiet, 16);
    assert_eq!(report.keepalives, 1);
    assert_eq!(report.outcomes, vec![SendOutcome::Blocked]);
    assert_eq!(texts(entry.queue()), vec!["PONG :abc"]);
    assert!(!entry.is_writable());
}

#[test]
fn keepalive_between_messages_keeps_its_place() {
    let mut entry = entry(Wire::receiving(&["NOTICE a", "PING :1", "NOTICE b"]));
    let handler = |_: &MessageContext, input: Result<Message, Error>| -> Reaction {
        Reaction::RawMsg(input.unwrap())
    };
    let report = process_readable(&mut entry, 0, &handler, 16);
    assert_eq!(report.handled, 2);
    assert_eq!(report.keepalives, 1);
    assert_eq!(wire_of(&entry).sent, vec!["NOTICE a", "PONG :1", "NOTICE b"]);
}

#[test]
fn process_inbound_deals_with_each_kind() {
    let mut entry = entry(Wire::new());
    let mut client = Client::new();
    let id = client.add_session(Session::new(Wire::new()));
    let context = MessageContext::new(id);
    assert_eq!(context.session_id(), id);

    let seen = RefCell::new(0);
    let echo = |_: &MessageContext, input: Result<Message, Error>| -> Reaction {
        *seen.borrow_mut() += 1;
        Reaction::RawMsg(input.unwrap())
    };

    assert_eq!(
        process_inbound(&mut entry, &context, &echo, Inbound::Idle),
        InboundReport { handling: Handling::Idle, outcomes: Vec::new() }
    );
    assert_eq!(*seen.borrow(), 0);
    assert!(wire_of(&entry).attempts.is_empty());

    assert_eq!(
        process_inbound(&mut entry, &context, &echo, Inbound::Reply(message("PONG :x"))),
        InboundReport { handling: Handling::Replied, outcomes: vec![SendOutcome::Sent] }
    );
    assert_eq!(*seen.borrow(), 0);
    assert_eq!(wire_of(&entry).sent, vec!["PONG :x"]);

    assert_eq!(
        process_inbound(&mut entry, &context, &echo, Inbound::Deliver(Ok(message("NOTICE y")))),
        InboundReport { handling: Handling::Handled, outcomes: vec![SendOutcome::Sent] }
    );
    assert_eq!(*seen.borrow(), 1);
    assert_eq!(wire_of(&entry).sent, vec!["PONG :x", "NOTICE y"]);

    let refusal = Error::Parse { reason: ParseErrorKind::TooLong, raw: "x".to_owned() };
    assert_eq!(
        process_inbound(&mut entry, &context, &quiet, Inbound::Deliver(Err(refusal))),
        InboundReport { handling: Handling::Handled, outcomes: Vec::new() }
    );
    let fault = Error::Io(failure(IoErrorKind::ConnectionReset));
    assert_eq!(
        process_inbound(&mut entry, &context, &quiet, Inbound::Deliver(Err(fault))),
        InboundReport { handling: Handling::Faulted, outcomes: Vec::new() }
    );
}

#[test]
fn session_decodes_what_the_connection_hands_out() {
    let mut wire = Wire::receiving(&["NOTICE a", ":broken"]);
    wire.inbound.push_back(Err(failure(IoErrorKind::UnexpectedEof)));
    let mut session = Session::new(wire);
    assert_eq!(session.recv(), Ok(Some(message("NOTICE a"))));
    assert_eq!(
        session.recv(),
        Err(Error::Parse { reason: ParseErrorKind::UnexpectedEnd, raw: ":broken".to_owned() })
    );
    assert_eq!(session.recv(), Err(Error::Io(failure(IoErrorKind::UnexpectedEof))));
    assert_eq!(session.recv(), Ok(None));
}

#[test]
fn session_sends_the_line_of_the_message() {
    let mut session = Session::new(Wire::new().answering(vec![Ok(()), refuse(IoErrorKind::Other)]));
    assert_eq!(session.try_send(&message("JOIN #rust")), Ok(()));
    assert_eq!(
        session.try_send(&message("PART #rust")),
        Err(Error::Io(failure(IoErrorKind::Other)))
    );
    assert_eq!(session.connection().attempts, vec!["JOIN #rust", "PART #rust"]);
    assert_eq!(session.connection().sent, vec!["JOIN #rust"]);
}

#[test]
fn sent_wraps_a_failure_as_an_io_error() {
    assert_eq!(irc_bot::session::sent(Ok(())), Ok(()));
    assert_eq!(
        irc_bot::session::sent(refuse(IoErrorKind::WouldBlock)),
        Err(Error::Io(failure(IoErrorKind::WouldBlock)))
    );
    assert_eq!(
        irc_bot::session::sent(refuse(IoErrorKind::BrokenPipe)),
        Err(Error::Io(failure(IoErrorKind::BrokenPipe)))
    );
}

#[test]
fn decode_follows_the_parser() {
    assert_eq!(irc_bot::session::decode(Ok(None)), Ok(None));
    assert_eq!(
        irc_bot::session::decode(Ok(Some("NOTICE a".to_owned()))),
        Ok(Some(message("NOTICE a")))
    );
    assert_eq!(
        irc_bot::session::decode(Err(failure(IoErrorKind::WouldBlock))),
        Err(Error::Io(failure(IoErrorKind::WouldBlock)))
    );
    let long = "x".repeat(600);
    assert_eq!(
        irc_bot::session::decode(Ok(Some(long.clone()))),
        Err(Error::Parse { reason: ParseErrorKind::TooLong, raw: long })
    );
}

#[test]
fn tokens_resolve_to_registered_sessions() {
    let mut client = Client::new();
    assert_eq!(client.resolve(0), None);
    let first = client.add_session(Session::new(Wire::new()));
    let second = client.add_session(Session::new(Wire::new()));
    assert_eq!(client.resolve(0), Some(first));
    assert_eq!(client.resolve(1), Some(second));
    assert_eq!(client.resolve(2), None);
}

#[test]
fn handler_learns_which_session_an_event_came_from() {
    let mut client = Client::new();
    client.add_session(Session::new(Wire::new()));
    let id = client.add_session(Session::new(Wire::receiving(&["NOTICE a"])));
    let origins = RefCell::new(Vec::new());
    let handler = |context: &MessageContext, _: Result<Message, Error>| -> Reaction {
        origins.borrow_mut().push(context.session_id());
        Reaction::Nothing
    };
    client.handle_event(
        ReadyEvent { token: id.index(), readable: true, writable: false },
        &handler,
        4,
    );
    assert_eq!(*origins.borrow(), vec![id]);
}

#[test]
fn event_for_a_free_slot_is_ignored() {
    let mut client = Client::new();
    client.add_session(Session::new(Wire::receiving(&["NOTICE a"])));
    let report =
        client.handle_event(ReadyEvent { token: 1, readable: true, writable: true }, &quiet, 16);
    assert_eq!(report, None);
    let entry = client.entry(0).unwrap();
    assert_eq!(wire_of(entry).receives, 0);
    assert!(!entry.is_writable());
}

#[test]
fn writable_event_sets_the_flag_and_flushes() {
    let mut client = Client::new();
    let id = client.add_session(Session::new(
        Wire::receiving(&["NOTICE a", "NOTICE b"])
            .answering(vec![refuse(IoErrorKind::WouldBlock)]),
    ));
    let echo = |_: &MessageContext, input: Result<Message, Error>| -> Reaction {
        Reaction::RawMsg(input.unwrap())
    };
    let readable = ReadyEvent { token: id.index(), readable: true, writable: false };
    let report = client.handle_event(readable, &echo, 16).unwrap();
    assert_eq!(report.flushed, None);
    assert_eq!(report.drained.unwrap().outcomes, vec![SendOutcome::Blocked, SendOutcome::Blocked]);
    assert_eq!(texts(client.entry(id.index()).unwrap().queue()), vec!["NOTICE a", "NOTICE b"]);

    let writable = ReadyEvent { token: id.index(), readable: false, writable: true };
    let report = client.handle_event(writable, &echo, 16).unwrap();
    assert_eq!(
        report,
        EventReport {
            token: id.index(),
            flushed: Some(vec![SendOutcome::Sent, SendOutcome::Sent]),
            drained: None,
        }
    );
    let entry = client.entry(id.index()).unwrap();
    assert!(entry.queue().is_empty());
    assert!(entry.is_writable());
    assert_eq!(wire_of(entry).sent, vec!["NOTICE a", "NOTICE b"]);
}

#[test]
fn readable_event_flushes_only_a_session_known_writable() {
    let mut client = Client::new();
    let id = client.add_session(Session::new(Wire::new()));
    let readable = ReadyEvent { token: id.index(), readable: true, writable: false };
    let report = client.handle_event(readable, &quiet, 16).unwrap();
    assert_eq!(report.flushed, None);
    let both = ReadyEvent { token: id.index(), readable: true, writable: true };
    let report = client.handle_event(both, &quiet, 16).unwrap();
    assert_eq!(report.flushed, Some(Vec::new()));
    let report = client.handle_event(readable, &quiet, 16).unwrap();
    assert_eq!(report.flushed, Some(Vec::new()));
    assert!(report.drained.is_some());
}

#[test]
fn event_flushes_before_it_drains() {
    let mut client = Client::new();
    let blocked = vec![refuse(IoErrorKind::WouldBlock)];
    let id =
        client.add_session(Session::new(Wire::receiving(&["NOTICE first"]).answering(blocked)));
    let echo = |_: &MessageContext, input: Result<Message, Error>| -> Reaction {
        Reaction::RawMsg(input.unwrap())
    };
    let readable = ReadyEvent { token: id.index(), readable: true, writable: false };
    client.handle_event(readable, &echo, 16);
    assert_eq!(texts(client.entry(id.index()).unwrap().queue()), vec!["NOTICE first"]);

    // Input that arrives together with writability is answered after the
    // backlog has gone out.
    let mut fresh = Client::new();
    let wire = Wire::receiving(&["NOTICE old", "NOTICE new"])
        .answering(vec![refuse(IoErrorKind::WouldBlock), Ok(()), Ok(())]);
    let id = fresh.add_session(Session::new(wire));
    let first = ReadyEvent { token: id.index(), readable: true, writable: false };
    let report = fresh.handle_event(first, &echo, 1).unwrap();
    assert_eq!(report.follow_up(), Some(first));
    let both = ReadyEvent { token: id.index(), readable: true, writable: true };
    let report = fresh.handle_event(both, &echo, 16).unwrap();
    assert_eq!(report.flushed, Some(vec![SendOutcome::Sent]));
    assert_eq!(report.drained.unwrap().outcomes, vec![SendOutcome::Sent]);
    assert_eq!(wire_of(fresh.entry(id.index()).unwrap()).sent, vec!["NOTICE old", "NOTICE new"]);
}

#[test]
fn one_session_reacts_and_the_other_is_untouched() {
    let mut client = Client::new();
    let a = client.add_session(Session::new(Wire::receiving(&["PRIVMSG bot :hi"])));
    let b = client.add_session(Session::new(Wire::new()));
    let handler = |context: &MessageContext, input: Result<Message, Error>| -> Reaction {
        assert_eq!(context.session_id().index(), 0);
        assert_eq!(input, Ok(message("PRIVMSG bot :hi")));
        one("PRIVMSG nick :X")
    };
    let events = vec![ReadyEvent { token: a.index(), readable: true, writable: true }];
    let reports = client.handle_events(&events, &handler, 16);
    assert_eq!(reports.len(), 1);
    assert_eq!(
        reports[0],
        Some(EventReport {
            token: 0,
            flushed: Some(Vec::new()),
            drained: Some(DrainReport {
                handled: 1,
                faults: 0,
                keepalives: 0,
                outcomes: vec![SendOutcome::Sent],
                exhausted: false,
            }),
        })
    );
    let entry_a = client.entry(a.index()).unwrap();
    assert!(entry_a.queue().is_empty());
    assert_eq!(wire_of(entry_a).sent, vec!["PRIVMSG nick :X"]);
    let entry_b = client.entry(b.index()).unwrap();
    assert!(entry_b.queue().is_empty());
    assert!(!entry_b.is_writable());
    assert_eq!(wire_of(entry_b).receives, 0);
    assert!(wire_of(entry_b).attempts.is_empty());
}

#[test]
fn one_session_queues_its_reaction_and_the_other_is_untouched() {
    let mut client = Client::new();
    let wire =
        Wire::receiving(&["PRIVMSG bot :hi"]).answering(vec![refuse(IoErrorKind::WouldBlock)]);
    let a = client.add_session(Session::new(wire));
    let b = client.add_session(Session::new(Wire::new()));
    let handler = |_: &MessageContext, _: Result<Message, Error>| -> Reaction {
        one("PRIVMSG nick :X")
    };
    let events = vec![ReadyEvent { token: a.index(), readable: true, writable: false }];
    let reports = client.handle_events(&events, &handler, 16);
    assert_eq!(
        reports[0].as_ref().unwrap().drained.as_ref().unwrap().outcomes,
        vec![SendOutcome::Blocked]
    );
    let entry_a = client.entry(a.index()).unwrap();
    assert_eq!(texts(entry_a.queue()), vec!["PRIVMSG nick :X"]);
    assert!(!entry_a.is_writable());
    assert!(wire_of(entry_a).sent.is_empty());
    let entry_b = client.entry(b.index()).unwrap();
    assert!(entry_b.queue().is_empty());
    assert!(!entry_b.is_writable());
    assert_eq!(wire_of(entry_b).receives, 0);
    assert!(wire_of(entry_b).attempts.is_empty());
}

#[test]
fn failed_send_is_reported_and_the_next_is_delivered() {
    let mut client = Client::new();
    let wire = Wire::receiving(&["NOTICE go"]).answering(vec![
        refuse(IoErrorKind::WouldBlock),
        refuse(IoErrorKind::BrokenPipe),
        Ok(()),
    ]);
    let id = client.add_session(Session::new(wire));
    let handler = |_: &MessageContext, _: Result<Message, Error>| -> Reaction {
        Reaction::Multi(vec![one("PRIVMSG a :M1"), one("PRIVMSG a :M2")])
    };
    let readable = ReadyEvent { token: id.index(), readable: true, writable: false };
    client.handle_event(readable, &handler, 16);
    assert_eq!(
        texts(client.entry(id.index()).unwrap().queue()),
        vec!["PRIVMSG a :M1", "PRIVMSG a :M2"]
    );

    let writable = ReadyEvent { token: id.index(), readable: false, writable: true };
    let report = client.handle_event(writable, &handler, 16).unwrap();
    assert_eq!(
        report.flushed,
        Some(vec![
            SendOutcome::Failed(SendFailure {
                message: message("PRIVMSG a :M1"),
                error: Error::Io(failure(IoErrorKind::BrokenPipe)),
            }),
            SendOutcome::Sent,
        ])
    );
    let entry = client.entry(id.index()).unwrap();
    assert!(entry.queue().is_empty());
    assert_eq!(wire_of(entry).sent, vec!["PRIVMSG a :M2"]);
}

#[test]
fn batch_is_handled_in_order() {
    let mut client = Client::new();
    let a = client.add_session(Session::new(Wire::receiving(&["NOTICE a1", "NOTICE a2"])));
    let b = client.add_session(Session::new(Wire::receiving(&["NOTICE b1"])));
    let order = RefCell::new(Vec::new());
    let handler = |context: &MessageContext, input: Result<Message, Error>| -> Reaction {
        let text = input.unwrap().raw_message().to_owned();
        order.borrow_mut().push((context.session_id().index(), text));
        Reaction::Nothing
    };
    let events = vec![
        ReadyEvent { token: b.index(), readable: true, writable: false },
        ReadyEvent { token: 5, readable: true, writable: true },
        ReadyEvent { token: a.index(), readable: true, writable: true },
    ];
    let reports = client.handle_events(&events, &handler, 16);
    assert_eq!(reports.len(), 3);
    assert_eq!(reports[0].as_ref().unwrap().token, 1);
    assert_eq!(reports[1], None);
    assert_eq!(reports[2].as_ref().unwrap().token, 0);
    assert_eq!(
        *order.borrow(),
        vec![
            (1, "NOTICE b1".to_owned()),
            (0, "NOTICE a1".to_owned()),
            (0, "NOTICE a2".to_owned()),
        ]
    );
    assert!(follow_ups(&reports).is_empty());
}

#[test]
fn empty_batch_does_nothing() {
    let mut client = Client::new();
    client.add_session(Session::new(Wire::receiving(&["NOTICE a"])));
    let reports = client.handle_events(&Vec::new(), &quiet, 16);
    assert!(reports.is_empty());
    assert_eq!(wire_of(client.entry(0).unwrap()).receives, 0);
}

#[test]
fn exhausted_drains_are_owed_another_turn() {
    let mut client = Client::new();
    let busy = Wire::receiving(&["NOTICE 1", "NOTICE 2", "NOTICE 3"]);
    let a = client.add_session(Session::new(busy));
    let b = client.add_session(Session::new(Wire::receiving(&["NOTICE 1"])));
    let c = client.add_session(Session::new(Wire::receiving(&["NOTICE 1", "NOTICE 2"])));
    let mut batch = vec![
        ReadyEvent { token: a.index(), readable: true, writable: true },
        ReadyEvent { token: b.index(), readable: true, writable: false },
        ReadyEvent { token: c.index(), readable: true, writable: false },
        ReadyEvent { token: 9, readable: true, writable: false },
    ];
    let reports = client.handle_events(&batch, &quiet, 2);
    batch = follow_ups(&reports);
    assert_eq!(
        batch,
        vec![
            ReadyEvent { token: a.index(), readable: true, writable: false },
            ReadyEvent { token: c.index(), readable: true, writable: false },
        ]
    );
    let reports = client.handle_events(&batch, &quiet, 2);
    assert!(follow_ups(&reports).is_empty());
    for slot in 0..3 {
        assert!(wire_of(client.entry(slot).unwrap()).inbound.is_empty());
    }
}

#[test]
fn follow_up_is_owed_only_after_exhaustion() {
    let spent = EventReport {
        token: 3,
        flushed: None,
        drained: Some(DrainReport {
            handled: 2,
            faults: 2,
            keepalives: 1,
            outcomes: Vec::new(),
            exhausted: true,
        }),
    };
    assert_eq!(
        spent.follow_up(),
        Some(ReadyEvent { token: 3, readable: true, writable: false })
    );
    let idle = EventReport {
        token: 3,
        flushed: Some(Vec::new()),
        drained: Some(DrainReport {
            handled: 2,
            faults: 0,
            keepalives: 0,
            outcomes: Vec::new(),
            exhausted: false,
        }),
    };
    assert_eq!(idle.follow_up(), None);
    let flushed_only = EventReport { token: 3, flushed: Some(Vec::new()), drained: None };
    assert_eq!(flushed_only.follow_up(), None);
}
