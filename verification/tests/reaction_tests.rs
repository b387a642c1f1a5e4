use irc_bot::{Message, Reaction};

fn message(text: &str) -> Message {
    Message::parse(text.to_owned()).unwrap()
}

fn one(text: &str) -> Reaction {
    Reaction::RawMsg(message(text))
}

#[test]
fn flatten_nothing_is_empty() {
    assert_eq!(Reaction::Nothing.flatten(), Vec::<Message>::new());
}

#[test]
fn flatten_one_message_is_that_message() {
    assert_eq!(one("NICK bot").flatten(), vec![message("NICK bot")]);
}

#[test]
fn flatten_empty_list_is_empty() {
    assert_eq!(Reaction::Multi(Vec::new()).flatten(), Vec::<Message>::new());
}

#[test]
fn flatten_list_keeps_order() {
    let reaction = Reaction::Multi(vec![one("A 1"), one("B 2"), one("C 3")]);
    assert_eq!(reaction.flatten(), vec![message("A 1"), message("B 2"), message("C 3")]);
}

#[test]
fn flatten_nested_lists_depth_first() {
    let reaction = Reaction::Multi(vec![
        one("A"),
        Reaction::Multi(vec![
            one("B"),
            Reaction::Nothing,
            Reaction::Multi(vec![one("C"), one("D")]),
            Reaction::Multi(Vec::new()),
        ]),
        Reaction::Nothing,
        one("E"),
    ]);
    assert_eq!(
        reaction.flatten(),
        vec![message("A"), message("B"), message("C"), message("D"), message("E")]
    );
}

#[test]
fn flatten_list_is_concatenation_of_elements() {
    let first = || Reaction::Multi(vec![one("A"), one("B")]);
    let second = || one("C");
    let third = || Reaction::Multi(vec![Reaction::Nothing, one("D")]);
    let mut expected = first().flatten();
    expected.extend(second().flatten());
    expected.extend(third().flatten());
    assert_eq!(Reaction::Multi(vec![first(), second(), third()]).flatten(), expected);
}

#[test]
fn flatten_keeps_repeated_messages() {
    let reaction = Reaction::Multi(vec![one("A"), one("A"), one("A")]);
    assert_eq!(reaction.flatten(), vec![message("A"), message("A"), message("A")]);
}

#[test]
fn flatten_survives_deep_nesting() {
    let mut reaction = one("DEEP");
    for _ in 0..200_000 {
        reaction = Reaction::Multi(vec![reaction]);
    }
    assert_eq!(reaction.flatten(), vec![message("DEEP")]);
}
