//! The header-line bag and the resolution policy.

use dhns::header_bag::HeadersBag;
use dhns::message::Message;
use dhns::resolver::Resolver;

#[test]
fn names_are_folded_and_values_trimmed() {
    let mut bag = HeadersBag::new();
    bag.add_from_string(String::from("Content-Length:  42  "));
    assert_eq!(Some(String::from("42")), bag.get_first(String::from("content-length")));
}

#[test]
fn first_value_wins() {
    let mut bag = HeadersBag::new();
    bag.add_from_string(String::from("Accept: text/plain"));
    bag.add_from_string(String::from("Accept: text/html"));
    assert_eq!(Some(String::from("text/plain")), bag.get_first(String::from("accept")));
}

#[test]
fn missing_header_is_none() {
    let mut bag = HeadersBag::new();
    bag.add_from_string(String::from("Host: localhost"));
    assert_eq!(None, bag.get_first(String::from("content-length")));
}

#[test]
fn line_without_colon_is_ignored() {
    let mut bag = HeadersBag::new();
    bag.add_from_string(String::from("not a header line"));
    assert_eq!(None, bag.get_first(String::from("not a header line")));
}

#[test]
fn value_keeps_inner_spaces_and_case() {
    let mut bag = HeadersBag::new();
    bag.add_from_string(String::from("X-Note: A B  C"));
    assert_eq!(Some(String::from("A B  C")), bag.get_first(String::from("x-note")));
}

#[test]
fn resolver_echoes_the_query() {
    let msg = Message::new();
    let mut before: Vec<u8> = vec![];
    msg.write(&mut before);

    let resolver = Resolver::new();
    let answer = resolver.resolve(Message::read(&before).unwrap());

    let mut after: Vec<u8> = vec![];
    answer.write(&mut after);
    assert_eq!(before, after);
}
