use msgcache::document::{process, process_with_capacity, route_events};
use msgcache::event::Event;
use msgcache::message::BufferedMessage;
use msgcache::router::Router;

fn start(name: &str, offset: usize) -> Event {
    Event::Start { name: name.to_string(), offset }
}

fn attr(name: &str, value: &str) -> Event {
    Event::Attribute { name: name.to_string(), value: value.to_string() }
}

fn close(name: &str, offset: usize) -> Event {
    Event::Close { name: name.to_string(), offset }
}

/// One message addressed to `uids`, opening at `at`.
fn message(at: usize, uids: &[&str]) -> Vec<Event> {
    let mut v = vec![start("msg", at)];
    for u in uids {
        v.push(start("to", at + 5));
        v.push(attr("uid", u));
        v.push(Event::Other);
    }
    v.push(Event::Other);
    v.push(close("msg", at + 20));
    v
}

fn ids(msgs: &[BufferedMessage]) -> Vec<u64> {
    msgs.iter().map(|m| m.id).collect()
}

fn doc(messages: &[&str]) -> String {
    let mut s = String::from("<?xml version=\"1.0\"?>\n<log>\n");
    for m in messages {
        s.push_str(m);
        s.push('\n');
    }
    s.push_str("</log>\n");
    s
}

#[test]
fn scenario_capacity_two_keeps_last_two() {
    let mut router = Router::new(2);
    for k in 0..4 {
        for e in message(100 * k, &["5"]) {
            router.handle(&e);
        }
    }
    let buf = router.buffer(5).expect("recipient 5 has a buffer");
    assert_eq!(vec![3, 4], buf.iter().map(|m| m.id).collect::<Vec<u64>>());
    assert_eq!(vec![3, 4], ids(&router.collect()));
}

#[test]
fn scenario_capacity_two_through_text() {
    let text = doc(&[
        "<msg><to uid=\"5\"/>one</msg>",
        "<msg><to uid=\"5\"/>two</msg>",
        "<msg><to uid=\"5\"/>three</msg>",
        "<msg><to uid=\"5\"/>four</msg>",
    ]);
    let out = process_with_capacity(&text, 2).ok().expect("well-formed");
    assert_eq!(vec![3, 4], ids(&out));
}

#[test]
fn scenario_shared_message_appears_once() {
    let mut parts: Vec<String> = Vec::new();
    for k in 1..10 {
        parts.push(format!("<msg><to uid=\"3\"/>filler {}</msg>", k));
    }
    parts.push("<msg><to uid=\"1\"/><to uid=\"2\"/>shared</msg>".to_string());
    let refs: Vec<&str> = parts.iter().map(|s| s.as_str()).collect();
    let text = doc(&refs);
    let out = process(&text).ok().expect("well-formed");
    assert_eq!(1, out.iter().filter(|m| m.id == 10).count());
    assert_eq!((1..=10).collect::<Vec<u64>>(), ids(&out));
}

#[test]
fn scenario_unparsable_recipient_is_dropped() {
    let mut router = Router::new(10);
    for e in message(0, &["abc"]) {
        router.handle(&e);
    }
    assert!(router.buffer(0).is_none());
    assert!(router.collect().is_empty());

    let text = doc(&["<msg><to uid=\"abc\"/>lost</msg>", "<msg><to uid=\"abc\"/><to uid=\"7\"/>kept</msg>"]);
    let out = process(&text).ok().expect("well-formed");
    assert_eq!(vec![2], ids(&out));
}

#[test]
fn scenario_malformed_document_is_an_error() {
    let text = "<log><msg><to uid=5/></msg></log>";
    assert!(process(text).is_err());
    assert!(process("<log><msg><to uid=\"1\"/>a ]]> b</msg></log>").is_err());
}

#[test]
fn output_is_in_id_order_across_recipients() {
    let mut events = Vec::new();
    events.extend(message(0, &["2"]));
    events.extend(message(30, &["1"]));
    events.extend(message(60, &["2"]));
    events.extend(message(90, &["1", "3"]));
    let out = route_events(&events, 10);
    assert_eq!(vec![1, 2, 3, 4], ids(&out));
}

#[test]
fn fragments_are_the_message_markup() {
    let a = "<msg from=\"x\"><to uid=\"1\"/>hello</msg>";
    let b = "<msg><to uid=\"2\"/><body>w&amp;rld</body></msg>";
    let text = doc(&[a, b]);
    let out = process(&text).ok().expect("well-formed");
    assert_eq!(2, out.len());
    assert_eq!(a, &text[out[0].start..out[0].end]);
    assert_eq!(b, &text[out[1].start..out[1].end]);
}

#[test]
fn repeated_recipient_counts_once() {
    let mut router = Router::new(2);
    for e in message(0, &["5"]) {
        router.handle(&e);
    }
    for e in message(30, &["5", "5"]) {
        router.handle(&e);
    }
    let buf = router.buffer(5).expect("recipient 5 has a buffer");
    assert_eq!(vec![1, 2], buf.iter().map(|m| m.id).collect::<Vec<u64>>());
}

#[test]
fn eviction_is_per_recipient() {
    let mut events = Vec::new();
    events.extend(message(0, &["1", "2"]));
    events.extend(message(30, &["1"]));
    events.extend(message(60, &["1"]));
    let out = route_events(&events, 2);
    assert_eq!(vec![1, 2, 3], ids(&out));
    let out = route_events(&events, 1);
    assert_eq!(vec![1, 3], ids(&out));
}

#[test]
fn recipient_attribute_outside_a_message_is_ignored() {
    let events = vec![
        start("to", 0),
        attr("uid", "4"),
        close("msg", 3),
        start("msg", 10),
        close("msg", 20),
    ];
    let out = route_events(&events, 10);
    assert!(out.is_empty());
}

#[test]
fn offsets_come_from_start_and_close() {
    let events = vec![start("msg", 7), attr("uid", "9"), Event::Other, close("msg", 42)];
    let out = route_events(&events, 10);
    assert_eq!(1, out.len());
    assert_eq!(1, out[0].id);
    assert_eq!(7, out[0].start);
    assert_eq!(42, out[0].end);
}

#[test]
fn recipient_ids_read_as_signed_decimal() {
    let mut router = Router::new(10);
    for e in message(0, &["+7", "-3", "2147483648", " 8", "0x1f", ""]) {
        router.handle(&e);
    }
    assert!(router.buffer(7).is_some());
    assert!(router.buffer(-3).is_some());
    assert!(router.buffer(8).is_none());
    assert!(router.buffer(31).is_none());
    assert!(router.buffer(i32::MIN).is_none());
    let mut router = Router::new(10);
    for e in message(0, &["-2147483648"]) {
        router.handle(&e);
    }
    assert!(router.buffer(i32::MIN).is_some());
}

#[test]
fn capacity_zero_retains_nothing() {
    let events = message(0, &["1"]);
    assert!(route_events(&events, 0).is_empty());
}

#[test]
fn empty_document_retains_nothing() {
    let out = process("<log></log>").ok().expect("well-formed");
    assert!(out.is_empty());
}

#[test]
fn messages_compare_by_id() {
    let a = BufferedMessage { id: 4, start: 0, end: 10 };
    let b = BufferedMessage { id: 4, start: 20, end: 30 };
    let c = BufferedMessage { id: 5, start: 0, end: 10 };
    assert!(a == b);
    assert!(a != c);
}
