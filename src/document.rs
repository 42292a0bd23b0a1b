//! From a log document to the list of messages it retains.

use crate::event::{events_view, Event, EventView};
use crate::message::BufferedMessage;
use crate::router::{is_merge_of, route_all, Router, DEFAULT_CAPACITY};
use vstd::prelude::*;
use xmlparser::{ElementEnd, Token, Tokenizer};

verus! {

#[verifier::external_type_specification]
#[verifier::external_body]
pub struct ExXmlError(xmlparser::Error);

/// The events that the tokenizer reads from `text`, or `None` where it
/// reports an error.
pub uninterp spec fn document_events(text: Seq<char>) -> Option<Seq<EventView>>;

/// The document is not well-formed markup.
pub struct ParseError {
    /// What the tokenizer reported.
    pub cause: xmlparser::Error,
}

/// Relies on xmlparser's `Tokenizer`: its tokens depend on the text alone, and
/// it stops at the first error. Element starts, attributes and closing tags
/// keep their local names and byte offsets; other tokens become `Other`.
#[verifier::external_body]
fn tokenize(text: &str) -> (r: Result<Vec<Event>, xmlparser::Error>)
    ensures
        match r {
            Ok(v) => document_events(text@) == Some(events_view(v@)),
            Err(_) => document_events(text@) is None,
        },
{
    let mut v = Vec::new();
    for t in Tokenizer::from(text) {
        v.push(match t? {
            Token::ElementStart { local, span, .. } => Event::Start { name: local.to_string(), offset: span.start() },
            Token::Attribute { local, value, .. } => Event::Attribute { name: local.to_string(), value: value.to_string() },
            Token::ElementEnd { end: ElementEnd::Close(_, local), span } => Event::Close { name: local.to_string(), offset: span.end() },
            _ => Event::Other,
        });
    }
    Ok(v)
}

/// Routes `events` with buffers of `capacity` messages and merges the
/// buffers: every retained message once, in increasing id order.
pub fn route_events(events: &Vec<Event>, capacity: usize) -> (r: Vec<BufferedMessage>)
    ensures
        is_merge_of(route_all(events_view(events@), capacity as nat).buffers, r@),
{
    let mut router = Router::new(capacity);
    let mut i: usize = 0;
    while i < events.len()
        invariant
            0 <= i <= events.len(),
            router.wf(),
            router.capacity() == capacity,
            router@ == route_all(events_view(events@.subrange(0, i as int)), capacity as nat),
            router@.count <= i,
        decreases events.len() - i,
    {
        proof {
            assert(events_view(events@.subrange(0, i + 1)).drop_last() =~= events_view(
                events@.subrange(0, i as int),
            ));
        }
        router.handle(&events[i]);
        i = i + 1;
    }
    proof {
        assert(events@.subrange(0, events@.len() as int) =~= events@);
    }
    router.collect()
}

/// The retained messages of `text` with buffers of `capacity` messages per
/// recipient, or the tokenizer's error.
pub fn process_with_capacity(text: &str, capacity: usize) -> (r: Result<
    Vec<BufferedMessage>,
    ParseError,
>)
    ensures
        match document_events(text@) {
            None => r is Err,
            Some(evs) => r is Ok && is_merge_of(route_all(evs, capacity as nat).buffers, r->Ok_0@),
        },
{
    match tokenize(text) {
        Ok(events) => Ok(route_events(&events, capacity)),
        Err(cause) => Err(ParseError { cause }),
    }
}

/// The retained messages of `text`, keeping the last ten of each recipient.
pub fn process(text: &str) -> (r: Result<Vec<BufferedMessage>, ParseError>)
    ensures
        match document_events(text@) {
            None => r is Err,
            Some(evs) => r is Ok && is_merge_of(
                route_all(evs, DEFAULT_CAPACITY as nat).buffers,
                r->Ok_0@,
            ),
        },
{
    process_with_capacity(text, DEFAULT_CAPACITY)
}

} // verus!
