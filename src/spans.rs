//! Which part of the document each retained message spans.

use crate::event::EventView;
use crate::message::BufferedMessage;
use crate::router::{
    deliver,
    is_merge_of,
    lemma_deliver_retained,
    lemma_route_all_inv,
    retained,
    route_all,
    RouterState,
};
use vstd::prelude::*;

verus! {

/// `e` opens a message: a `msg` start tag.
pub open spec fn is_message_start(e: EventView) -> bool {
    match e {
        EventView::Start { name, .. } => name == "msg"@,
        _ => false,
    }
}

/// `e` closes a message: a `</msg>` tag.
pub open spec fn is_message_close(e: EventView) -> bool {
    match e {
        EventView::Close { name, .. } => name == "msg"@,
        _ => false,
    }
}

/// The byte offset that a start or closing tag carries.
pub open spec fn offset_of(e: EventView) -> usize {
    match e {
        EventView::Start { offset, .. } => offset,
        EventView::Close { offset, .. } => offset,
        _ => 0,
    }
}

/// How many messages `events` opens.
pub open spec fn count_starts(events: Seq<EventView>) -> nat
    decreases events.len(),
{
    if events.len() == 0 {
        0
    } else {
        count_starts(events.drop_last()) + if is_message_start(events.last()) {
            1nat
        } else {
            0nat
        }
    }
}

/// Event `i` opens the `id`-th message, at byte `start`.
pub open spec fn opened_at(events: Seq<EventView>, i: int, id: nat, start: usize) -> bool {
    &&& 0 <= i < events.len()
    &&& is_message_start(events[i])
    &&& offset_of(events[i]) == start
    &&& count_starts(events.subrange(0, i + 1)) == id
}

/// No message opens or closes strictly between events `i` and `j`.
pub open spec fn no_boundary_between(events: Seq<EventView>, i: int, j: int) -> bool {
    forall|k: int|
        i < k < j ==> !is_message_start(#[trigger] events[k]) && !is_message_close(events[k])
}

/// `m` is the span of a message of `events`: the `m.id`-th message start, at
/// byte `m.start`, up to the first message close after it, which ends at byte
/// `m.end`.
pub open spec fn spans_message(events: Seq<EventView>, m: BufferedMessage) -> bool {
    exists|i: int, j: int|
        #![trigger opened_at(events, i, m.id as nat, m.start), events[j]]
        opened_at(events, i, m.id as nat, m.start) && i < j < events.len() && is_message_close(
            events[j],
        ) && offset_of(events[j]) == m.end && no_boundary_between(events, i, j)
}

spec fn spans_inv(events: Seq<EventView>, s: RouterState) -> bool {
    &&& s.count == count_starts(events)
    &&& forall|m: BufferedMessage| #[trigger]
        retained(s.buffers).contains(m) ==> spans_message(events, m)
    &&& s.open is Some ==> exists|i: int|
        opened_at(events, i, s.open->Some_0.0 as nat, s.open->Some_0.1) && no_boundary_between(
            events,
            i,
            events.len() as int,
        )
}

proof fn lemma_spans_extend(p: Seq<EventView>, e: EventView, m: BufferedMessage)
    requires
        spans_message(p, m),
    ensures
        spans_message(p.push(e), m),
{
    let evs = p.push(e);
    let (i, j) = choose|i: int, j: int|
        opened_at(p, i, m.id as nat, m.start) && i < j < p.len() && is_message_close(p[j])
            && offset_of(p[j]) == m.end && no_boundary_between(p, i, j);
    assert(evs.subrange(0, i + 1) =~= p.subrange(0, i + 1));
    assert(opened_at(evs, i, m.id as nat, m.start));
    assert(evs[j] == p[j]);
    assert forall|k: int| i < k < j implies !is_message_start(#[trigger] evs[k])
        && !is_message_close(evs[k]) by {
        assert(evs[k] == p[k]);
    }
}

proof fn lemma_spans_inv(events: Seq<EventView>, cap: nat)
    requires
        events.len() <= u64::MAX,
    ensures
        spans_inv(events, route_all(events, cap)),
    decreases events.len(),
{
    if events.len() == 0 {
        assert(retained(Map::<i32, Seq<BufferedMessage>>::empty()) =~= Set::empty());
    } else {
        let p = events.drop_last();
        let e = events.last();
        let s = route_all(p, cap);
        lemma_spans_inv(p, cap);
        lemma_route_all_inv(p, cap);
        assert(p.push(e) =~= events);
        let n = route_all(events, cap);
        assert forall|m: BufferedMessage| #[trigger]
            retained(s.buffers).contains(m) implies spans_message(events, m) by {
            lemma_spans_extend(p, e, m);
        }
        if s.open is Some {
            let i = choose|i: int|
                opened_at(p, i, s.open->Some_0.0 as nat, s.open->Some_0.1) && no_boundary_between(
                    p,
                    i,
                    p.len() as int,
                );
            assert(events.subrange(0, i + 1) =~= p.subrange(0, i + 1));
            assert(opened_at(events, i, s.open->Some_0.0 as nat, s.open->Some_0.1));
            assert forall|k: int| i < k < p.len() implies !is_message_start(#[trigger] events[k])
                && !is_message_close(events[k]) by {
                assert(events[k] == p[k]);
            }
            if is_message_close(e) {
                let m = BufferedMessage {
                    id: s.open->Some_0.0,
                    start: s.open->Some_0.1,
                    end: offset_of(e),
                };
                lemma_deliver_retained(s.buffers, s.pending, m, cap);
                let j = p.len() as int;
                assert(events[j] == e);
                assert(is_message_close(events[j]) && offset_of(events[j]) == m.end);
                assert(no_boundary_between(events, i, j));
                assert(opened_at(events, i, m.id as nat, m.start));
                assert(spans_message(events, m));
                assert(n.buffers == deliver(s.buffers, s.pending, m, cap));
                assert forall|m2: BufferedMessage| #[trigger]
                    retained(n.buffers).contains(m2) implies spans_message(events, m2) by {
                    if m2 != m {
                        assert(retained(s.buffers).contains(m2));
                    }
                }
            } else if !is_message_start(e) {
                assert(n.open == s.open);
                assert(no_boundary_between(events, i, events.len() as int));
            }
        }
        if is_message_start(e) {
            assert(events.subrange(0, events.len() as int) =~= events);
            assert(count_starts(events) == count_starts(p) + 1);
            assert(n.open->Some_0.0 as nat == s.count + 1);
            assert(opened_at(events, p.len() as int, n.open->Some_0.0 as nat, n.open->Some_0.1));
            assert(no_boundary_between(events, p.len() as int, events.len() as int));
        }
    }
}

/// Every message of the merged output is the span of one message of the
/// document: the `id`-th message start, at byte `start`, up to the first
/// message close after it, ending at byte `end`. So `text[start..end]` is the
/// markup of that message exactly.
pub proof fn lemma_fragment_fidelity(
    events: Seq<EventView>,
    cap: nat,
    out: Seq<BufferedMessage>,
    m: BufferedMessage,
)
    requires
        events.len() <= u64::MAX,
        is_merge_of(route_all(events, cap).buffers, out),
        out.contains(m),
    ensures
        spans_message(events, m),
{
    lemma_spans_inv(events, cap);
    assert(out.to_set().contains(m));
}

} // verus!
