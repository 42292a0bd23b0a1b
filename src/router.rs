//! Routing of messages into per-recipient buffers, and the merge of those
//! buffers into one list.

use crate::circular_buffer::{last_n, CircularBuffer};
use crate::event::{decimal_i32, is_named, parse_i32, Event, EventView};
use crate::message::BufferedMessage;
use std::collections::HashMap;
use vstd::prelude::*;

verus! {

broadcast use vstd::std_specs::hash::group_hash_axioms;

/// The number of messages kept per recipient unless another is asked for.
pub const DEFAULT_CAPACITY: usize = 10;

/// The state of routing as plain values.
pub struct RouterState {
    /// How many messages have been opened so far; the last one has this id.
    pub count: nat,
    /// The id and start offset of the message being read, if any.
    pub open: Option<(u64, usize)>,
    /// The recipients named so far in the message being read, each once.
    pub pending: Seq<i32>,
    /// The retained messages of each recipient seen so far, oldest first.
    pub buffers: Map<i32, Seq<BufferedMessage>>,
}

/// The state before any event.
pub open spec fn initial_state() -> RouterState {
    RouterState { count: 0, open: None, pending: Seq::empty(), buffers: Map::empty() }
}

/// The buffer of recipient `k`, empty for a recipient not seen yet.
pub open spec fn buffer_of(b: Map<i32, Seq<BufferedMessage>>, k: i32) -> Seq<BufferedMessage> {
    if b.contains_key(k) {
        b[k]
    } else {
        Seq::empty()
    }
}

/// The buffers after `m` was added to the buffer of each recipient in
/// `pending`, a buffer being created for a recipient not seen before.
pub open spec fn deliver(
    b: Map<i32, Seq<BufferedMessage>>,
    pending: Seq<i32>,
    m: BufferedMessage,
    cap: nat,
) -> Map<i32, Seq<BufferedMessage>> {
    Map::new(
        |k: i32| b.contains_key(k) || pending.contains(k),
        |k: i32|
            if pending.contains(k) {
                last_n(buffer_of(b, k).push(m), cap)
            } else {
                b[k]
            },
    )
}

/// The state after one event.
///
/// A `msg` start opens a new message with the next id; while a message is
/// open, a `uid` attribute that reads as an `i32` names a recipient; a
/// closing `</msg>` of an open message adds it to the buffer of each named
/// recipient and forgets them. Every other event leaves the state as it is.
pub open spec fn step(s: RouterState, e: EventView, cap: nat) -> RouterState {
    match e {
        EventView::Start { name, offset } => {
            if name == "msg"@ {
                RouterState {
                    count: s.count + 1,
                    open: Some(((s.count + 1) as u64, offset)),
                    pending: s.pending,
                    buffers: s.buffers,
                }
            } else {
                s
            }
        },
        EventView::Attribute { name, value } => {
            if name == "uid"@ && s.open is Some && decimal_i32(value) is Some {
                let uid = decimal_i32(value)->Some_0;
                if s.pending.contains(uid) {
                    s
                } else {
                    RouterState {
                        count: s.count,
                        open: s.open,
                        pending: s.pending.push(uid),
                        buffers: s.buffers,
                    }
                }
            } else {
                s
            }
        },
        EventView::Close { name, offset } => {
            if name == "msg"@ && s.open is Some {
                let m = BufferedMessage {
                    id: s.open->Some_0.0,
                    start: s.open->Some_0.1,
                    end: offset,
                };
                RouterState {
                    count: s.count,
                    open: None,
                    pending: Seq::empty(),
                    buffers: deliver(s.buffers, s.pending, m, cap),
                }
            } else {
                s
            }
        },
        EventView::Other => s,
    }
}

/// The state after all of `events`, in order, with buffers of capacity `cap`.
pub open spec fn route_all(events: Seq<EventView>, cap: nat) -> RouterState
    decreases events.len(),
{
    if events.len() == 0 {
        initial_state()
    } else {
        step(route_all(events.drop_last(), cap), events.last(), cap)
    }
}

/// Every message that some buffer retains.
pub open spec fn retained(b: Map<i32, Seq<BufferedMessage>>) -> Set<BufferedMessage> {
    Set::new(|m: BufferedMessage| exists|k: i32| b.contains_key(k) && #[trigger] b[k].contains(m))
}

/// What holds of every state that routing reaches: ids count up from 1, a
/// message being read has the newest id and none retained has it, and two
/// retained messages with one id are the same message.
pub open spec fn state_inv(s: RouterState) -> bool {
    &&& s.count <= u64::MAX
    &&& s.pending.no_duplicates()
    &&& s.open is Some ==> s.open->Some_0.0 == s.count && s.count >= 1
    &&& forall|m: BufferedMessage| #[trigger]
        retained(s.buffers).contains(m) ==> 1 <= m.id <= s.count && (s.open is Some ==> m.id
            < s.count)
    &&& forall|m1: BufferedMessage, m2: BufferedMessage|
        #![trigger retained(s.buffers).contains(m1), retained(s.buffers).contains(m2)]
        retained(s.buffers).contains(m1) && retained(s.buffers).contains(m2) && m1.id == m2.id
            ==> m1 == m2
}

pub proof fn lemma_deliver_retained(
    b: Map<i32, Seq<BufferedMessage>>,
    pending: Seq<i32>,
    m: BufferedMessage,
    cap: nat,
)
    ensures
        forall|x: BufferedMessage| #[trigger]
            retained(deliver(b, pending, m, cap)).contains(x) ==> retained(b).contains(x) || x
                == m,
{
    let nb = deliver(b, pending, m, cap);
    assert forall|x: BufferedMessage| #[trigger]
        retained(nb).contains(x) implies retained(b).contains(x) || x == m by {
        let k = choose|k: i32| nb.contains_key(k) && #[trigger] nb[k].contains(x);
        if pending.contains(k) {
            let full = buffer_of(b, k).push(m);
            let i = choose|i: int| 0 <= i < nb[k].len() && nb[k][i] == x;
            let j = i + (full.len() - nb[k].len());
            assert(x == full[j]);
            if j < buffer_of(b, k).len() {
                assert(b[k][j] == x);
                assert(b[k].contains(x));
            }
        } else {
            assert(b[k].contains(x));
        }
    }
}

/// Each event keeps the invariant.
pub proof fn lemma_step_inv(s: RouterState, e: EventView, cap: nat)
    requires
        state_inv(s),
        s.count < u64::MAX,
    ensures
        state_inv(step(s, e, cap)),
        step(s, e, cap).count <= s.count + 1,
{
    match e {
        EventView::Close { name, offset } => {
            if name == "msg"@ && s.open is Some {
                let m = BufferedMessage {
                    id: s.open->Some_0.0,
                    start: s.open->Some_0.1,
                    end: offset,
                };
                lemma_deliver_retained(s.buffers, s.pending, m, cap);
            }
        },
        _ => {},
    }
}

/// Every state that routing reaches keeps the invariant.
pub proof fn lemma_route_all_inv(events: Seq<EventView>, cap: nat)
    requires
        events.len() <= u64::MAX,
    ensures
        state_inv(route_all(events, cap)),
        route_all(events, cap).count <= events.len(),
    decreases events.len(),
{
    if events.len() > 0 {
        lemma_route_all_inv(events.drop_last(), cap);
        lemma_step_inv(route_all(events.drop_last(), cap), events.last(), cap);
    } else {
        assert(retained(Map::<i32, Seq<BufferedMessage>>::empty()) =~= Set::empty());
    }
}

/// Ids strictly increase along `s`.
pub open spec fn ids_increasing(s: Seq<BufferedMessage>) -> bool {
    forall|i: int, j: int| 0 <= i < j < s.len() ==> s[i].id < s[j].id
}

/// `out` lists every message retained in `b`, and nothing else, in
/// increasing id order (so each message once).
pub open spec fn is_merge_of(b: Map<i32, Seq<BufferedMessage>>, out: Seq<BufferedMessage>) -> bool {
    &&& ids_increasing(out)
    &&& out.to_set() == retained(b)
}

proof fn lemma_concat_contains<T>(a: Seq<T>, b: Seq<T>)
    ensures
        forall|x: T| #[trigger] (a + b).contains(x) <==> a.contains(x) || b.contains(x),
{
    assert forall|x: T| #[trigger] (a + b).contains(x) implies a.contains(x) || b.contains(x) by {
        let i = choose|i: int| 0 <= i < (a + b).len() && (a + b)[i] == x;
        if i < a.len() {
            assert(a[i] == x);
        } else {
            assert(b[i - a.len()] == x);
        }
    }
    assert forall|x: T| a.contains(x) || b.contains(x) implies #[trigger] (a + b).contains(x) by {
        if a.contains(x) {
            let i = choose|i: int| 0 <= i < a.len() && a[i] == x;
            assert((a + b)[i] == x);
        } else {
            let i = choose|i: int| 0 <= i < b.len() && b[i] == x;
            assert((a + b)[i + a.len()] == x);
        }
    }
}

/// Inserts `m` at its place by id into `out`, unless a message with its id is
/// already there.
fn insert_by_id(out: &mut Vec<BufferedMessage>, m: BufferedMessage)
    requires
        ids_increasing(old(out)@),
        forall|y: BufferedMessage| old(out)@.contains(y) && y.id == m.id ==> y == m,
    ensures
        ids_increasing(final(out)@),
        forall|x: BufferedMessage|
            final(out)@.contains(x) <==> old(out)@.contains(x) || x == m,
{
    let mut pos: usize = 0;
    while pos < out.len() && out[pos].id < m.id
        invariant
            0 <= pos <= out.len(),
            out@ == old(out)@,
            forall|i: int| 0 <= i < pos ==> out@[i].id < m.id,
        decreases out.len() - pos,
    {
        pos = pos + 1;
    }
    if pos < out.len() && out[pos].id == m.id {
        // `m` is already there: the precondition makes `out[pos]` equal to it.
        assert(out@.contains(out@[pos as int]));
    } else {
        let ghost before = out@;
        out.insert(pos, m);
        proof {
            assert forall|x: BufferedMessage|
                out@.contains(x) <==> old(out)@.contains(x) || x == m by {
                if out@.contains(x) {
                    let i = choose|i: int| 0 <= i < out@.len() && out@[i] == x;
                    if i < pos {
                        assert(before[i] == x);
                    } else if i > pos {
                        assert(before[i - 1] == x);
                    }
                }
                if before.contains(x) {
                    let i = choose|i: int| 0 <= i < before.len() && before[i] == x;
                    if i < pos {
                        assert(out@[i] == x);
                    } else {
                        assert(out@[i + 1] == x);
                    }
                }
                if x == m {
                    assert(out@[pos as int] == x);
                }
            }
        }
    }
}

/// A message that two recipients both still retain after `events` stands
/// exactly once in the merged output.
pub proof fn lemma_shared_message_once(
    events: Seq<EventView>,
    cap: nat,
    out: Seq<BufferedMessage>,
    r1: i32,
    r2: i32,
    m: BufferedMessage,
)
    requires
        is_merge_of(route_all(events, cap).buffers, out),
        route_all(events, cap).buffers.contains_key(r1),
        route_all(events, cap).buffers.contains_key(r2),
        route_all(events, cap).buffers[r1].contains(m),
        route_all(events, cap).buffers[r2].contains(m),
    ensures
        exists|i: int| 0 <= i < out.len() && out[i] == m,
        forall|i: int, j: int|
            0 <= i < out.len() && 0 <= j < out.len() && out[i].id == m.id && out[j].id == m.id
                ==> i == j,
{
    let b = route_all(events, cap).buffers;
    assert(retained(b).contains(m));
    assert(out.to_set().contains(m));
}

/// Routes the events of one document into per-recipient buffers.
pub struct Router {
    capacity: usize,
    count: u64,
    in_message: bool,
    current: BufferedMessage,
    pending: Vec<i32>,
    recipients: Vec<i32>,
    buffers: HashMap<i32, CircularBuffer<BufferedMessage>>,
}

impl View for Router {
    type V = RouterState;

    closed spec fn view(&self) -> RouterState {
        RouterState {
            count: self.count as nat,
            open: if self.in_message {
                Some((self.current.id, self.current.start))
            } else {
                None
            },
            pending: self.pending@,
            buffers: self.buffers@.map_values(|b: CircularBuffer<BufferedMessage>| b@),
        }
    }
}

/// Whether `v` holds `x`.
fn contains_id(v: &Vec<i32>, x: i32) -> (r: bool)
    ensures
        r == v@.contains(x),
{
    let mut i: usize = 0;
    while i < v.len()
        invariant
            0 <= i <= v.len(),
            forall|j: int| 0 <= j < i ==> v@[j] != x,
        decreases v.len() - i,
    {
        if v[i] == x {
            return true;
        }
        i = i + 1;
    }
    false
}

impl Router {
    /// The capacity of every recipient's buffer.
    pub closed spec fn capacity(&self) -> nat {
        self.capacity as nat
    }

    /// The router's fields agree with each other and with [`state_inv`].
    pub closed spec fn wf(&self) -> bool {
        &&& state_inv(self@)
        &&& forall|k: i32| #[trigger]
            self.buffers@.contains_key(k) ==> self.buffers@[k].wf()
                && self.buffers@[k].capacity() == self.capacity
        &&& forall|k: i32| #[trigger]
            self.buffers@.contains_key(k) <==> self.recipients@.contains(k)
    }

    /// A router that has seen no event, keeping up to `capacity` messages per
    /// recipient.
    pub fn new(capacity: usize) -> (r: Router)
        ensures
            r.wf(),
            r@ == initial_state(),
            r.capacity() == capacity,
    {
        let r = Router {
            capacity,
            count: 0,
            in_message: false,
            current: BufferedMessage { id: 0, start: 0, end: 0 },
            pending: Vec::new(),
            recipients: Vec::new(),
            buffers: HashMap::new(),
        };
        assert(r@.buffers =~= Map::empty());
        assert(retained(r@.buffers) =~= Set::empty());
        r
    }

    /// The buffer of recipient `uid`, if any message was routed to it.
    pub fn buffer(&self, uid: i32) -> (r: Option<&CircularBuffer<BufferedMessage>>)
        requires
            self.wf(),
        ensures
            match r {
                Some(b) => self@.buffers.contains_key(uid) && b@ == self@.buffers[uid] && b.wf(),
                None => !self@.buffers.contains_key(uid),
            },
    {
        self.buffers.get(&uid)
    }

    /// Takes one event into account.
    pub fn handle(&mut self, e: &Event)
        requires
            old(self).wf(),
            old(self)@.count < u64::MAX,
        ensures
            final(self).wf(),
            final(self)@ == step(old(self)@, e@, old(self).capacity()),
            final(self).capacity() == old(self).capacity(),
    {
        proof {
            lemma_step_inv(self@, e@, self.capacity as nat);
        }
        match e {
            Event::Start { name, offset } => {
                if is_named(name, "msg") {
                    self.count = self.count + 1;
                    self.current = BufferedMessage { id: self.count, start: *offset, end: 0 };
                    self.in_message = true;
                }
            },
            Event::Attribute { name, value } => {
                if self.in_message && is_named(name, "uid") {
                    match parse_i32(value.as_str()) {
                        Some(uid) => {
                            if !contains_id(&self.pending, uid) {
                                self.pending.push(uid);
                            }
                        },
                        None => {},
                    }
                }
            },
            Event::Close { name, offset } => {
                if self.in_message && is_named(name, "msg") {
                    let m = BufferedMessage {
                        id: self.current.id,
                        start: self.current.start,
                        end: *offset,
                    };
                    self.deliver_pending(m);
                    self.pending.clear();
                    self.in_message = false;
                }
            },
            Event::Other => {},
        }
        proof {
            assert(self@ =~= step(old(self)@, e@, old(self).capacity()));
        }
    }

    /// Adds `m` to the buffer of every pending recipient.
    fn deliver_pending(&mut self, m: BufferedMessage)
        requires
            old(self).wf(),
        ensures
            final(self).buffers@.map_values(|b: CircularBuffer<BufferedMessage>| b@) == deliver(
                old(self)@.buffers,
                old(self)@.pending,
                m,
                old(self).capacity(),
            ),
            forall|k: i32| #[trigger]
                final(self).buffers@.contains_key(k) ==> final(self).buffers@[k].wf()
                    && final(self).buffers@[k].capacity() == final(self).capacity,
            forall|k: i32| #[trigger]
                final(self).buffers@.contains_key(k) <==> final(self).recipients@.contains(k),
            final(self).capacity == old(self).capacity,
            final(self).count == old(self).count,
            final(self).in_message == old(self).in_message,
            final(self).current == old(self).current,
            final(self).pending == old(self).pending,
    {
        let ghost old_b = old(self)@.buffers;
        let ghost pend = self.pending@;
        let ghost cap = self.capacity as nat;
        let mut j: usize = 0;
        while j < self.pending.len()
            invariant
                0 <= j <= self.pending.len(),
                self.pending@ == pend,
                pend.no_duplicates(),
                self.capacity == old(self).capacity,
                cap == self.capacity,
                self.count == old(self).count,
                self.in_message == old(self).in_message,
                self.current == old(self).current,
                self.pending == old(self).pending,
                old_b == old(self).buffers@.map_values(|b: CircularBuffer<BufferedMessage>| b@),
                forall|k: i32| #[trigger]
                    self.buffers@.contains_key(k) <==> old_b.contains_key(k) || pend.subrange(
                        0,
                        j as int,
                    ).contains(k),
                forall|k: i32| #[trigger]
                    self.buffers@.contains_key(k) ==> self.buffers@[k].wf()
                        && self.buffers@[k].capacity() == self.capacity,
                forall|k: i32| #[trigger]
                    self.buffers@.contains_key(k) ==> self.buffers@[k]@ == if pend.subrange(
                        0,
                        j as int,
                    ).contains(k) {
                        last_n(buffer_of(old_b, k).push(m), cap)
                    } else {
                        old_b[k]
                    },
                forall|k: i32| #[trigger]
                    self.buffers@.contains_key(k) <==> self.recipients@.contains(k),
            decreases self.pending.len() - j,
        {
            let d = self.pending[j];
            proof {
                assert(pend.subrange(0, j + 1) =~= pend.subrange(0, j as int).push(d));
                assert(!pend.subrange(0, j as int).contains(d));
                assert forall|k: i32|
                    pend.subrange(0, j + 1).contains(k) <==> pend.subrange(0, j as int).contains(k)
                        || k == d by {
                    let pre = pend.subrange(0, j as int);
                    if pre.contains(k) {
                        let i = choose|i: int| 0 <= i < pre.len() && pre[i] == k;
                        assert(pre.push(d)[i] == k);
                    }
                    if k == d {
                        assert(pre.push(d)[j as int] == k);
                    }
                }
            }
            match self.buffers.remove(&d) {
                Some(buf) => {
                    let mut buf = buf;
                    buf.add(m);
                    self.buffers.insert(d, buf);
                },
                None => {
                    let mut buf = CircularBuffer::new(self.capacity);
                    buf.add(m);
                    self.buffers.insert(d, buf);
                    let ghost before = self.recipients@;
                    self.recipients.push(d);
                    proof {
                        assert forall|k: i32|
                            self.recipients@.contains(k) <==> before.contains(k) || k == d by {
                            if before.contains(k) {
                                let i = choose|i: int| 0 <= i < before.len() && before[i] == k;
                                assert(self.recipients@[i] == k);
                            }
                            if k == d {
                                assert(self.recipients@[before.len() as int] == k);
                            }
                        }
                    }
                },
            }
            j = j + 1;
        }
        proof {
            assert(pend.subrange(0, pend.len() as int) =~= pend);
            assert(self.buffers@.map_values(|b: CircularBuffer<BufferedMessage>| b@) =~= deliver(
                old_b,
                pend,
                m,
                cap,
            ));
        }
    }

    /// Every retained message, each once, in increasing id order.
    pub fn collect(&self) -> (r: Vec<BufferedMessage>)
        requires
            self.wf(),
        ensures
            is_merge_of(self@.buffers, r@),
    {
        let ghost model = self@.buffers;
        let mut all: Vec<BufferedMessage> = Vec::new();
        let mut i: usize = 0;
        while i < self.recipients.len()
            invariant
                self.wf(),
                model == self@.buffers,
                0 <= i <= self.recipients.len(),
                forall|x: BufferedMessage|
                    all@.contains(x) <==> exists|p: int|
                        0 <= p < i && #[trigger] buffer_of(model, self.recipients@[p]).contains(x),
            decreases self.recipients.len() - i,
        {
            let k = self.recipients[i];
            assert(self.recipients@.contains(k));
            match self.buffers.get(&k) {
                Some(buf) => {
                    let ghost before = all@;
                    assert(buf@ == buffer_of(model, k));
                    let mut j: usize = 0;
                    while j < buf.len()
                        invariant
                            buf.wf(),
                            0 <= j <= buf@.len(),
                            buf@ == buffer_of(model, k),
                            forall|x: BufferedMessage|
                                before.contains(x) <==> exists|p: int|
                                    0 <= p < i && #[trigger] buffer_of(
                                        model,
                                        self.recipients@[p],
                                    ).contains(x),
                            all@ == before + buf@.subrange(0, j as int),
                        decreases buf@.len() - j,
                    {
                        let item = *buf.get(j);
                        all.push(item);
                        assert(all@ =~= before + buf@.subrange(0, j + 1));
                        j = j + 1;
                    }
                    proof {
                        assert(buf@.subrange(0, buf@.len() as int) =~= buf@);
                        lemma_concat_contains(before, buf@);
                        assert forall|x: BufferedMessage|
                            all@.contains(x) <==> exists|p: int|
                                0 <= p < i + 1 && #[trigger] buffer_of(
                                    model,
                                    self.recipients@[p],
                                ).contains(x) by {
                            if buf@.contains(x) {
                                assert(buffer_of(model, self.recipients@[i as int]).contains(x));
                            }
                            if exists|p: int|
                                0 <= p < i + 1 && #[trigger] buffer_of(
                                    model,
                                    self.recipients@[p],
                                ).contains(x) {
                                let p = choose|p: int|
                                    0 <= p < i + 1 && #[trigger] buffer_of(
                                        model,
                                        self.recipients@[p],
                                    ).contains(x);
                                if p < i {
                                    assert(before.contains(x));
                                }
                            }
                        }
                    }
                },
                // Every listed recipient has a buffer, so this arm is never taken.
                None => {},
            }
            i = i + 1;
        }
        proof {
            assert forall|x: BufferedMessage|
                all@.contains(x) <==> retained(model).contains(x) by {
                if all@.contains(x) {
                    let p = choose|p: int|
                        0 <= p < self.recipients@.len() && #[trigger] buffer_of(
                            model,
                            self.recipients@[p],
                        ).contains(x);
                    let k = self.recipients@[p];
                    assert(self.recipients@.contains(k));
                    assert(model.contains_key(k) && model[k].contains(x));
                }
                if retained(model).contains(x) {
                    let k = choose|k: i32| model.contains_key(k) && #[trigger] model[k].contains(x);
                    assert(self.buffers@.contains_key(k));
                    let p = choose|p: int|
                        0 <= p < self.recipients@.len() && self.recipients@[p] == k;
                    assert(buffer_of(model, self.recipients@[p]).contains(x));
                }
            }
        }
        let mut out: Vec<BufferedMessage> = Vec::new();
        let mut p: usize = 0;
        while p < all.len()
            invariant
                state_inv(self@),
                model == self@.buffers,
                0 <= p <= all.len(),
                forall|x: BufferedMessage| all@.contains(x) ==> retained(model).contains(x),
                ids_increasing(out@),
                forall|x: BufferedMessage|
                    out@.contains(x) <==> all@.subrange(0, p as int).contains(x),
            decreases all.len() - p,
        {
            let m = all[p];
            let ghost prev = out@;
            proof {
                assert(all@.contains(m));
                assert forall|y: BufferedMessage| out@.contains(y) && y.id == m.id implies y
                    == m by {
                    let q = choose|q: int| 0 <= q < p && all@.subrange(0, p as int)[q] == y;
                    assert(all@[q] == y);
                    assert(all@.contains(y));
                }
            }
            insert_by_id(&mut out, m);
            proof {
                let pre = all@.subrange(0, p as int);
                assert(all@.subrange(0, p + 1) =~= pre.push(m));
                assert forall|x: BufferedMessage|
                    pre.push(m).contains(x) <==> pre.contains(x) || x == m by {
                    if pre.push(m).contains(x) {
                        let q = choose|q: int| 0 <= q < pre.push(m).len() && pre.push(m)[q] == x;
                        if q < pre.len() {
                            assert(pre[q] == x);
                        }
                    }
                    if pre.contains(x) {
                        let q = choose|q: int| 0 <= q < pre.len() && pre[q] == x;
                        assert(pre.push(m)[q] == x);
                    }
                    if x == m {
                        assert(pre.push(m)[pre.len() as int] == x);
                    }
                }
                assert forall|x: BufferedMessage|
                    out@.contains(x) <==> all@.subrange(0, p + 1).contains(x) by {
                    assert(out@.contains(x) <==> prev.contains(x) || x == m);
                    assert(prev.contains(x) <==> pre.contains(x));
                }
            }
            p = p + 1;
        }
        proof {
            assert(all@.subrange(0, all@.len() as int) =~= all@);
            assert(out@.to_set() =~= retained(model));
        }
        out
    }
}

} // verus!