//! The broker's state engine: the object store, the live queries of each
//! client, calls routed to providers, and streams relayed between clients.
//! Each operation runs to completion on `&mut Server`; a transport that serves
//! many connections holds the server behind one lock.
use crate::ids::{now_micros, random_bits, ClientStreamIndex, Id, StreamId};
use crate::json::{json_from_map, json_into_map, json_object_entries, json_take_fields, merge_into_object, shallow_merge};
use crate::logger::LogMessage;
use crate::messages::{Client, Error, Inbox, Message};
use crate::objects::{
    lemma_store_absent, lemma_store_index, lemma_store_push, lemma_store_remove, lemma_store_update,
    names_unique, store_of, valid_name, Command, Object,
};
use crate::patterns::Pattern;
use crate::text::{chars_of, string_from_chars, system_name, system_name_chars};
use vstd::prelude::*;

verus! {

/// A live subscription: the pattern, whether its client answers calls on the
/// objects it matches, and the names currently inside it.
pub struct Query {
    pub id: Id,
    pub pattern: Pattern,
    pub provide_rpc: bool,
    pub objects: Vec<String>,
}

/// A call waiting for its provider's answer.
#[derive(Debug)]
pub struct Invocation {
    pub id: Id,
    pub client_id: Id,
    pub request_id: serde_json::Value,
    pub query_id: Id,
}

pub struct ClientState {
    pub id: Id,
    pub queries: Vec<Query>,
    pub invocations: Vec<Invocation>,
    pub inbox: Inbox,
    pub disconnect_commands: Vec<Command>,
    pub next_stream_index: u32,
    pub streams: Vec<(ClientStreamIndex, StreamId)>,
}

#[derive(Clone, Copy, Debug, PartialEq, Eq, Structural)]
pub struct StreamClient {
    pub client_id: Id,
    pub stream_index: ClientStreamIndex,
}

#[derive(Clone, Copy, Debug, PartialEq, Eq, Structural)]
pub struct StreamState {
    pub id: StreamId,
    pub client_a: StreamClient,
    pub client_b: Option<StreamClient>,
}

/// What a persistence adapter is to be told, in order.
#[derive(Debug)]
pub enum StorageChange {
    Add(Object),
    Change(Object),
    Delete(Object),
}

pub struct Server {
    objects: Vec<Object>,
    clients: Vec<ClientState>,
    streams: Vec<StreamState>,
    next_serial: u64,
    log: Vec<LogMessage>,
    changes: Vec<StorageChange>,
}

/// The names inside a query.
pub open spec fn members(q: Query) -> Set<Seq<char>> {
    Set::new(|n: Seq<char>| exists|i: int| 0 <= i < q.objects@.len() && q.objects@[i]@ == n)
}

/// A query holds exactly the stored names that its pattern matches.
pub open spec fn query_in_sync(q: Query, store: Map<Seq<char>, Object>) -> bool {
    forall|n: Seq<char>|
        #![trigger members(q).contains(n)]
        #![trigger store.contains_key(n)]
        members(q).contains(n) <==> (store.contains_key(n) && q.pattern.accepts(n))
}

/// The client `c` holds a query that answers calls, under the identifier the
/// invocation `inv` was routed through.
pub open spec fn provided_by(inv: Invocation, c: ClientState) -> bool {
    exists|j: int| 0 <= j < c.queries@.len() && #[trigger] c.queries@[j].id == inv.query_id && c.queries@[j].provide_rpc
}

proof fn lemma_provided_same(c: ClientState, c2: ClientState, inv: Invocation)
    requires
        same_client(c, c2),
        provided_by(inv, c),
    ensures
        provided_by(inv, c2),
{
    let j = choose|j: int| 0 <= j < c.queries@.len() && #[trigger] c.queries@[j].id == inv.query_id && c.queries@[j].provide_rpc;
    assert(same_query(c.queries@[j], c2.queries@[j]));
}

proof fn lemma_provided_queries(c: ClientState, c2: ClientState, inv: Invocation)
    requires
        c2.queries == c.queries,
        provided_by(inv, c),
    ensures
        provided_by(inv, c2),
{
    let j = choose|j: int| 0 <= j < c.queries@.len() && #[trigger] c.queries@[j].id == inv.query_id && c.queries@[j].provide_rpc;
    assert(c2.queries@[j] == c.queries@[j]);
}

/// The calls of `invs` routed through the query `query_id`, in order.
pub open spec fn routed_through(invs: Seq<Invocation>, query_id: Id) -> Seq<Invocation>
    decreases invs.len(),
{
    if invs.len() == 0 {
        invs
    } else if invs.last().query_id == query_id {
        routed_through(invs.drop_last(), query_id).push(invs.last())
    } else {
        routed_through(invs.drop_last(), query_id)
    }
}

/// The calls of `invs` routed through other queries than `query_id`, in order.
pub open spec fn routed_elsewhere(invs: Seq<Invocation>, query_id: Id) -> Seq<Invocation>
    decreases invs.len(),
{
    if invs.len() == 0 {
        invs
    } else if invs.last().query_id != query_id {
        routed_elsewhere(invs.drop_last(), query_id).push(invs.last())
    } else {
        routed_elsewhere(invs.drop_last(), query_id)
    }
}

proof fn lemma_routed_elsewhere_from(invs: Seq<Invocation>, query_id: Id, m: int)
    requires
        0 <= m < routed_elsewhere(invs, query_id).len(),
    ensures
        exists|k: int| 0 <= k < invs.len() && invs[k] == routed_elsewhere(invs, query_id)[m],
        routed_elsewhere(invs, query_id)[m].query_id != query_id,
    decreases invs.len(),
{
    let prev = routed_elsewhere(invs.drop_last(), query_id);
    if m < prev.len() {
        lemma_routed_elsewhere_from(invs.drop_last(), query_id, m);
        let k = choose|k: int| 0 <= k < invs.drop_last().len() && invs.drop_last()[k] == prev[m];
        assert(invs[k] == prev[m]);
    } else {
        assert(invs[invs.len() - 1] == invs.last());
    }
}


proof fn lemma_routed_elsewhere_distinct(invs: Seq<Invocation>, query_id: Id)
    requires
        forall|a: int, b: int| 0 <= a < invs.len() && 0 <= b < invs.len() && a != b ==> (#[trigger] invs[a]).id != (#[trigger] invs[b]).id,
    ensures
        forall|a: int, b: int|
            0 <= a < routed_elsewhere(invs, query_id).len() && 0 <= b < routed_elsewhere(invs, query_id).len() && a != b
                ==> (#[trigger] routed_elsewhere(invs, query_id)[a]).id != (#[trigger] routed_elsewhere(invs, query_id)[b]).id,
    decreases invs.len(),
{
    if invs.len() > 0 {
        let p = invs.drop_last();
        assert forall|a: int, b: int| 0 <= a < p.len() && 0 <= b < p.len() && a != b implies (#[trigger] p[a]).id != (#[trigger] p[b]).id by {
            assert(p[a] == invs[a] && p[b] == invs[b]);
        }
        lemma_routed_elsewhere_distinct(p, query_id);
        let w = routed_elsewhere(invs, query_id);
        let wp = routed_elsewhere(p, query_id);
        if invs.last().query_id != query_id {
            assert forall|a: int, b: int| 0 <= a < w.len() && 0 <= b < w.len() && a != b implies (#[trigger] w[a]).id != (#[trigger] w[b]).id by {
                if a == wp.len() || b == wp.len() {
                    let o = if a == wp.len() { b } else { a };
                    lemma_routed_elsewhere_from(p, query_id, o);
                    let k = choose|k: int| 0 <= k < p.len() && p[k] == wp[o];
                    assert(invs[k] == wp[o]);
                    assert(invs[invs.len() - 1] == invs.last());
                    assert(w[o] == wp[o]);
                } else {
                    assert(w[a] == wp[a] && w[b] == wp[b]);
                }
            }
        }
    }
}

/// `q2` is `q` but for the names inside it.
pub open spec fn same_query(q: Query, q2: Query) -> bool {
    q2.id == q.id && q2.pattern == q.pattern && q2.provide_rpc == q.provide_rpc
}

/// `c2` is `c` but for its queries' names and its inbox.
pub open spec fn same_client(c: ClientState, c2: ClientState) -> bool {
    &&& c2.id == c.id
    &&& c2.invocations == c.invocations
    &&& c2.disconnect_commands == c.disconnect_commands
    &&& c2.next_stream_index == c.next_stream_index
    &&& c2.streams == c.streams
    &&& c2.queries@.len() == c.queries@.len()
    &&& forall|j: int| 0 <= j < c.queries@.len() ==> same_query(#[trigger] c.queries@[j], c2.queries@[j])
}

/// The messages that a write of `o` under `name` sends to a client with
/// queries `qs`: one per query whose pattern matches, a change where the
/// object existed before, an add where it did not.
pub open spec fn upsert_messages(qs: Seq<Query>, name: Seq<char>, o: Object, existed: bool) -> Seq<Message>
    decreases qs.len(),
{
    if qs.len() == 0 {
        Seq::<Message>::empty()
    } else {
        let prev = upsert_messages(qs.drop_last(), name, o, existed);
        let q = qs.last();
        if q.pattern.accepts(name) {
            prev.push(
                if existed {
                    Message::QueryChange { query_id: q.id, object: o }
                } else {
                    Message::QueryAdd { query_id: q.id, object: o }
                },
            )
        } else {
            prev
        }
    }
}

/// A client after the write of `o` under `name`: each matching query holds
/// the name, and the client got `upsert_messages`.
pub open spec fn client_after_upsert(c: ClientState, c2: ClientState, name: Seq<char>, o: Object, existed: bool) -> bool {
    &&& same_client(c, c2)
    &&& forall|j: int|
        0 <= j < c.queries@.len() ==> members(#[trigger] c2.queries@[j]) == if c.queries@[j].pattern.accepts(name) {
            members(c.queries@[j]).insert(name)
        } else {
            members(c.queries@[j])
        }
    &&& c2.inbox@ == c.inbox@ + upsert_messages(c.queries@, name, o, existed)
}

proof fn lemma_members_push(q: Query, q2: Query, s: String)
    requires
        q2.objects@ == q.objects@.push(s),
    ensures
        members(q2) == members(q).insert(s@),
{
    assert forall|n: Seq<char>| #[trigger] members(q2).contains(n) == members(q).insert(s@).contains(n) by {
        if members(q).contains(n) {
            let i = choose|i: int| 0 <= i < q.objects@.len() && q.objects@[i]@ == n;
            assert(q2.objects@[i]@ == n);
        }
        if n == s@ {
            assert(q2.objects@[q.objects@.len() as int]@ == n);
        }
        if members(q2).contains(n) && n != s@ {
            let i = choose|i: int| 0 <= i < q2.objects@.len() && q2.objects@[i]@ == n;
            assert(i < q.objects@.len());
            assert(q.objects@[i]@ == n);
        }
    }
    assert(members(q2) =~= members(q).insert(s@));
}

impl Query {

    /// Takes `name` out of the query.
    pub fn remove_object(&mut self, name: &String)
        ensures
            same_query(*old(self), *final(self)),
            members(*final(self)) == members(*old(self)).remove(name@),
    {
        let mut kept: Vec<String> = Vec::new();
        let mut i: usize = 0;
        while i < self.objects.len()
            invariant
                i <= self.objects@.len(),
                self.objects == old(self).objects,
                forall|a: int| 0 <= a < kept@.len() ==> (#[trigger] kept@[a])@ != name@,
                forall|a: int| 0 <= a < kept@.len() ==> exists|b: int| 0 <= b < i && self.objects@[b] == #[trigger] kept@[a],
                forall|b: int| 0 <= b < i && (#[trigger] self.objects@[b])@ != name@ ==> exists|a: int| 0 <= a < kept@.len() && kept@[a] == self.objects@[b],
            decreases self.objects@.len() - i,
        {
            if self.objects[i] != *name {
                let ghost before = kept@;
                kept.push(self.objects[i].clone());
                assert(kept@[before.len() as int] == self.objects@[i as int]);
                assert forall|a: int| 0 <= a < kept@.len() implies exists|b: int| 0 <= b < i + 1 && self.objects@[b] == #[trigger] kept@[a] by {
                    if a < before.len() {
                        assert(kept@[a] == before[a]);
                    }
                }
                assert forall|b: int| 0 <= b < i + 1 && (#[trigger] self.objects@[b])@ != name@ implies exists|a: int| 0 <= a < kept@.len() && kept@[a] == self.objects@[b] by {
                    if b < i {
                        let a = choose|a: int| 0 <= a < before.len() && before[a] == self.objects@[b];
                        assert(kept@[a] == before[a]);
                    } else {
                        assert(kept@[before.len() as int] == self.objects@[b]);
                    }
                }
            }
            i = i + 1;
        }
        let ghost q0 = *self;
        let ghost kv = kept@;
        self.objects = kept;
        proof {
            assert forall|m: Seq<char>| #[trigger] members(*self).contains(m) == members(q0).remove(name@).contains(m) by {
                if members(*self).contains(m) {
                    let a = choose|a: int| 0 <= a < kv.len() && kv[a]@ == m;
                    let b = choose|b: int| 0 <= b < i && q0.objects@[b] == #[trigger] kv[a];
                    assert(q0.objects@[b]@ == m);
                }
                if members(q0).remove(name@).contains(m) {
                    let b = choose|b: int| 0 <= b < q0.objects@.len() && q0.objects@[b]@ == m;
                    let a = choose|a: int| 0 <= a < kv.len() && kv[a] == q0.objects@[b];
                    assert(self.objects@[a]@ == m);
                }
            }
            assert(members(*self) =~= members(q0).remove(name@));
        }
    }
    /// Whether `name` is inside the query.
    pub fn has_object(&self, name: &String) -> (r: bool)
        ensures
            r == members(*self).contains(name@),
    {
        let mut i: usize = 0;
        while i < self.objects.len()
            invariant
                i <= self.objects@.len(),
                forall|k: int| 0 <= k < i ==> self.objects@[k]@ != name@,
            decreases self.objects@.len() - i,
        {
            if self.objects[i] == *name {
                return true;
            }
            i = i + 1;
        }
        false
    }
}


/// The messages that the removal of the object `o` sends to a client with
/// queries `qs`: one per query that holds the name.
pub open spec fn remove_messages(qs: Seq<Query>, o: Object) -> Seq<Message>
    decreases qs.len(),
{
    if qs.len() == 0 {
        Seq::<Message>::empty()
    } else {
        let prev = remove_messages(qs.drop_last(), o);
        if members(qs.last()).contains(o.name@) {
            prev.push(Message::QueryRemove { query_id: qs.last().id, object: o })
        } else {
            prev
        }
    }
}

/// A client after the removal of the object `o`: no query holds its name,
/// and the client got `remove_messages`.
pub open spec fn client_after_remove(c: ClientState, c2: ClientState, o: Object) -> bool {
    &&& same_client(c, c2)
    &&& forall|j: int|
        0 <= j < c.queries@.len() ==> members(#[trigger] c2.queries@[j]) == members(c.queries@[j]).remove(o.name@)
    &&& c2.inbox@ == c.inbox@ + remove_messages(c.queries@, o)
}

/// `m` is the event `event` with `data` on the object `name`, for the query `q`.
pub open spec fn is_event_for(m: Message, q: Query, name: Seq<char>, event: Seq<char>, data: serde_json::Value) -> bool {
    m matches Message::QueryEvent { query_id, object, event: e, data: d } && query_id == q.id && object@ == name
        && e@ == event && d == data
}

/// `ms` are the messages that the event sends to a client with queries `qs`:
/// one per query that holds the name, in the order of the queries.
pub open spec fn event_messages(
    qs: Seq<Query>,
    ms: Seq<Message>,
    name: Seq<char>,
    event: Seq<char>,
    data: serde_json::Value,
) -> bool
    decreases qs.len(),
{
    if qs.len() == 0 {
        ms.len() == 0
    } else if members(qs.last()).contains(name) {
        ms.len() > 0 && is_event_for(ms.last(), qs.last(), name, event, data) && event_messages(
            qs.drop_last(),
            ms.drop_last(),
            name,
            event,
            data,
        )
    } else {
        event_messages(qs.drop_last(), ms, name, event, data)
    }
}

/// A client after the event: only its inbox changed, by `event_messages`.
pub open spec fn client_after_event(
    c: ClientState,
    c2: ClientState,
    name: Seq<char>,
    event: Seq<char>,
    data: serde_json::Value,
) -> bool {
    &&& c2.id == c.id
    &&& c2.queries == c.queries
    &&& c2.invocations == c.invocations
    &&& c2.disconnect_commands == c.disconnect_commands
    &&& c2.next_stream_index == c.next_stream_index
    &&& c2.streams == c.streams
    &&& c2.inbox@.len() >= c.inbox@.len()
    &&& c2.inbox@.take(c.inbox@.len() as int) == c.inbox@
    &&& event_messages(c.queries@, c2.inbox@.skip(c.inbox@.len() as int), name, event, data)
}


/// `objs` is the snapshot of `store` under `pattern`: each stored object whose
/// name the pattern matches, once.
pub open spec fn snapshot(objs: Seq<Object>, store: Map<Seq<char>, Object>, pattern: Pattern) -> bool {
    &&& names_unique(objs)
    &&& forall|i: int|
        0 <= i < objs.len() ==> store.contains_key(#[trigger] objs[i].name@) && store[objs[i].name@] == objs[i]
            && pattern.accepts(objs[i].name@)
    &&& forall|n: Seq<char>|
        store.contains_key(n) && pattern.accepts(n) ==> exists|i: int| 0 <= i < objs.len() && #[trigger] objs[i].name@ == n
}


/// `c2` is `c` but for its inbox.
pub open spec fn same_but_inbox(c: ClientState, c2: ClientState) -> bool {
    &&& c2.id == c.id
    &&& c2.queries == c.queries
    &&& c2.invocations == c.invocations
    &&& c2.disconnect_commands == c.disconnect_commands
    &&& c2.next_stream_index == c.next_stream_index
    &&& c2.streams == c.streams
}

/// The failures that the withdrawn calls `invs` send to the client `id`: one
/// per call that it made, in order.
pub open spec fn failure_messages(invs: Seq<Invocation>, id: Id) -> Seq<Message>
    decreases invs.len(),
{
    if invs.len() == 0 {
        Seq::<Message>::empty()
    } else {
        let prev = failure_messages(invs.drop_last(), id);
        if invs.last().client_id == id {
            prev.push(
                Message::InvocationResult {
                    request_id: invs.last().request_id,
                    result: Err(Error::ObjectNotInvocable),
                },
            )
        } else {
            prev
        }
    }
}


/// `c` holds a query that answers calls and holds `name`.
pub open spec fn is_provider(c: ClientState, name: Seq<char>) -> bool {
    exists|j: int| 0 <= j < c.queries@.len() && #[trigger] c.queries@[j].provide_rpc && members(c.queries@[j]).contains(name)
}

/// `j` is the first query of `c` that answers calls and holds `name`.
pub open spec fn first_providing_query(c: ClientState, name: Seq<char>, j: int) -> bool {
    &&& 0 <= j < c.queries@.len()
    &&& c.queries@[j].provide_rpc && members(c.queries@[j]).contains(name)
    &&& forall|k: int| 0 <= k < j ==> !(#[trigger] c.queries@[k].provide_rpc && members(c.queries@[k]).contains(name))
}

/// `m` is the call of `method` with `args` on `object`, for the query `query_id`.
pub open spec fn is_call(m: Message, query_id: Id, invocation_id: Id, object: Seq<char>, method: Seq<char>, args: serde_json::Value) -> bool {
    m matches Message::QueryInvocation { query_id: q, invocation_id: i, object: o, method: mm, args: a }
        && q == query_id && i == invocation_id && o@ == object && mm@ == method && a == args
}

/// The position of the first query in `qs` with identifier `id`.
pub open spec fn first_query_with_id(qs: Seq<Query>, id: Id, k: int) -> bool {
    0 <= k < qs.len() && qs[k].id == id && forall|j: int| 0 <= j < k ==> (#[trigger] qs[j]).id != id
}

/// The position of the first call in `invs` with identifier `id`.
pub open spec fn first_invocation_with_id(invs: Seq<Invocation>, id: Id, k: int) -> bool {
    0 <= k < invs.len() && invs[k].id == id && forall|j: int| 0 <= j < k ==> (#[trigger] invs[j]).id != id
}


/// The four bytes of `x`, least significant first.
pub open spec fn le_bytes(x: u32) -> Seq<u8> {
    seq![(x % 256) as u8, ((x / 256) % 256) as u8, ((x / 65536) % 256) as u8, ((x / 16777216) % 256) as u8]
}

/// The frame a stream delivers: the receiver's index as four little-endian
/// bytes, then the payload.
pub open spec fn stream_frame(index: ClientStreamIndex, data: Seq<u8>) -> Seq<u8> {
    le_bytes(index.0) + data
}

/// Writes `x` as four little-endian bytes.
pub fn u32_le_bytes(x: u32) -> (r: Vec<u8>)
    ensures
        r@ == le_bytes(x),
{
    let r = vec![(x % 256) as u8, ((x / 256) % 256) as u8, ((x / 65536) % 256) as u8, ((x / 16777216) % 256) as u8];
    assert(r@ =~= le_bytes(x));
    r
}

/// The stream that a client's stream list gives the number `index` first.
pub open spec fn lookup_index(entries: Seq<(ClientStreamIndex, StreamId)>, index: ClientStreamIndex) -> Option<StreamId>
    decreases entries.len(),
{
    if entries.len() == 0 {
        None
    } else if entries[0].0 == index {
        Some(entries[0].1)
    } else {
        lookup_index(entries.skip(1), index)
    }
}

/// The entries of a client's stream list without those numbered `index`.
pub open spec fn without_index(entries: Seq<(ClientStreamIndex, StreamId)>, index: ClientStreamIndex) -> Seq<(ClientStreamIndex, StreamId)>
    decreases entries.len(),
{
    if entries.len() == 0 {
        entries
    } else if entries.last().0 == index {
        without_index(entries.drop_last(), index)
    } else {
        without_index(entries.drop_last(), index).push(entries.last())
    }
}

/// The endpoint of `s` that is not (`client_id`, `index`), if (`client_id`,
/// `index`) is one of its endpoints and the other is there.
pub open spec fn other_end(s: StreamState, client_id: Id, index: ClientStreamIndex) -> Option<StreamClient> {
    if s.client_a.client_id == client_id && s.client_a.stream_index == index {
        s.client_b
    } else if s.client_b matches Some(b) && b.client_id == client_id && b.stream_index == index {
        Some(s.client_a)
    } else {
        None
    }
}

/// What closing the stream `s` does to the client `c`: each of its endpoints
/// on `c` leaves `c`'s stream list, and `c` is told, endpoint `a` first.
pub open spec fn client_after_close(c: ClientState, c2: ClientState, s: StreamState) -> bool {
    let on_a = s.client_a.client_id == c.id;
    let on_b = s.client_b matches Some(b) && b.client_id == c.id;
    let after_a = if on_a { without_index(c.streams@, s.client_a.stream_index) } else { c.streams@ };
    &&& c2.id == c.id
    &&& c2.queries == c.queries
    &&& c2.invocations == c.invocations
    &&& c2.disconnect_commands == c.disconnect_commands
    &&& c2.next_stream_index == c.next_stream_index
    &&& c2.streams@ == if on_b { without_index(after_a, s.client_b.unwrap().stream_index) } else { after_a }
    &&& c2.inbox@ == c.inbox@ + (if on_a {
        seq![Message::StreamClosed { index: s.client_a.stream_index }]
    } else {
        Seq::<Message>::empty()
    }) + (if on_b {
        seq![Message::StreamClosed { index: s.client_b.unwrap().stream_index }]
    } else {
        Seq::<Message>::empty()
    })
}



/// (`client_id`, `index`) is one of the endpoints of `s`.
pub open spec fn is_endpoint(s: StreamState, client_id: Id, index: ClientStreamIndex) -> bool {
    (s.client_a.client_id == client_id && s.client_a.stream_index == index) || (s.client_b matches Some(b)
        && b.client_id == client_id && b.stream_index == index)
}

/// The table has a stream with the identifier of `entry`, of which the
/// client `client_id` under the number of `entry` is an endpoint.
pub open spec fn names_stream(table: Seq<StreamState>, client_id: Id, entry: (ClientStreamIndex, StreamId)) -> bool {
    exists|k: int| 0 <= k < table.len() && (#[trigger] table[k]).id == entry.1 && is_endpoint(table[k], client_id, entry.0)
}

/// The stream lists of the clients and the stream table agree: each entry
/// of a client's list names a stream of which that client and number are an
/// endpoint; each endpoint whose client is connected is listed there; each
/// client's numbers are distinct and below its next number; and every
/// endpoint names a client identifier that was handed out.
pub open spec fn streams_linked(clients: Seq<ClientState>, table: Seq<StreamState>, serial: u64) -> bool {
    &&& forall|i: int, e: int|
        0 <= i < clients.len() && 0 <= e < clients[i].streams@.len() ==> names_stream(
            table,
            clients[i].id,
            #[trigger] clients[i].streams@[e],
        )
    &&& forall|k: int, i: int|
        0 <= k < table.len() && 0 <= i < clients.len() && (#[trigger] clients[i]).id == (#[trigger] table[k]).client_a.client_id
            ==> clients[i].streams@.contains((table[k].client_a.stream_index, table[k].id))
    &&& forall|k: int, i: int|
        0 <= k < table.len() && 0 <= i < clients.len() && (#[trigger] table[k]).client_b is Some
            && (#[trigger] clients[i]).id == table[k].client_b.unwrap().client_id
            ==> clients[i].streams@.contains((table[k].client_b.unwrap().stream_index, table[k].id))
    &&& forall|i: int, e: int|
        0 <= i < clients.len() && 0 <= e < clients[i].streams@.len() ==> (#[trigger] clients[i].streams@[e]).0.0
            < clients[i].next_stream_index
    &&& forall|i: int, e1: int, e2: int|
        0 <= i < clients.len() && 0 <= e1 < clients[i].streams@.len() && 0 <= e2 < clients[i].streams@.len() && e1 != e2
            ==> (#[trigger] clients[i].streams@[e1]).0 != (#[trigger] clients[i].streams@[e2]).0
    &&& forall|k: int|
        0 <= k < table.len() ==> (#[trigger] table[k]).client_a.client_id.lo < serial && (table[k].client_b is Some
            ==> table[k].client_b.unwrap().client_id.lo < serial)
}


/// Each number stands at most once in a client's stream list.
pub open spec fn indices_unique(q: Seq<(ClientStreamIndex, StreamId)>) -> bool {
    forall|e1: int, e2: int| 0 <= e1 < q.len() && 0 <= e2 < q.len() && e1 != e2 ==> (#[trigger] q[e1]).0 != (#[trigger] q[e2]).0
}

proof fn lemma_without_index(q: Seq<(ClientStreamIndex, StreamId)>, x: ClientStreamIndex)
    ensures
        forall|j: int| 0 <= j < without_index(q, x).len() ==> q.contains(#[trigger] without_index(q, x)[j]) && without_index(q, x)[j].0 != x,
        forall|e: (ClientStreamIndex, StreamId)| q.contains(e) && e.0 != x ==> #[trigger] without_index(q, x).contains(e),
        indices_unique(q) ==> indices_unique(without_index(q, x)),
    decreases q.len(),
{
    if q.len() > 0 {
        let p = q.drop_last();
        lemma_without_index(p, x);
        let w = without_index(q, x);
        let wp = without_index(p, x);
        assert forall|j: int| 0 <= j < w.len() implies q.contains(#[trigger] w[j]) && w[j].0 != x by {
            if q.last().0 == x || j < wp.len() {
                assert(w[j] == wp[j]);
                let pos = choose|pos: int| 0 <= pos < p.len() && p[pos] == wp[j];
                assert(q[pos] == w[j]);
            } else {
                assert(q[q.len() - 1] == w[j]);
            }
        }
        assert forall|e: (ClientStreamIndex, StreamId)| q.contains(e) && e.0 != x implies #[trigger] w.contains(e) by {
            let pos = choose|pos: int| 0 <= pos < q.len() && q[pos] == e;
            if pos < q.len() - 1 {
                assert(p[pos] == e);
                assert(wp.contains(e));
                let j = choose|j: int| 0 <= j < wp.len() && wp[j] == e;
                assert(w[j] == e);
            } else {
                assert(w[w.len() - 1] == e);
            }
        }
        if indices_unique(q) {
            assert(indices_unique(p)) by {
                assert forall|e1: int, e2: int| 0 <= e1 < p.len() && 0 <= e2 < p.len() && e1 != e2 implies (#[trigger] p[e1]).0 != (#[trigger] p[e2]).0 by {
                    assert(p[e1] == q[e1]);
                    assert(p[e2] == q[e2]);
                }
            }
            assert forall|e1: int, e2: int| 0 <= e1 < w.len() && 0 <= e2 < w.len() && e1 != e2 implies (#[trigger] w[e1]).0 != (#[trigger] w[e2]).0 by {
                if q.last().0 != x && (e1 == wp.len() || e2 == wp.len()) {
                    let other = if e1 == wp.len() { e2 } else { e1 };
                    assert(w[other] == wp[other]);
                    let pos = choose|pos: int| 0 <= pos < p.len() && p[pos] == wp[other];
                    assert(q[pos] == wp[other]);
                    assert(q[q.len() - 1] == q.last());
                } else {
                    assert(w[e1] == wp[e1]);
                    assert(w[e2] == wp[e2]);
                }
            }
        }
    }
}

proof fn lemma_entry_unique(q: Seq<(ClientStreamIndex, StreamId)>, x: (ClientStreamIndex, StreamId), y: (ClientStreamIndex, StreamId))
    requires
        indices_unique(q),
        q.contains(x),
        q.contains(y),
        x.0 == y.0,
    ensures
        x == y,
{
    let a = choose|a: int| 0 <= a < q.len() && q[a] == x;
    let b = choose|b: int| 0 <= b < q.len() && q[b] == y;
    if a != b {
        assert(q[a].0 != q[b].0);
    }
}

proof fn lemma_links_unique(c: Seq<ClientState>, t: Seq<StreamState>, serial: u64, i: int)
    requires
        streams_linked(c, t, serial),
        0 <= i < c.len(),
    ensures
        indices_unique(c[i].streams@),
{
    assert forall|e1: int, e2: int| 0 <= e1 < c[i].streams@.len() && 0 <= e2 < c[i].streams@.len() && e1 != e2 implies (#[trigger] c[i].streams@[e1]).0 != (#[trigger] c[i].streams@[e2]).0 by {
    }
}


proof fn lemma_links_create(
    c1: Seq<ClientState>,
    t1: Seq<StreamState>,
    s1: u64,
    c2: Seq<ClientState>,
    t2: Seq<StreamState>,
    s2: u64,
    p: int,
    st: StreamState,
)
    requires
        streams_linked(c1, t1, s1),
        s1 <= s2,
        forall|i: int, j: int| 0 <= i < c1.len() && 0 <= j < c1.len() && i != j ==> #[trigger] c1[i].id != #[trigger] c1[j].id,
        0 <= p < c1.len(),
        c1.len() == c2.len(),
        forall|i: int|
            0 <= i < c1.len() && i != p ==> (#[trigger] c2[i]).id == c1[i].id && c2[i].streams == c1[i].streams
                && c2[i].next_stream_index == c1[i].next_stream_index,
        c2[p].id == c1[p].id,
        st.client_a == (StreamClient { client_id: c1[p].id, stream_index: ClientStreamIndex(c1[p].next_stream_index) }),
        st.client_b is None,
        c2[p].next_stream_index == c1[p].next_stream_index + 1,
        c2[p].streams@ == c1[p].streams@.push((st.client_a.stream_index, st.id)),
        t2 == t1.push(st),
        forall|k: int| 0 <= k < t1.len() ==> (#[trigger] t1[k]).id != st.id,
        c1[p].id.lo < s2,
    ensures
        streams_linked(c2, t2, s2),
{
    let n = t1.len() as int;
    assert(t2[n] == st);
    assert forall|i: int, e: int| 0 <= i < c2.len() && 0 <= e < c2[i].streams@.len() implies names_stream(t2, c2[i].id, #[trigger] c2[i].streams@[e]) by {
        if i == p && e == c1[p].streams@.len() {
            assert(is_endpoint(t2[n], c2[i].id, c2[i].streams@[e].0));
        } else {
            assert(c2[i].streams@[e] == c1[i].streams@[e]);
            assert(names_stream(t1, c1[i].id, c1[i].streams@[e]));
            let k = choose|k: int| 0 <= k < t1.len() && (#[trigger] t1[k]).id == c1[i].streams@[e].1 && is_endpoint(t1[k], c1[i].id, c1[i].streams@[e].0);
            assert(t2[k] == t1[k]);
        }
    }
    assert forall|k: int, i: int|
        0 <= k < t2.len() && 0 <= i < c2.len() && (#[trigger] c2[i]).id == (#[trigger] t2[k]).client_a.client_id
            implies c2[i].streams@.contains((t2[k].client_a.stream_index, t2[k].id)) by {
        if k == n {
            if i != p {
                assert(c1[i].id != c1[p].id);
            }
            assert(c2[p].streams@[c1[p].streams@.len() as int] == (st.client_a.stream_index, st.id));
        } else {
            assert(t2[k] == t1[k]);
            if i != p {
                assert(c1[i].id == c2[i].id);
            }
            assert(c1[i].streams@.contains((t1[k].client_a.stream_index, t1[k].id)));
            if i == p {
                let e = choose|e: int| 0 <= e < c1[p].streams@.len() && c1[p].streams@[e] == (t1[k].client_a.stream_index, t1[k].id);
                assert(c2[p].streams@[e] == c1[p].streams@[e]);
            }
        }
    }
    assert forall|k: int, i: int|
        0 <= k < t2.len() && 0 <= i < c2.len() && (#[trigger] t2[k]).client_b is Some && (#[trigger] c2[i]).id
            == t2[k].client_b.unwrap().client_id implies c2[i].streams@.contains((t2[k].client_b.unwrap().stream_index, t2[k].id)) by {
        assert(k != n);
        assert(t2[k] == t1[k]);
        if i != p {
            assert(c1[i].id == c2[i].id);
        }
        assert(c1[i].streams@.contains((t1[k].client_b.unwrap().stream_index, t1[k].id)));
        if i == p {
            let e = choose|e: int| 0 <= e < c1[p].streams@.len() && c1[p].streams@[e] == (t1[k].client_b.unwrap().stream_index, t1[k].id);
            assert(c2[p].streams@[e] == c1[p].streams@[e]);
        }
    }
    assert forall|i: int, e: int| 0 <= i < c2.len() && 0 <= e < c2[i].streams@.len() implies (#[trigger] c2[i].streams@[e]).0.0
        < c2[i].next_stream_index by {
        if !(i == p && e == c1[p].streams@.len()) {
            assert(c2[i].streams@[e] == c1[i].streams@[e]);
        }
    }
    assert forall|i: int, e1: int, e2: int|
        0 <= i < c2.len() && 0 <= e1 < c2[i].streams@.len() && 0 <= e2 < c2[i].streams@.len() && e1 != e2
            implies (#[trigger] c2[i].streams@[e1]).0 != (#[trigger] c2[i].streams@[e2]).0 by {
        let m = c1[i].streams@.len() as int;
        if i == p && (e1 == m || e2 == m) {
            let other = if e1 == m { e2 } else { e1 };
            assert(c2[i].streams@[other] == c1[i].streams@[other]);
        } else {
            assert(c2[i].streams@[e1] == c1[i].streams@[e1]);
            assert(c2[i].streams@[e2] == c1[i].streams@[e2]);
        }
    }
    assert forall|k: int| 0 <= k < t2.len() implies (#[trigger] t2[k]).client_a.client_id.lo < s2 && (t2[k].client_b is Some
        ==> t2[k].client_b.unwrap().client_id.lo < s2) by {
        if k < n {
            assert(t2[k] == t1[k]);
        }
    }
}

proof fn lemma_links_open(
    c1: Seq<ClientState>,
    t1: Seq<StreamState>,
    s1: u64,
    c2: Seq<ClientState>,
    t2: Seq<StreamState>,
    p: int,
    k: int,
    index: ClientStreamIndex,
)
    requires
        streams_linked(c1, t1, s1),
        forall|i: int, j: int| 0 <= i < c1.len() && 0 <= j < c1.len() && i != j ==> #[trigger] c1[i].id != #[trigger] c1[j].id,
        0 <= p < c1.len(),
        0 <= k < t1.len(),
        c1.len() == c2.len(),
        forall|i: int|
            0 <= i < c1.len() && i != p ==> (#[trigger] c2[i]).id == c1[i].id && c2[i].streams == c1[i].streams
                && c2[i].next_stream_index == c1[i].next_stream_index,
        c2[p].id == c1[p].id,
        index.0 == c1[p].next_stream_index,
        c2[p].next_stream_index == c1[p].next_stream_index + 1,
        c2[p].streams@ == c1[p].streams@.push((index, t1[k].id)),
        t1[k].client_b is None,
        t2 == t1.update(k, StreamState { id: t1[k].id, client_a: t1[k].client_a, client_b: Some(StreamClient { client_id: c1[p].id, stream_index: index }) }),
        c1[p].id.lo < s1,
    ensures
        streams_linked(c2, t2, s1),
{
    assert forall|i: int, e: int| 0 <= i < c2.len() && 0 <= e < c2[i].streams@.len() implies names_stream(t2, c2[i].id, #[trigger] c2[i].streams@[e]) by {
        if i == p && e == c1[p].streams@.len() {
            assert(is_endpoint(t2[k], c2[i].id, c2[i].streams@[e].0));
        } else {
            assert(c2[i].streams@[e] == c1[i].streams@[e]);
            assert(names_stream(t1, c1[i].id, c1[i].streams@[e]));
            let k2 = choose|k2: int| 0 <= k2 < t1.len() && (#[trigger] t1[k2]).id == c1[i].streams@[e].1 && is_endpoint(t1[k2], c1[i].id, c1[i].streams@[e].0);
            if k2 == k {
                assert(is_endpoint(t2[k], c1[i].id, c1[i].streams@[e].0));
            } else {
                assert(t2[k2] == t1[k2]);
            }
        }
    }
    assert forall|k2: int, i: int|
        0 <= k2 < t2.len() && 0 <= i < c2.len() && (#[trigger] c2[i]).id == (#[trigger] t2[k2]).client_a.client_id
            implies c2[i].streams@.contains((t2[k2].client_a.stream_index, t2[k2].id)) by {
        assert(t2[k2].client_a == t1[k2].client_a && t2[k2].id == t1[k2].id);
        if i != p {
            assert(c1[i].id == c2[i].id);
        }
        assert(c1[i].streams@.contains((t1[k2].client_a.stream_index, t1[k2].id)));
        if i == p {
            let e = choose|e: int| 0 <= e < c1[p].streams@.len() && c1[p].streams@[e] == (t1[k2].client_a.stream_index, t1[k2].id);
            assert(c2[p].streams@[e] == c1[p].streams@[e]);
        }
    }
    assert forall|k2: int, i: int|
        0 <= k2 < t2.len() && 0 <= i < c2.len() && (#[trigger] t2[k2]).client_b is Some && (#[trigger] c2[i]).id
            == t2[k2].client_b.unwrap().client_id implies c2[i].streams@.contains((t2[k2].client_b.unwrap().stream_index, t2[k2].id)) by {
        if k2 == k {
            if i != p {
                assert(c1[i].id != c1[p].id);
            }
            assert(c2[p].streams@[c1[p].streams@.len() as int] == (index, t1[k].id));
        } else {
            assert(t2[k2] == t1[k2]);
            if i != p {
                assert(c1[i].id == c2[i].id);
            }
            assert(c1[i].streams@.contains((t1[k2].client_b.unwrap().stream_index, t1[k2].id)));
            if i == p {
                let e = choose|e: int| 0 <= e < c1[p].streams@.len() && c1[p].streams@[e] == (t1[k2].client_b.unwrap().stream_index, t1[k2].id);
                assert(c2[p].streams@[e] == c1[p].streams@[e]);
            }
        }
    }
    assert forall|i: int, e: int| 0 <= i < c2.len() && 0 <= e < c2[i].streams@.len() implies (#[trigger] c2[i].streams@[e]).0.0
        < c2[i].next_stream_index by {
        if !(i == p && e == c1[p].streams@.len()) {
            assert(c2[i].streams@[e] == c1[i].streams@[e]);
        }
    }
    assert forall|i: int, e1: int, e2: int|
        0 <= i < c2.len() && 0 <= e1 < c2[i].streams@.len() && 0 <= e2 < c2[i].streams@.len() && e1 != e2
            implies (#[trigger] c2[i].streams@[e1]).0 != (#[trigger] c2[i].streams@[e2]).0 by {
        let m = c1[i].streams@.len() as int;
        if i == p && (e1 == m || e2 == m) {
            let other = if e1 == m { e2 } else { e1 };
            assert(c2[i].streams@[other] == c1[i].streams@[other]);
        } else {
            assert(c2[i].streams@[e1] == c1[i].streams@[e1]);
            assert(c2[i].streams@[e2] == c1[i].streams@[e2]);
        }
    }
    assert forall|k2: int| 0 <= k2 < t2.len() implies (#[trigger] t2[k2]).client_a.client_id.lo < s1 && (t2[k2].client_b is Some
        ==> t2[k2].client_b.unwrap().client_id.lo < s1) by {
        if k2 != k {
            assert(t2[k2] == t1[k2]);
        } else {
            assert(t1[k].client_a.client_id.lo < s1);
        }
    }
}


proof fn lemma_close_list(c: ClientState, c2: ClientState, st: StreamState)
    requires
        client_after_close(c, c2, st),
        indices_unique(c.streams@),
    ensures
        forall|j: int|
            0 <= j < c2.streams@.len() ==> c.streams@.contains(#[trigger] c2.streams@[j]) && (st.client_a.client_id == c.id
                ==> c2.streams@[j].0 != st.client_a.stream_index) && (st.client_b matches Some(b) && b.client_id == c.id
                ==> c2.streams@[j].0 != st.client_b.unwrap().stream_index),
        forall|e: (ClientStreamIndex, StreamId)|
            c.streams@.contains(e) && (st.client_a.client_id == c.id ==> e.0 != st.client_a.stream_index) && (
            st.client_b matches Some(b) && b.client_id == c.id ==> e.0 != st.client_b.unwrap().stream_index)
                ==> #[trigger] c2.streams@.contains(e),
        indices_unique(c2.streams@),
{
    let on_a = st.client_a.client_id == c.id;
    let on_b = st.client_b matches Some(b) && b.client_id == c.id;
    let after_a = if on_a { without_index(c.streams@, st.client_a.stream_index) } else { c.streams@ };
    if on_a {
        lemma_without_index(c.streams@, st.client_a.stream_index);
    }
    assert(indices_unique(after_a));
    if on_b {
        lemma_without_index(after_a, st.client_b.unwrap().stream_index);
        assert forall|j: int| 0 <= j < c2.streams@.len() implies c.streams@.contains(#[trigger] c2.streams@[j]) && (on_a
            ==> c2.streams@[j].0 != st.client_a.stream_index) by {
            assert(after_a.contains(c2.streams@[j]));
            if on_a {
                let q = choose|q: int| 0 <= q < after_a.len() && after_a[q] == c2.streams@[j];
            }
        }
        assert forall|e: (ClientStreamIndex, StreamId)|
            c.streams@.contains(e) && (on_a ==> e.0 != st.client_a.stream_index) && (on_b ==> e.0 != st.client_b.unwrap().stream_index)
                implies #[trigger] c2.streams@.contains(e) by {
            assert(after_a.contains(e));
        }
    }
}

proof fn lemma_links_close(c1: Seq<ClientState>, t1: Seq<StreamState>, s: u64, k: int, c2: Seq<ClientState>, t2: Seq<StreamState>)
    requires
        streams_linked(c1, t1, s),
        forall|i: int, j: int| 0 <= i < c1.len() && 0 <= j < c1.len() && i != j ==> #[trigger] c1[i].id != #[trigger] c1[j].id,
        forall|i: int, j: int| 0 <= i < t1.len() && 0 <= j < t1.len() && i != j ==> #[trigger] t1[i].id != #[trigger] t1[j].id,
        0 <= k < t1.len(),
        t2 == t1.remove(k),
        c1.len() == c2.len(),
        forall|i: int| 0 <= i < c1.len() ==> client_after_close(#[trigger] c1[i], c2[i], t1[k]),
    ensures
        streams_linked(c2, t2, s),
{
    let st = t1[k];
    assert forall|i: int| 0 <= i < c1.len() implies indices_unique((#[trigger] c1[i]).streams@) by {
        lemma_links_unique(c1, t1, s, i);
    }
    assert forall|i: int, e: int| 0 <= i < c2.len() && 0 <= e < c2[i].streams@.len() implies names_stream(t2, c2[i].id, #[trigger] c2[i].streams@[e]) by {
        assert(client_after_close(c1[i], c2[i], st));
        lemma_close_list(c1[i], c2[i], st);
        let x = c2[i].streams@[e];
        let ep = choose|ep: int| 0 <= ep < c1[i].streams@.len() && c1[i].streams@[ep] == x;
        assert(names_stream(t1, c1[i].id, c1[i].streams@[ep]));
        let k1 = choose|k1: int| 0 <= k1 < t1.len() && (#[trigger] t1[k1]).id == x.1 && is_endpoint(t1[k1], c1[i].id, x.0);
        assert(k1 != k);
        let k2 = if k1 < k { k1 } else { k1 - 1 };
        assert(t2[k2] == t1[k1]);
    }
    assert forall|k2: int, i: int|
        0 <= k2 < t2.len() && 0 <= i < c2.len() && (#[trigger] c2[i]).id == (#[trigger] t2[k2]).client_a.client_id
            implies c2[i].streams@.contains((t2[k2].client_a.stream_index, t2[k2].id)) by {
        let j = if k2 < k { k2 } else { k2 + 1 };
        assert(t2[k2] == t1[j]);
        assert(client_after_close(c1[i], c2[i], st));
        lemma_close_list(c1[i], c2[i], st);
        let x = (t1[j].client_a.stream_index, t1[j].id);
        assert(c1[i].streams@.contains(x));
        if st.client_a.client_id == c1[i].id && x.0 == st.client_a.stream_index {
            assert(c1[i].streams@.contains((st.client_a.stream_index, st.id)));
            lemma_entry_unique(c1[i].streams@, x, (st.client_a.stream_index, st.id));
        }
        if st.client_b matches Some(b) && b.client_id == c1[i].id && x.0 == st.client_b.unwrap().stream_index {
            assert(c1[i].streams@.contains((st.client_b.unwrap().stream_index, st.id)));
            lemma_entry_unique(c1[i].streams@, x, (st.client_b.unwrap().stream_index, st.id));
        }
    }
    assert forall|k2: int, i: int|
        0 <= k2 < t2.len() && 0 <= i < c2.len() && (#[trigger] t2[k2]).client_b is Some && (#[trigger] c2[i]).id
            == t2[k2].client_b.unwrap().client_id implies c2[i].streams@.contains((t2[k2].client_b.unwrap().stream_index, t2[k2].id)) by {
        let j = if k2 < k { k2 } else { k2 + 1 };
        assert(t2[k2] == t1[j]);
        assert(client_after_close(c1[i], c2[i], st));
        lemma_close_list(c1[i], c2[i], st);
        let x = (t1[j].client_b.unwrap().stream_index, t1[j].id);
        assert(c1[i].streams@.contains(x));
        if st.client_a.client_id == c1[i].id && x.0 == st.client_a.stream_index {
            assert(c1[i].streams@.contains((st.client_a.stream_index, st.id)));
            lemma_entry_unique(c1[i].streams@, x, (st.client_a.stream_index, st.id));
        }
        if st.client_b matches Some(b) && b.client_id == c1[i].id && x.0 == st.client_b.unwrap().stream_index {
            assert(c1[i].streams@.contains((st.client_b.unwrap().stream_index, st.id)));
            lemma_entry_unique(c1[i].streams@, x, (st.client_b.unwrap().stream_index, st.id));
        }
    }
    assert forall|i: int, e: int| 0 <= i < c2.len() && 0 <= e < c2[i].streams@.len() implies (#[trigger] c2[i].streams@[e]).0.0
        < c2[i].next_stream_index by {
        assert(client_after_close(c1[i], c2[i], st));
        lemma_close_list(c1[i], c2[i], st);
        let ep = choose|ep: int| 0 <= ep < c1[i].streams@.len() && c1[i].streams@[ep] == c2[i].streams@[e];
    }
    assert forall|i: int, e1: int, e2: int|
        0 <= i < c2.len() && 0 <= e1 < c2[i].streams@.len() && 0 <= e2 < c2[i].streams@.len() && e1 != e2
            implies (#[trigger] c2[i].streams@[e1]).0 != (#[trigger] c2[i].streams@[e2]).0 by {
        assert(client_after_close(c1[i], c2[i], st));
        lemma_close_list(c1[i], c2[i], st);
    }
    assert forall|k2: int| 0 <= k2 < t2.len() implies (#[trigger] t2[k2]).client_a.client_id.lo < s && (t2[k2].client_b is Some
        ==> t2[k2].client_b.unwrap().client_id.lo < s) by {
        let j = if k2 < k { k2 } else { k2 + 1 };
        assert(t2[k2] == t1[j]);
    }
}

proof fn lemma_links_frame(c1: Seq<ClientState>, c2: Seq<ClientState>, t: Seq<StreamState>, s1: u64, s2: u64)
    requires
        streams_linked(c1, t, s1),
        s1 <= s2,
        c1.len() == c2.len(),
        forall|i: int|
            0 <= i < c1.len() ==> (#[trigger] c2[i]).id == c1[i].id && c2[i].streams == c1[i].streams
                && c2[i].next_stream_index == c1[i].next_stream_index,
    ensures
        streams_linked(c2, t, s2),
{
    assert forall|i: int, e: int| 0 <= i < c2.len() && 0 <= e < c2[i].streams@.len() implies names_stream(
        t,
        c2[i].id,
        #[trigger] c2[i].streams@[e],
    ) by {
        assert(c2[i].streams == c1[i].streams);
        assert(c1[i].streams@[e] == c2[i].streams@[e]);
        assert(names_stream(t, c1[i].id, c1[i].streams@[e]));
    }
    assert forall|k: int, i: int|
        0 <= k < t.len() && 0 <= i < c2.len() && (#[trigger] c2[i]).id == (#[trigger] t[k]).client_a.client_id
            implies c2[i].streams@.contains((t[k].client_a.stream_index, t[k].id)) by {
        assert(c1[i].id == c2[i].id);
    }
    assert forall|k: int, i: int|
        0 <= k < t.len() && 0 <= i < c2.len() && (#[trigger] t[k]).client_b is Some && (#[trigger] c2[i]).id
            == t[k].client_b.unwrap().client_id implies c2[i].streams@.contains((t[k].client_b.unwrap().stream_index, t[k].id)) by {
        assert(c1[i].id == c2[i].id);
    }
    assert forall|i: int, e: int| 0 <= i < c2.len() && 0 <= e < c2[i].streams@.len() implies (#[trigger] c2[i].streams@[e]).0.0
        < c2[i].next_stream_index by {
        assert(c1[i].streams@[e] == c2[i].streams@[e]);
    }
    assert forall|i: int, e1: int, e2: int|
        0 <= i < c2.len() && 0 <= e1 < c2[i].streams@.len() && 0 <= e2 < c2[i].streams@.len() && e1 != e2
            implies (#[trigger] c2[i].streams@[e1]).0 != (#[trigger] c2[i].streams@[e2]).0 by {
        assert(c1[i].streams@[e1] == c2[i].streams@[e1]);
        assert(c1[i].streams@[e2] == c2[i].streams@[e2]);
    }
}


/// Every query and every waiting call has its own identifier, handed out
/// before the serial number `serial`.
pub open spec fn ids_fresh(c: Seq<ClientState>, serial: u64) -> bool {
    &&& forall|i: int, j: int|
        0 <= i < c.len() && 0 <= j < c[i].queries@.len() ==> (#[trigger] c[i].queries@[j]).id.lo < serial
    &&& forall|i: int, j: int|
        0 <= i < c.len() && 0 <= j < c[i].invocations@.len() ==> (#[trigger] c[i].invocations@[j]).id.lo < serial
    &&& forall|i1: int, j1: int, i2: int, j2: int|
        0 <= i1 < c.len() && 0 <= j1 < c[i1].queries@.len() && 0 <= i2 < c.len() && 0 <= j2 < c[i2].queries@.len()
            && (i1 != i2 || j1 != j2) ==> (#[trigger] c[i1].queries@[j1]).id != (#[trigger] c[i2].queries@[j2]).id
    &&& forall|i1: int, j1: int, i2: int, j2: int|
        0 <= i1 < c.len() && 0 <= j1 < c[i1].invocations@.len() && 0 <= i2 < c.len() && 0 <= j2
            < c[i2].invocations@.len() && (i1 != i2 || j1 != j2) ==> (#[trigger] c[i1].invocations@[j1]).id
            != (#[trigger] c[i2].invocations@[j2]).id
}

/// The queries and calls of `c2` are those of `c1`, by position, under the
/// same identifiers.
pub open spec fn same_ids(c1: Seq<ClientState>, c2: Seq<ClientState>) -> bool {
    &&& c1.len() == c2.len()
    &&& forall|i: int| 0 <= i < c1.len() ==> {
        &&& (#[trigger] c2[i]).queries@.len() == c1[i].queries@.len()
        &&& c2[i].invocations@.len() == c1[i].invocations@.len()
        &&& forall|j: int| 0 <= j < c1[i].queries@.len() ==> (#[trigger] c2[i].queries@[j]).id == c1[i].queries@[j].id
        &&& forall|j: int| 0 <= j < c1[i].invocations@.len() ==> (#[trigger] c2[i].invocations@[j]).id == c1[i].invocations@[j].id
    }
}

proof fn lemma_ids_frame(c1: Seq<ClientState>, c2: Seq<ClientState>, s1: u64, s2: u64)
    requires
        ids_fresh(c1, s1),
        same_ids(c1, c2),
        s1 <= s2,
    ensures
        ids_fresh(c2, s2),
{
    assert forall|i: int, j: int| 0 <= i < c2.len() && 0 <= j < c2[i].queries@.len() implies (#[trigger] c2[i].queries@[j]).id.lo < s2 by {
        assert(c2[i].queries@[j].id == c1[i].queries@[j].id);
    }
    assert forall|i: int, j: int| 0 <= i < c2.len() && 0 <= j < c2[i].invocations@.len() implies (#[trigger] c2[i].invocations@[j]).id.lo < s2 by {
        assert(c2[i].invocations@[j].id == c1[i].invocations@[j].id);
    }
    assert forall|i1: int, j1: int, i2: int, j2: int|
        0 <= i1 < c2.len() && 0 <= j1 < c2[i1].queries@.len() && 0 <= i2 < c2.len() && 0 <= j2 < c2[i2].queries@.len()
            && (i1 != i2 || j1 != j2) implies (#[trigger] c2[i1].queries@[j1]).id != (#[trigger] c2[i2].queries@[j2]).id by {
        assert(c2[i1].queries@[j1].id == c1[i1].queries@[j1].id);
        assert(c2[i2].queries@[j2].id == c1[i2].queries@[j2].id);
    }
    assert forall|i1: int, j1: int, i2: int, j2: int|
        0 <= i1 < c2.len() && 0 <= j1 < c2[i1].invocations@.len() && 0 <= i2 < c2.len() && 0 <= j2
            < c2[i2].invocations@.len() && (i1 != i2 || j1 != j2) implies (#[trigger] c2[i1].invocations@[j1]).id
            != (#[trigger] c2[i2].invocations@[j2]).id by {
        assert(c2[i1].invocations@[j1].id == c1[i1].invocations@[j1].id);
        assert(c2[i2].invocations@[j2].id == c1[i2].invocations@[j2].id);
    }
}

impl StreamState {
    /// The other endpoint, seen from the endpoint (`client_id`, `stream_index`).
    pub fn get_other(&self, client_id: &Id, stream_index: &ClientStreamIndex) -> (r: Option<StreamClient>)
        ensures
            r == other_end(*self, *client_id, *stream_index),
    {
        if self.client_a.client_id == *client_id && self.client_a.stream_index == *stream_index {
            return self.client_b;
        }
        if let Some(b) = self.client_b {
            if b.client_id == *client_id && b.stream_index == *stream_index {
                return Some(self.client_a);
            }
        }
        None
    }
}


/// `ss` goes from its first server to its last by closing the streams `ids`
/// one after another.
pub open spec fn closes_in_order(ss: Seq<Server>, ids: Seq<StreamId>) -> bool {
    &&& ss.len() == ids.len() + 1
    &&& forall|j: int| 0 <= j < ids.len() ==> (#[trigger] ss[j + 1]).after_close_id(ss[j], ids[j])
}

/// `ss` goes from its first server to its last by running the commands
/// `cmds` one after another for the client `client_id`.
pub open spec fn commands_in_order(ss: Seq<Server>, cmds: Seq<Command>, client_id: Id) -> bool {
    &&& ss.len() == cmds.len() + 1
    &&& forall|j: int| 0 <= j < cmds.len() ==> (#[trigger] ss[j + 1]).after_command(ss[j], cmds[j], client_id)
}

/// The stream identifiers of a client's stream list, in order.
pub open spec fn listed_ids(entries: Seq<(ClientStreamIndex, StreamId)>) -> Seq<StreamId> {
    entries.map_values(|e: (ClientStreamIndex, StreamId)| e.1)
}

impl ClientState {

    /// The stream the client numbers `index`.
    pub fn stream_of(&self, index: ClientStreamIndex) -> (r: Option<StreamId>)
        ensures
            r == lookup_index(self.streams@, index),
    {
        let mut k: usize = 0;
        assert(self.streams@.skip(0) =~= self.streams@);
        while k < self.streams.len()
            invariant
                k <= self.streams@.len(),
                lookup_index(self.streams@, index) == lookup_index(self.streams@.skip(k as int), index),
            decreases self.streams@.len() - k,
        {
            assert(self.streams@.skip(k as int).skip(1) =~= self.streams@.skip(k + 1));
            assert(self.streams@.skip(k as int)[0] == self.streams@[k as int]);
            if self.streams[k].0 == index {
                return Some(self.streams[k].1);
            }
            k = k + 1;
        }
        assert(self.streams@.skip(k as int).len() == 0);
        None
    }

    /// Takes the entries numbered `index` out of the stream list, and tells the client.
    fn detach_stream(&mut self, index: ClientStreamIndex)
        ensures
            final(self).id == old(self).id,
            final(self).queries == old(self).queries,
            final(self).invocations == old(self).invocations,
            final(self).disconnect_commands == old(self).disconnect_commands,
            final(self).next_stream_index == old(self).next_stream_index,
            final(self).streams@ == without_index(old(self).streams@, index),
            final(self).inbox@ == old(self).inbox@.push(Message::StreamClosed { index }),
    {
        let mut kept: Vec<(ClientStreamIndex, StreamId)> = Vec::new();
        let mut k: usize = 0;
        while k < self.streams.len()
            invariant
                k <= self.streams@.len(),
                self.streams == old(self).streams,
                kept@ == without_index(self.streams@.take(k as int), index),
            decreases self.streams@.len() - k,
        {
            assert(self.streams@.take(k + 1).drop_last() =~= self.streams@.take(k as int));
            if self.streams[k].0 != index {
                kept.push(self.streams[k]);
            }
            k = k + 1;
        }
        assert(self.streams@.take(k as int) =~= self.streams@);
        self.streams = kept;
        self.inbox.push(Message::StreamClosed { index });
    }

    /// The first query that answers calls and holds `name`.
    fn providing_query(&self, name: &String) -> (r: Option<usize>)
        ensures
            match r {
                Some(j) => first_providing_query(*self, name@, j as int),
                None => !is_provider(*self, name@),
            },
    {
        let mut j: usize = 0;
        while j < self.queries.len()
            invariant
                j <= self.queries@.len(),
                forall|k: int| 0 <= k < j ==> !(#[trigger] self.queries@[k].provide_rpc && members(self.queries@[k]).contains(name@)),
            decreases self.queries@.len() - j,
        {
            if self.queries[j].provide_rpc && self.queries[j].has_object(name) {
                return Some(j);
            }
            j = j + 1;
        }
        None
    }

    fn fanout_remove(&mut self, name: &String, object: &Object)
        requires
            object.name@ == name@,
        ensures
            client_after_remove(*old(self), *final(self), *object),
    {
        let ghost start = *self;
        let mut j: usize = 0;
        while j < self.queries.len()
            invariant
                j <= self.queries@.len(),
                object.name@ == name@,
                same_client(start, *self),
                forall|k: int| j <= k < self.queries@.len() ==> #[trigger] self.queries@[k] == start.queries@[k],
                forall|k: int|
                    0 <= k < j ==> members(#[trigger] self.queries@[k]) == members(start.queries@[k]).remove(name@),
                self.inbox@ == start.inbox@ + remove_messages(start.queries@.take(j as int), *object),
            decreases self.queries@.len() - j,
        {
            assert(start.queries@.take(j + 1).drop_last() =~= start.queries@.take(j as int));
            if self.queries[j].has_object(name) {
                let query_id = self.queries[j].id;
                self.inbox.push(Message::QueryRemove { query_id, object: object.clone() });
                self.queries[j].remove_object(name);
            } else {
                assert(members(start.queries@[j as int]).remove(name@) =~= members(start.queries@[j as int]));
            }
            j = j + 1;
            assert(self.inbox@ =~= start.inbox@ + remove_messages(start.queries@.take(j as int), *object));
        }
        assert(start.queries@.take(j as int) =~= start.queries@);
    }

    fn fanout_event(&mut self, name: &String, event: &String, data: &serde_json::Value)
        ensures
            client_after_event(*old(self), *final(self), name@, event@, *data),
    {
        let ghost start = *self;
        let mut j: usize = 0;
        while j < self.queries.len()
            invariant
                j <= self.queries@.len(),
                self.id == start.id,
                self.queries == start.queries,
                self.invocations == start.invocations,
                self.disconnect_commands == start.disconnect_commands,
                self.next_stream_index == start.next_stream_index,
                self.streams == start.streams,
                self.inbox@.len() >= start.inbox@.len(),
                self.inbox@.take(start.inbox@.len() as int) == start.inbox@,
                event_messages(start.queries@.take(j as int), self.inbox@.skip(start.inbox@.len() as int), name@, event@, *data),
            decreases self.queries@.len() - j,
        {
            let ghost before = self.inbox@;
            assert(start.queries@.take(j + 1).drop_last() =~= start.queries@.take(j as int));
            if self.queries[j].has_object(name) {
                let query_id = self.queries[j].id;
                self.inbox.push(Message::QueryEvent { query_id, object: name.clone(), event: event.clone(), data: data.clone() });
                assert(self.inbox@.skip(start.inbox@.len() as int).drop_last() =~= before.skip(start.inbox@.len() as int));
                assert(self.inbox@.take(start.inbox@.len() as int) =~= before.take(start.inbox@.len() as int));
            }
            j = j + 1;
        }
        assert(start.queries@.take(j as int) =~= start.queries@);
    }
    fn fanout_upsert(&mut self, name: &String, object: &Object, existed: bool)
        requires
            forall|j: int|
                0 <= j < old(self).queries@.len() ==> (members(#[trigger] old(self).queries@[j]).contains(name@) <==> (
                existed && old(self).queries@[j].pattern.accepts(name@))),
        ensures
            client_after_upsert(*old(self), *final(self), name@, *object, existed),
    {
        let ghost start = *self;
        let mut j: usize = 0;
        while j < self.queries.len()
            invariant
                j <= self.queries@.len(),
                same_client(start, *self),
                forall|k: int|
                    0 <= k < start.queries@.len() ==> (members(#[trigger] start.queries@[k]).contains(name@) <==> (
                    existed && start.queries@[k].pattern.accepts(name@))),
                forall|k: int| j <= k < self.queries@.len() ==> #[trigger] self.queries@[k] == start.queries@[k],
                forall|k: int|
                    0 <= k < j ==> members(#[trigger] self.queries@[k]) == if start.queries@[k].pattern.accepts(name@) {
                        members(start.queries@[k]).insert(name@)
                    } else {
                        members(start.queries@[k])
                    },
                self.inbox@ == start.inbox@ + upsert_messages(start.queries@.take(j as int), name@, *object, existed),
            decreases self.queries@.len() - j,
        {
            assert(start.queries@.take(j + 1).drop_last() =~= start.queries@.take(j as int));
            if self.queries[j].pattern.matches(name) {
                let query_id = self.queries[j].id;
                let msg;
                if self.queries[j].has_object(name) {
                    assert(members(start.queries@[j as int]).insert(name@) =~= members(start.queries@[j as int]));
                    msg = Message::QueryChange { query_id, object: object.clone() };
                } else {
                    let ghost q0 = self.queries@[j as int];
                    self.queries[j].objects.push(name.clone());
                    proof {
                        lemma_members_push(q0, self.queries@[j as int], *name);
                    }
                    msg = Message::QueryAdd { query_id, object: object.clone() };
                }
                self.inbox.push(msg);
            }
            j = j + 1;
            assert(self.inbox@ =~= start.inbox@ + upsert_messages(start.queries@.take(j as int), name@, *object, existed));
        }
        assert(start.queries@.take(j as int) =~= start.queries@);
    }
}


/// Checks that clients may write the object `name`.
pub fn validate_object_name(name: &str) -> (r: Result<(), Error>)
    ensures
        r is Ok <==> valid_name(name@),
        r matches Err(e) ==> e == Error::InvalidObjectName,
{
    let cs = chars_of(name);
    if cs.len() == 0 || cs[0] == '$' {
        Err(Error::InvalidObjectName)
    } else {
        Ok(())
    }
}

/// A client record as `client_connect` makes it.
pub open spec fn fresh_client(c: ClientState, id: Id) -> bool {
    &&& c.id == id
    &&& c.queries@.len() == 0
    &&& c.invocations@.len() == 0
    &&& c.inbox@.len() == 0
    &&& c.disconnect_commands@.len() == 0
    &&& c.next_stream_index == 1
    &&& c.streams@.len() == 0
}

/// The last object of `stored` under each name wins.
pub open spec fn last_with_name(stored: Seq<Object>, i: int) -> bool {
    0 <= i < stored.len() && forall|j: int| i < j < stored.len() ==> stored[j].name@ != stored[i].name@
}

impl Server {
    /// A server whose store holds the reserved object, with `system_value`,
    /// and then each of `stored` (a later object replaces an earlier one of
    /// the same name).
    pub fn new(stored: Vec<Object>, system_value: serde_json::Value) -> (r: Server)
        ensures
            r.wf(),
            r.serial() == 0,
            r.ids_left(),
            r.store().contains_key(system_name()),
            r.clients().len() == 0,
            r.streams().len() == 0,
            r.log().len() == 0,
            r.changes().len() == 0,
            forall|n: Seq<char>|
                n != system_name() ==> (r.store().contains_key(n) <==> exists|i: int|
                    0 <= i < stored@.len() && #[trigger] stored@[i].name@ == n),
            forall|i: int| #[trigger] last_with_name(stored@, i) ==> r.store()[stored@[i].name@] == stored@[i],
            (forall|i: int| 0 <= i < stored@.len() ==> #[trigger] stored@[i].name@ != system_name())
                ==> r.store()[system_name()].value == system_value,
    {
        let sys = string_from_chars(&system_name_chars());
        let system = Object { name: sys, value: system_value, last_modified: now_micros() };
        let mut objects: Vec<Object> = Vec::new();
        proof {
            lemma_store_push(objects@, system);
        }
        objects.push(system);
        let mut server = Server {
            objects,
            clients: Vec::new(),
            streams: Vec::new(),
            next_serial: 0,
            log: Vec::new(),
            changes: Vec::new(),
        };
        let ghost all = stored@;
        let mut k: usize = 0;
        while k < stored.len()
            invariant
                stored@ == all,
                k <= all.len(),
                names_unique(server.objects@),
                server.clients@.len() == 0,
                server.streams@.len() == 0,
                server.log@.len() == 0,
                server.changes@.len() == 0,
                server.next_serial == 0,
                server.store().contains_key(system_name()),
                forall|n: Seq<char>|
                    n != system_name() ==> (server.store().contains_key(n) <==> exists|i: int|
                        0 <= i < k && #[trigger] all[i].name@ == n),
                forall|i: int|
                    0 <= i < k && (forall|j: int| i < j < k ==> all[j].name@ != all[i].name@)
                        ==> #[trigger] server.store()[all[i].name@] == all[i],
                (forall|i: int| 0 <= i < k ==> #[trigger] all[i].name@ != system_name())
                    ==> server.store()[system_name()].value == system_value,
            decreases all.len() - k,
        {
            let object = stored[k].clone();
            let ghost before = server.store();
            match server.find_object(&object.name) {
                Some(i) => {
                    proof {
                        lemma_store_index(server.objects@, i as int);
                        lemma_store_update(server.objects@, i as int, object);
                    }
                    server.objects.set(i, object.clone());
                },
                None => {
                    proof {
                        lemma_store_absent(server.objects@, object.name@);
                        lemma_store_push(server.objects@, object);
                    }
                    server.objects.push(object.clone());
                },
            }
            assert(server.store() == before.insert(object.name@, object));
            k = k + 1;
            assert forall|n: Seq<char>| n != system_name() implies (server.store().contains_key(n) <==> exists|i: int|
                0 <= i < k && #[trigger] all[i].name@ == n) by {
                if n == object.name@ {
                    assert(all[k - 1].name@ == n);
                } else if server.store().contains_key(n) {
                    let i = choose|i: int| 0 <= i < k - 1 && #[trigger] all[i].name@ == n;
                } else if exists|i: int| 0 <= i < k && #[trigger] all[i].name@ == n {
                    let i = choose|i: int| 0 <= i < k && #[trigger] all[i].name@ == n;
                    assert(i < k - 1);
                }
            }
            assert forall|i: int|
                0 <= i < k && (forall|j: int| i < j < k ==> all[j].name@ != all[i].name@) implies #[trigger] server.store()[all[i].name@]
                == all[i] by {
                if i < k - 1 {
                    assert(all[k - 1].name@ != all[i].name@);
                }
            }
        }
        proof {
            assert forall|i: int, j: int|
                0 <= i < server.clients@.len() && 0 <= j < server.clients@[i].queries@.len() implies query_in_sync(
                #[trigger] server.clients@[i].queries@[j],
                server.store(),
            ) by {}
        }
        server
    }

    /// The next identifier: random high bits, and a serial number that no
    /// earlier identifier had.
    fn fresh_id(&mut self) -> (r: Id)
        requires
            old(self).ids_left(),
        ensures
            r.lo == old(self).serial(),
            final(self).serial() == old(self).serial() + 1,
            final(self).objects == old(self).objects,
            final(self).clients == old(self).clients,
            final(self).streams == old(self).streams,
            final(self).log == old(self).log,
            final(self).changes == old(self).changes,
    {
        let lo = self.next_serial;
        self.next_serial = self.next_serial + 1;
        Id { hi: random_bits(), lo }
    }

    /// Connects a client: a new record with no queries, calls or streams, and
    /// stream numbering from 1.
    pub fn client_connect(&mut self) -> (r: Client)
        requires
            old(self).wf(),
            old(self).ids_left(),
        ensures
            final(self).wf(),
            !old(self).has_client(r.spec_id()),
            final(self).clients().len() == old(self).clients().len() + 1,
            final(self).clients().drop_last() == old(self).clients(),
            fresh_client(final(self).clients().last(), r.spec_id()),
            final(self).store() == old(self).store(),
            final(self).streams() == old(self).streams(),
            final(self).changes() == old(self).changes(),
            final(self).log() == old(self).log().push(LogMessage::ClientConnect { client: r.spec_id() }),
            final(self).serial() == old(self).serial() + 1,
            r.spec_id().lo == old(self).serial(),
    {
        let id = self.fresh_id();
        let (inbox, rx) = Inbox::open();
        let state = ClientState {
            id,
            queries: Vec::new(),
            invocations: Vec::new(),
            inbox,
            disconnect_commands: Vec::new(),
            next_stream_index: 1,
            streams: Vec::new(),
        };
        self.log.push(LogMessage::ClientConnect { client: id });
        self.clients.push(state);
        assert(self.clients@.drop_last() =~= old(self).clients@);
        Client::new(id, rx)
    }
}

impl Server {
    /// Writes `value` under `name` for `client`: the object is created or
    /// replaced, and every query whose pattern matches the name is told.
    pub fn set(&mut self, name: &str, value: serde_json::Value, client: &Client) -> (r: Result<(), Error>)
        requires
            old(self).wf(),
        ensures
            final(self).wf(),
            !valid_name(name@) ==> r == Err::<(), Error>(Error::InvalidObjectName) && *final(self) == *old(self),
            valid_name(name@) ==> {
                &&& r is Ok
                &&& final(self).after_upsert(*old(self), name@)
                &&& final(self).store()[name@].value == value
                &&& final(self).log().drop_last() == old(self).log()
                &&& final(self).log().last() matches LogMessage::SetObject { object, value: v, client: c }
                    && object@ == name@ && v == value && c == client.spec_id()
            },
    {
        if let Err(e) = validate_object_name(name) {
            return Err(e);
        }
        let name = name.to_owned();
        self.log.push(LogMessage::SetObject { object: name.clone(), value: value.clone(), client: client.id() });
        let existing = self.find_object(&name);
        self.upsert(&name, value, existing);
        Ok(())
    }

    /// Merges the top-level entries of the JSON object `value` into the
    /// object `name` for `client`, or creates it with `value`; every query
    /// whose pattern matches the name is told.
    pub fn patch(&mut self, name: &str, value: serde_json::Value, client: &Client) -> (r: Result<(), Error>)
        requires
            old(self).wf(),
        ensures
            final(self).wf(),
            !valid_name(name@) ==> r == Err::<(), Error>(Error::InvalidObjectName) && *final(self) == *old(self),
            valid_name(name@) && !old(self).patchable(name@, value) ==> r == Err::<(), Error>(Error::CantMergeObjects)
                && *final(self) == *old(self),
            valid_name(name@) && old(self).patchable(name@, value) ==> {
                &&& r is Ok
                &&& final(self).after_upsert(*old(self), name@)
                &&& old(self).patched(name@, value, final(self).store()[name@].value)
                &&& final(self).log().drop_last() == old(self).log()
                &&& final(self).log().last() matches LogMessage::PatchObject { object, value: v, client: c }
                    && object@ == name@ && v == value && c == client.spec_id()
            },
    {
        if let Err(e) = validate_object_name(name) {
            return Err(e);
        }
        let name = name.to_owned();
        let new_fields = match json_take_fields(value.clone()) {
            Ok(f) => f,
            Err(_) => {
                return Err(Error::CantMergeObjects);
            },
        };
        let existing = self.find_object(&name);
        let stored = match existing {
            None => value.clone(),
            Some(i) => {
                proof {
                    lemma_store_index(self.objects@, i as int);
                }
                let mut entries = match json_into_map(self.objects[i].value.clone()) {
                    Ok(m) => m,
                    Err(_) => {
                        return Err(Error::CantMergeObjects);
                    },
                };
                merge_into_object(&mut entries, new_fields);
                json_from_map(entries)
            },
        };
        proof {
            if existing is None {
                lemma_store_absent(self.objects@, name@);
            }
        }
        self.log.push(LogMessage::PatchObject { object: name.clone(), value, client: client.id() });
        self.upsert(&name, stored, existing);
        Ok(())
    }

    /// Whether a patch of `name` with `value` can be carried out: `value` is a
    /// JSON object, and so is the stored value of `name` if there is one.
    pub open spec fn patchable(&self, name: Seq<char>, value: serde_json::Value) -> bool {
        &&& json_object_entries(value) is Some
        &&& self.store().contains_key(name) ==> json_object_entries(self.store()[name].value) is Some
    }

    /// Whether `result` is what a patch of `name` with `value` leaves: `value`
    /// itself for a new object, else a JSON object with the stored entries
    /// and those of `value` written over them.
    pub open spec fn patched(&self, name: Seq<char>, value: serde_json::Value, result: serde_json::Value) -> bool {
        if self.store().contains_key(name) {
            json_object_entries(result) == Some(
                shallow_merge(
                    json_object_entries(self.store()[name].value).unwrap(),
                    json_object_entries(value).unwrap(),
                ),
            )
        } else {
            result == value
        }
    }

    /// The server after the object `name` was removed: each query that held
    /// the name got a remove message carrying the last value.
    pub open spec fn after_remove(&self, old: Server, name: Seq<char>) -> bool {
        let o = old.store()[name];
        &&& o.name@ == name
        &&& self.store() == old.store().remove(name)
        &&& self.clients().len() == old.clients().len()
        &&& forall|i: int| 0 <= i < old.clients().len() ==> client_after_remove(#[trigger] old.clients()[i], self.clients()[i], o)
        &&& self.streams() == old.streams()
        &&& self.serial() == old.serial()
        &&& self.changes() == old.changes().push(StorageChange::Delete(o))
    }

    /// The server after the event `event` with `data` on `name`: only inboxes changed.
    pub open spec fn after_event(&self, old: Server, name: Seq<char>, event: Seq<char>, data: serde_json::Value) -> bool {
        &&& self.store() == old.store()
        &&& self.clients().len() == old.clients().len()
        &&& forall|i: int|
            0 <= i < old.clients().len() ==> client_after_event(#[trigger] old.clients()[i], self.clients()[i], name, event, data)
        &&& self.streams() == old.streams()
        &&& self.serial() == old.serial()
        &&& self.changes() == old.changes()
    }

    /// Removes the object `name` for `client`; each query that held it is told.
    /// Says whether there was such an object.
    pub fn remove(&mut self, name: &str, client: &Client) -> (r: Result<bool, Error>)
        requires
            old(self).wf(),
        ensures
            final(self).wf(),
            !valid_name(name@) ==> r == Err::<bool, Error>(Error::InvalidObjectName) && *final(self) == *old(self),
            valid_name(name@) && !old(self).store().contains_key(name@) ==> r == Ok::<bool, Error>(false) && *final(self)
                == *old(self),
            valid_name(name@) && old(self).store().contains_key(name@) ==> {
                &&& r == Ok::<bool, Error>(true)
                &&& final(self).after_remove(*old(self), name@)
                &&& final(self).log().drop_last() == old(self).log()
                &&& final(self).log().last() matches LogMessage::RemoveObject { object, client: c }
                    && object@ == name@ && c == client.spec_id()
            },
    {
        if let Err(e) = validate_object_name(name) {
            return Err(e);
        }
        let name = name.to_owned();
        let i = match self.find_object(&name) {
            None => {
                proof {
                    lemma_store_absent(self.objects@, name@);
                }
                return Ok(false);
            },
            Some(i) => i,
        };
        let ghost start = *self;
        proof {
            lemma_store_index(self.objects@, i as int);
            lemma_store_remove(self.objects@, i as int);
        }
        let object = self.objects.remove(i);
        assert(self.store() == start.store().remove(name@));
        self.changes.push(StorageChange::Delete(object.clone()));
        self.log.push(LogMessage::RemoveObject { object: name.clone(), client: client.id() });
        let ghost mid = *self;
        let mut k: usize = 0;
        while k < self.clients.len()
            invariant
                k <= self.clients@.len(),
                self.clients@.len() == start.clients@.len(),
                mid.clients == start.clients,
                object.name@ == name@,
                self.objects == mid.objects,
                self.streams == mid.streams,
                self.next_serial == mid.next_serial,
                self.log == mid.log,
                self.changes == mid.changes,
                forall|a: int| 0 <= a < k ==> client_after_remove(#[trigger] start.clients@[a], self.clients@[a], object),
                forall|a: int| k <= a < self.clients@.len() ==> #[trigger] self.clients@[a] == start.clients@[a],
            decreases self.clients@.len() - k,
        {
            self.clients[k].fanout_remove(&name, &object);
            k = k + 1;
        }
        proof {
            assert forall|a: int| 0 <= a < start.clients@.len() implies (#[trigger] self.clients@[a]).id == start.clients@[a].id
                && self.clients@[a].streams == start.clients@[a].streams && self.clients@[a].next_stream_index
                == start.clients@[a].next_stream_index by {
                assert(client_after_remove(start.clients@[a], self.clients@[a], object));
            }
            lemma_links_frame(start.clients@, self.clients@, self.streams@, start.next_serial, self.next_serial);
            assert forall|a: int, b: int|
                0 <= a < self.clients@.len() && 0 <= b < self.clients@[a].queries@.len() implies query_in_sync(
                #[trigger] self.clients@[a].queries@[b],
                self.store(),
            ) by {
                assert(client_after_remove(start.clients@[a], self.clients@[a], object));
                assert(same_query(start.clients@[a].queries@[b], self.clients@[a].queries@[b]));
                assert(query_in_sync(start.clients@[a].queries@[b], start.store()));
            }
            assert forall|a: int, k: int|
                0 <= a < self.clients@.len() && 0 <= k < self.clients@[a].invocations@.len() implies provided_by(
                #[trigger] self.clients@[a].invocations@[k],
                self.clients@[a],
            ) by {
                assert(client_after_remove(start.clients@[a], self.clients@[a], object));
                lemma_provided_same(start.clients@[a], self.clients@[a], start.clients@[a].invocations@[k]);
            }
            assert forall|a: int, b: int|
                0 <= a < self.clients@.len() && 0 <= b < self.clients@.len() && a != b implies #[trigger] self.clients@[a].id
                != #[trigger] self.clients@[b].id by {
                assert(client_after_remove(start.clients@[a], self.clients@[a], object));
                assert(client_after_remove(start.clients@[b], self.clients@[b], object));
            }
            assert forall|a: int| 0 <= a < self.clients@.len() implies (#[trigger] self.clients@[a]).id.lo < self.next_serial by {
                assert(client_after_remove(start.clients@[a], self.clients@[a], object));
            }
        }
        Ok(true)
    }

    /// Sends the event to every query that holds `object`.
    fn internal_emit(&mut self, object: &String, event: &String, data: &serde_json::Value)
        requires
            old(self).wf(),
        ensures
            final(self).wf(),
            final(self).after_event(*old(self), object@, event@, *data),
            final(self).log() == old(self).log(),
    {
        let ghost start = *self;
        let mut k: usize = 0;
        while k < self.clients.len()
            invariant
                k <= self.clients@.len(),
                self.clients@.len() == start.clients@.len(),
                self.objects == start.objects,
                self.streams == start.streams,
                self.next_serial == start.next_serial,
                self.log == start.log,
                self.changes == start.changes,
                forall|a: int| 0 <= a < k ==> client_after_event(#[trigger] start.clients@[a], self.clients@[a], object@, event@, *data),
                forall|a: int| k <= a < self.clients@.len() ==> #[trigger] self.clients@[a] == start.clients@[a],
            decreases self.clients@.len() - k,
        {
            self.clients[k].fanout_event(object, event, data);
            k = k + 1;
        }
        proof {
            assert forall|a: int| 0 <= a < start.clients@.len() implies (#[trigger] self.clients@[a]).id == start.clients@[a].id
                && self.clients@[a].streams == start.clients@[a].streams && self.clients@[a].next_stream_index
                == start.clients@[a].next_stream_index by {
                assert(client_after_event(start.clients@[a], self.clients@[a], object@, event@, *data));
            }
            lemma_links_frame(start.clients@, self.clients@, self.streams@, start.next_serial, self.next_serial);
            assert forall|a: int, b: int|
                0 <= a < self.clients@.len() && 0 <= b < self.clients@[a].queries@.len() implies query_in_sync(
                #[trigger] self.clients@[a].queries@[b],
                self.store(),
            ) by {
                assert(client_after_event(start.clients@[a], self.clients@[a], object@, event@, *data));
                assert(query_in_sync(start.clients@[a].queries@[b], start.store()));
            }
            assert forall|a: int, k: int|
                0 <= a < self.clients@.len() && 0 <= k < self.clients@[a].invocations@.len() implies provided_by(
                #[trigger] self.clients@[a].invocations@[k],
                self.clients@[a],
            ) by {
                assert(client_after_event(start.clients@[a], self.clients@[a], object@, event@, *data));
            }
            assert forall|a: int, b: int|
                0 <= a < self.clients@.len() && 0 <= b < self.clients@.len() && a != b implies #[trigger] self.clients@[a].id
                != #[trigger] self.clients@[b].id by {
                assert(client_after_event(start.clients@[a], self.clients@[a], object@, event@, *data));
                assert(client_after_event(start.clients@[b], self.clients@[b], object@, event@, *data));
            }
            assert forall|a: int| 0 <= a < self.clients@.len() implies (#[trigger] self.clients@[a]).id.lo < self.next_serial by {
                assert(client_after_event(start.clients@[a], self.clients@[a], object@, event@, *data));
            }
        }
    }

    /// Sends the event `event` with `data` on the existing object `object` to
    /// every query that holds it, for `client`.
    pub fn emit(&mut self, object: &str, event: &str, data: serde_json::Value, client: &Client) -> (r: Result<(), Error>)
        requires
            old(self).wf(),
        ensures
            final(self).wf(),
            !valid_name(object@) ==> r == Err::<(), Error>(Error::InvalidObjectName) && *final(self) == *old(self),
            valid_name(object@) && !old(self).store().contains_key(object@) ==> r == Err::<(), Error>(
                Error::ObjectNotFound,
            ) && *final(self) == *old(self),
            valid_name(object@) && old(self).store().contains_key(object@) ==> {
                &&& r is Ok
                &&& final(self).after_event(*old(self), object@, event@, data)
                &&& final(self).log().drop_last() == old(self).log()
                &&& final(self).log().last() matches LogMessage::Emit { object: o, event: e, data: d, client: c }
                    && o@ == object@ && e@ == event@ && d == data && c == client.spec_id()
            },
    {
        if let Err(e) = validate_object_name(object) {
            return Err(e);
        }
        let object = object.to_owned();
        if self.find_object(&object).is_none() {
            proof {
                lemma_store_absent(self.objects@, object@);
            }
            return Err(Error::ObjectNotFound);
        }
        let event = event.to_owned();
        self.internal_emit(&object, &event, &data);
        self.log.push(LogMessage::Emit { object, event, data, client: client.id() });
        Ok(())
    }

    /// Sends the event `event` with `data` on the reserved object to every
    /// query that holds it: the path of the broker's own log records.
    pub fn emit_system(&mut self, event: &str, data: serde_json::Value)
        requires
            old(self).wf(),
        ensures
            final(self).wf(),
            final(self).after_event(*old(self), system_name(), event@, data),
            final(self).log() == old(self).log(),
    {
        let sys = string_from_chars(&system_name_chars());
        let event = event.to_owned();
        self.internal_emit(&sys, &event, &data);
    }

    /// The stored objects that `pattern` matches, each once.
    fn matching_objects(&self, pattern: &Pattern) -> (r: Vec<Object>)
        requires
            names_unique(self.objects@),
        ensures
            snapshot(r@, self.store(), *pattern),
    {
        let mut out: Vec<Object> = Vec::new();
        let ghost mut from: Seq<int> = Seq::empty();
        let mut i: usize = 0;
        while i < self.objects.len()
            invariant
                i <= self.objects@.len(),
                names_unique(self.objects@),
                from.len() == out@.len(),
                forall|a: int| 0 <= a < from.len() ==> 0 <= #[trigger] from[a] < i && out@[a] == self.objects@[from[a]],
                forall|a: int, b: int| 0 <= a < b < from.len() ==> #[trigger] from[a] < #[trigger] from[b],
                forall|a: int| 0 <= a < out@.len() ==> pattern.accepts(#[trigger] out@[a].name@),
                forall|k: int|
                    0 <= k < i && pattern.accepts(self.objects@[k].name@) ==> exists|a: int|
                        0 <= a < from.len() && #[trigger] from[a] == k,
            decreases self.objects@.len() - i,
        {
            let ghost prev = from;
            if pattern.matches(&self.objects[i].name) {
                out.push(self.objects[i].clone());
                proof {
                    from = from.push(i as int);
                    assert(from[from.len() - 1] == i as int);
                }
            }
            proof {
                assert forall|k: int| 0 <= k < i + 1 && pattern.accepts(self.objects@[k].name@) implies exists|a: int|
                    0 <= a < from.len() && #[trigger] from[a] == k by {
                    if k < i {
                        let a = choose|a: int| 0 <= a < prev.len() && #[trigger] prev[a] == k;
                        assert(from[a] == k);
                    } else {
                        assert(from[from.len() - 1] == k);
                    }
                }
            }
            i = i + 1;
        }
        proof {
            assert forall|a: int, b: int| 0 <= a < out@.len() && 0 <= b < out@.len() && a != b implies #[trigger] out@[a].name@
                != #[trigger] out@[b].name@ by {
                if a < b {
                    assert(from[a] < from[b]);
                } else {
                    assert(from[b] < from[a]);
                }
            }
            assert forall|a: int| 0 <= a < out@.len() implies self.store().contains_key(#[trigger] out@[a].name@)
                && self.store()[out@[a].name@] == out@[a] by {
                lemma_store_index(self.objects@, from[a]);
            }
            assert forall|n: Seq<char>| self.store().contains_key(n) && pattern.accepts(n) implies exists|a: int|
                0 <= a < out@.len() && #[trigger] out@[a].name@ == n by {
                let k = choose|k: int| 0 <= k < self.objects@.len() && self.objects@[k].name@ == n;
                let a = choose|a: int| 0 <= a < from.len() && #[trigger] from[a] == k;
                assert(out@[a].name@ == n);
            }
        }
        out
    }

    /// The objects that `pattern` matches, for `client`.
    pub fn get(&mut self, pattern: &Pattern, client: &Client) -> (r: Vec<Object>)
        requires
            old(self).wf(),
        ensures
            final(self).wf(),
            snapshot(r@, old(self).store(), *pattern),
            final(self).store() == old(self).store(),
            final(self).clients() == old(self).clients(),
            final(self).streams() == old(self).streams(),
            final(self).serial() == old(self).serial(),
            final(self).changes() == old(self).changes(),
            final(self).log().drop_last() == old(self).log(),
            final(self).log().last() matches LogMessage::Get { pattern: p, client: c }
                && p@ == pattern.text() && c == client.spec_id(),
    {
        self.log.push(LogMessage::Get { pattern: pattern.as_text().clone(), client: client.id() });
        self.matching_objects(pattern)
    }

    /// Subscribes `client` to the objects that `pattern` matches: a new query
    /// with a fresh identifier that holds the current matches, which are
    /// returned with it.
    pub fn query(&mut self, pattern: &Pattern, provide_rpc: bool, client: &Client) -> (r: Result<(Id, Vec<Object>), Error>)
        requires
            old(self).wf(),
            old(self).ids_left(),
        ensures
            final(self).wf(),
            !old(self).has_client(client.spec_id()) ==> r == Err::<(Id, Vec<Object>), Error>(Error::ClientNotFound)
                && *final(self) == *old(self),
            old(self).has_client(client.spec_id()) ==> (r matches Ok((qid, objs)) && {
                let p = old(self).client_pos(client.spec_id());
                let c = old(self).clients()[p];
                let c2 = final(self).clients()[p];
                let q = c2.queries@.last();
                &&& snapshot(objs@, old(self).store(), *pattern)
                &&& qid.lo == old(self).serial()
                &&& final(self).serial() == old(self).serial() + 1
                &&& final(self).store() == old(self).store()
                &&& final(self).streams() == old(self).streams()
                &&& final(self).changes() == old(self).changes()
                &&& final(self).clients().len() == old(self).clients().len()
                &&& forall|i: int| 0 <= i < old(self).clients().len() && i != p ==> #[trigger] final(self).clients()[i] == old(self).clients()[i]
                &&& c2.id == c.id && c2.invocations == c.invocations && c2.inbox == c.inbox
                &&& c2.disconnect_commands == c.disconnect_commands
                &&& c2.next_stream_index == c.next_stream_index && c2.streams == c.streams
                &&& c2.queries@.len() == c.queries@.len() + 1
                &&& c2.queries@.drop_last() == c.queries@
                &&& q.id == qid && q.provide_rpc == provide_rpc && q.pattern.text() == pattern.text()
                &&& forall|n: Seq<char>| #[trigger] q.pattern.accepts(n) == pattern.accepts(n)
                &&& members(q) == Set::new(|n: Seq<char>| old(self).store().contains_key(n) && pattern.accepts(n))
                &&& final(self).log().drop_last() == old(self).log()
                &&& final(self).log().last() matches LogMessage::Query { pattern: t, provide_rpc: b, query: qq, client: cc }
                    && t@ == pattern.text() && b == provide_rpc && qq == qid && cc == client.spec_id()
            }),
    {
        let p = match self.client_index(client.id()) {
            None => {
                return Err(Error::ClientNotFound);
            },
            Some(p) => p,
        };
        let ghost start = *self;
        let id = self.fresh_id();
        let objects = self.matching_objects(pattern);
        let mut names: Vec<String> = Vec::new();
        let mut k: usize = 0;
        while k < objects.len()
            invariant
                k <= objects@.len(),
                names@.len() == k,
                forall|a: int| 0 <= a < k ==> (#[trigger] names@[a])@ == objects@[a].name@,
            decreases objects@.len() - k,
        {
            names.push(objects[k].name.clone());
            k = k + 1;
        }
        let query = Query { id, pattern: pattern.clone(), provide_rpc, objects: names };
        proof {
            assert forall|n: Seq<char>| #[trigger] members(query).contains(n) == (start.store().contains_key(n) && pattern.accepts(n)) by {
                if members(query).contains(n) {
                    let a = choose|a: int| 0 <= a < query.objects@.len() && query.objects@[a]@ == n;
                    assert(objects@[a].name@ == n);
                }
                if start.store().contains_key(n) && pattern.accepts(n) {
                    let a = choose|a: int| 0 <= a < objects@.len() && #[trigger] objects@[a].name@ == n;
                    assert(query.objects@[a]@ == n);
                }
            }
            assert(members(query) =~= Set::new(|n: Seq<char>| start.store().contains_key(n) && pattern.accepts(n)));
        }
        self.clients[p].queries.push(query);
        self.log.push(LogMessage::Query { pattern: pattern.as_text().clone(), provide_rpc, query: id, client: client.id() });
        proof {
            assert(self.clients@[p as int].queries@.drop_last() =~= start.clients@[p as int].queries@);
            assert forall|a: int, b: int|
                0 <= a < self.clients@.len() && 0 <= b < self.clients@[a].queries@.len() implies query_in_sync(
                #[trigger] self.clients@[a].queries@[b],
                self.store(),
            ) by {
                if a != p as int || b < start.clients@[a].queries@.len() {
                    assert(self.clients@[a].queries@[b] == start.clients@[a].queries@[b]);
                }
            }
            assert forall|a: int, k: int|
                0 <= a < self.clients@.len() && 0 <= k < self.clients@[a].invocations@.len() implies provided_by(
                #[trigger] self.clients@[a].invocations@[k],
                self.clients@[a],
            ) by {
                let inv = self.clients@[a].invocations@[k];
                assert(provided_by(start.clients@[a].invocations@[k], start.clients@[a]));
                let j = choose|j: int| 0 <= j < start.clients@[a].queries@.len() && #[trigger] start.clients@[a].queries@[j].id == inv.query_id && start.clients@[a].queries@[j].provide_rpc;
                assert(self.clients@[a].queries@[j] == start.clients@[a].queries@[j]);
            }
        }
        Ok((id, objects))
    }

    /// Delivers a failure for each of the withdrawn calls `invs` to the
    /// client that made it, where that client is still connected.
    fn fail_invocations(&mut self, invs: &Vec<Invocation>)
        requires
            old(self).wf(),
        ensures
            final(self).wf(),
            final(self).store() == old(self).store(),
            final(self).streams() == old(self).streams(),
            final(self).serial() == old(self).serial(),
            final(self).changes() == old(self).changes(),
            final(self).log() == old(self).log(),
            final(self).clients().len() == old(self).clients().len(),
            forall|i: int|
                0 <= i < old(self).clients().len() ==> same_but_inbox(#[trigger] old(self).clients()[i], final(self).clients()[i])
                    && final(self).clients()[i].inbox@ == old(self).clients()[i].inbox@ + failure_messages(
                    invs@,
                    old(self).clients()[i].id,
                ),
    {
        let ghost start = *self;
        let mut k: usize = 0;
        while k < invs.len()
            invariant
                k <= invs@.len(),
                start.wf(),
                self.clients@.len() == start.clients@.len(),
                self.objects == start.objects,
                self.streams == start.streams,
                self.next_serial == start.next_serial,
                self.log == start.log,
                self.changes == start.changes,
                forall|i: int|
                    0 <= i < start.clients@.len() ==> same_but_inbox(#[trigger] start.clients@[i], self.clients@[i])
                        && self.clients@[i].inbox@ == start.clients@[i].inbox@ + failure_messages(
                        invs@.take(k as int),
                        start.clients@[i].id,
                    ),
            decreases invs@.len() - k,
        {
            assert(invs@.take(k + 1).drop_last() =~= invs@.take(k as int));
            let ghost before = *self;
            match self.client_index(invs[k].client_id) {
                Some(p) => {
                    let msg = Message::InvocationResult {
                        request_id: invs[k].request_id.clone(),
                        result: Err(Error::ObjectNotInvocable),
                    };
                    self.clients[p].inbox.push(msg);
                    proof {
                        assert forall|i: int| 0 <= i < start.clients@.len() implies same_but_inbox(#[trigger] start.clients@[i], self.clients@[i])
                            && self.clients@[i].inbox@ == start.clients@[i].inbox@ + failure_messages(invs@.take(k + 1), start.clients@[i].id) by {
                            assert(same_but_inbox(start.clients@[i], before.clients@[i]));
                            if i == p as int {
                                assert(self.clients@[i].inbox@ =~= start.clients@[i].inbox@ + failure_messages(invs@.take(k + 1), start.clients@[i].id));
                            } else {
                                assert(same_but_inbox(start.clients@[p as int], before.clients@[p as int]));
                                assert(start.clients@[i].id != start.clients@[p as int].id);
                            }
                        }
                    }
                },
                None => {
                    proof {
                        assert forall|i: int| 0 <= i < start.clients@.len() implies same_but_inbox(#[trigger] start.clients@[i], self.clients@[i])
                            && self.clients@[i].inbox@ == start.clients@[i].inbox@ + failure_messages(invs@.take(k + 1), start.clients@[i].id) by {
                            assert(same_but_inbox(start.clients@[i], before.clients@[i]));
                            assert(before.clients()[i].id == before.clients@[i].id);
                            assert(before.clients@[i].id != invs@[k as int].client_id);
                        }
                    }
                },
            }
            k = k + 1;
        }
        assert(invs@.take(k as int) =~= invs@);
        proof {
            assert forall|a: int| 0 <= a < start.clients@.len() implies (#[trigger] self.clients@[a]).id == start.clients@[a].id
                && self.clients@[a].streams == start.clients@[a].streams && self.clients@[a].next_stream_index
                == start.clients@[a].next_stream_index by {
                assert(same_but_inbox(start.clients@[a], self.clients@[a]));
            }
            lemma_links_frame(start.clients@, self.clients@, self.streams@, start.next_serial, self.next_serial);
            assert forall|a: int, b: int|
                0 <= a < self.clients@.len() && 0 <= b < self.clients@[a].queries@.len() implies query_in_sync(
                #[trigger] self.clients@[a].queries@[b],
                self.store(),
            ) by {
                assert(same_but_inbox(start.clients@[a], self.clients@[a]));
                assert(query_in_sync(start.clients@[a].queries@[b], start.store()));
            }
            assert forall|a: int, k: int|
                0 <= a < self.clients@.len() && 0 <= k < self.clients@[a].invocations@.len() implies provided_by(
                #[trigger] self.clients@[a].invocations@[k],
                self.clients@[a],
            ) by {
                assert(same_but_inbox(start.clients@[a], self.clients@[a]));
                assert(provided_by(start.clients@[a].invocations@[k], start.clients@[a]));
            }
            assert forall|a: int, b: int|
                0 <= a < self.clients@.len() && 0 <= b < self.clients@.len() && a != b implies #[trigger] self.clients@[a].id
                != #[trigger] self.clients@[b].id by {
                assert(same_but_inbox(start.clients@[a], self.clients@[a]));
                assert(same_but_inbox(start.clients@[b], self.clients@[b]));
            }
            assert forall|a: int| 0 <= a < self.clients@.len() implies (#[trigger] self.clients@[a]).id.lo < self.next_serial by {
                assert(same_but_inbox(start.clients@[a], self.clients@[a]));
            }
        }
    }

    /// The server after the call of `method` with `args` on `object`, made by
    /// `caller` under `request_id`, went to the first provider in scan order:
    /// that client holds one more invocation and got one call message; no
    /// other client changed.
    pub open spec fn after_invoke(
        &self,
        old: Server,
        object: Seq<char>,
        method: Seq<char>,
        args: serde_json::Value,
        request_id: serde_json::Value,
        caller: Id,
    ) -> bool {
        &&& self.clients().len() == old.clients().len()
        &&& exists|p: int, j: int| {
            &&& 0 <= p < old.clients().len()
            &&& forall|i: int| 0 <= i < p ==> !is_provider(#[trigger] old.clients()[i], object)
            &&& first_providing_query(old.clients()[p], object, j)
            &&& forall|i: int| 0 <= i < old.clients().len() && i != p ==> #[trigger] self.clients()[i]
                == old.clients()[i]
            &&& {
                let c = old.clients()[p];
                let c2 = self.clients()[p];
                let inv = c2.invocations@.last();
                &&& c2.id == c.id && c2.queries == c.queries && c2.disconnect_commands == c.disconnect_commands
                &&& c2.next_stream_index == c.next_stream_index && c2.streams == c.streams
                &&& c2.invocations@.drop_last() == c.invocations@ && c2.invocations@.len() == c.invocations@.len() + 1
                &&& inv.id.lo == old.serial() && inv.client_id == caller
                &&& inv.request_id == request_id && inv.query_id == c.queries@[j].id
                &&& c2.inbox@.drop_last() == c.inbox@ && c2.inbox@.len() == c.inbox@.len() + 1
                &&& is_call(c2.inbox@.last(), c.queries@[j].id, inv.id, object, method, args)
            }
        }
    }

    /// Withdraws the query `query_id` of `client`; each call that was routed
    /// through it fails, and its caller is told.
    pub fn unsubscribe(&mut self, query_id: Id, client: &Client) -> (r: Result<(), Error>)
        requires
            old(self).wf(),
        ensures
            final(self).wf(),
            !old(self).has_client(client.spec_id()) ==> r == Err::<(), Error>(Error::ClientNotFound) && *final(self)
                == *old(self),
            old(self).has_client(client.spec_id()) && !(exists|k: int|
                first_query_with_id(old(self).clients()[old(self).client_pos(client.spec_id())].queries@, query_id, k))
                ==> r == Err::<(), Error>(Error::QueryNotFound) && *final(self) == *old(self),
            old(self).has_client(client.spec_id()) && (exists|k: int|
                first_query_with_id(old(self).clients()[old(self).client_pos(client.spec_id())].queries@, query_id, k))
                ==> {
                let p = old(self).client_pos(client.spec_id());
                let c = old(self).clients()[p];
                let c2 = final(self).clients()[p];
                let failed = routed_through(c.invocations@, query_id);
                &&& r is Ok
                &&& exists|k: int| #[trigger] first_query_with_id(c.queries@, query_id, k) && c2.queries@ == c.queries@.remove(k)
                &&& c2.invocations@ == routed_elsewhere(c.invocations@, query_id)
                &&& c2.id == c.id && c2.disconnect_commands == c.disconnect_commands
                &&& c2.next_stream_index == c.next_stream_index && c2.streams == c.streams
                &&& final(self).clients().len() == old(self).clients().len()
                &&& forall|i: int| 0 <= i < old(self).clients().len() && i != p ==> same_but_inbox(#[trigger] old(self).clients()[i], final(self).clients()[i])
                &&& forall|i: int| 0 <= i < old(self).clients().len() ==> #[trigger] final(self).clients()[i].inbox@
                    == old(self).clients()[i].inbox@ + failure_messages(failed, old(self).clients()[i].id)
                &&& final(self).store() == old(self).store()
                &&& final(self).streams() == old(self).streams()
                &&& final(self).serial() == old(self).serial()
                &&& final(self).changes() == old(self).changes()
                &&& final(self).log() == old(self).log().push(LogMessage::Unsubscribe { query: query_id, client: client.spec_id() })
            },
    {
        let p = match self.client_index(client.id()) {
            None => {
                return Err(Error::ClientNotFound);
            },
            Some(p) => p,
        };
        let ghost start = *self;
        proof {
            self.lemma_client_pos(p as int);
        }
        let mut k: usize = 0;
        while k < self.clients[p].queries.len() && self.clients[p].queries[k].id != query_id
            invariant
                p < self.clients@.len(),
                k <= self.clients@[p as int].queries@.len(),
                forall|j: int| 0 <= j < k ==> (#[trigger] self.clients@[p as int].queries@[j]).id != query_id,
            decreases self.clients@[p as int].queries@.len() - k,
        {
            k = k + 1;
        }
        if k == self.clients[p].queries.len() {
            proof {
                if exists|k2: int| first_query_with_id(self.clients@[p as int].queries@, query_id, k2) {
                    let k2 = choose|k2: int| first_query_with_id(self.clients@[p as int].queries@, query_id, k2);
                    assert(self.clients@[p as int].queries@[k2].id != query_id);
                }
            }
            return Err(Error::QueryNotFound);
        }
        assert(first_query_with_id(start.clients@[p as int].queries@, query_id, k as int));
        self.clients[p].queries.remove(k);
        let mut invs: Vec<Invocation> = Vec::new();
        std::mem::swap(&mut invs, &mut self.clients[p].invocations);
        let ghost orig = invs@;
        let total = invs.len();
        let mut kept: Vec<Invocation> = Vec::new();
        let mut failed: Vec<Invocation> = Vec::new();
        let mut n: usize = 0;
        while invs.len() > 0
            invariant
                n <= orig.len(),
                orig.len() == total,
                n + invs@.len() == orig.len(),
                invs@ == orig.skip(n as int),
                kept@ == routed_elsewhere(orig.take(n as int), query_id),
                failed@ == routed_through(orig.take(n as int), query_id),
            decreases invs@.len(),
        {
            assert(orig.take(n + 1).drop_last() =~= orig.take(n as int));
            let inv = invs.remove(0);
            assert(orig.take(n + 1).last() == inv);
            if inv.query_id == query_id {
                failed.push(inv);
            } else {
                kept.push(inv);
            }
            n = n + 1;
            assert(invs@ =~= orig.skip(n as int));
        }
        assert(orig.take(n as int) =~= orig);
        self.clients[p].invocations = kept;
        self.log.push(LogMessage::Unsubscribe { query: query_id, client: client.id() });
        proof {
            let c = start.clients@[p as int];
            let c2 = self.clients@[p as int];
            assert(self.clients@[p as int].queries@ == c.queries@.remove(k as int));
            assert forall|a: int, b: int|
                0 <= a < self.clients@.len() && 0 <= b < self.clients@[a].queries@.len() implies query_in_sync(
                #[trigger] self.clients@[a].queries@[b],
                self.store(),
            ) by {
                if a == p as int {
                    let b2 = if b < k { b } else { b + 1 };
                    assert(c2.queries@[b] == c.queries@[b2]);
                    assert(query_in_sync(c.queries@[b2], start.store()));
                } else {
                    assert(query_in_sync(start.clients@[a].queries@[b], start.store()));
                }
            }
            assert forall|a: int, m: int|
                0 <= a < self.clients@.len() && 0 <= m < self.clients@[a].invocations@.len() implies provided_by(
                #[trigger] self.clients@[a].invocations@[m],
                self.clients@[a],
            ) by {
                if a == p as int {
                    let inv = c2.invocations@[m];
                    lemma_routed_elsewhere_from(orig, query_id, m);
                    let m2 = choose|m2: int| 0 <= m2 < orig.len() && orig[m2] == inv;
                    assert(provided_by(c.invocations@[m2], c));
                    let j = choose|j: int| 0 <= j < c.queries@.len() && #[trigger] c.queries@[j].id == inv.query_id && c.queries@[j].provide_rpc;
                    assert(j != k);
                    let j2 = if j < k { j } else { j - 1 };
                    assert(c2.queries@[j2] == c.queries@[j]);
                } else {
                    assert(provided_by(start.clients@[a].invocations@[m], start.clients@[a]));
                }
            }
        }
        proof {
            let c = start.clients@[p as int];
            let c2 = self.clients@[p as int];
            let cs = self.clients@;
            let ss = start.clients@;
            assert(ids_fresh(ss, start.next_serial));
            let map_q = |i: int, j: int| if i == p as int && j >= k { j + 1 } else { j };
            assert forall|i: int, j: int| 0 <= i < cs.len() && 0 <= j < cs[i].queries@.len() implies #[trigger] cs[i].queries@[j] == ss[i].queries@[map_q(i, j)] by {
            }
            assert forall|i: int, j: int| 0 <= i < cs.len() && 0 <= j < cs[i].invocations@.len() implies exists|j2: int| 0 <= j2 < ss[i].invocations@.len() && #[trigger] cs[i].invocations@[j] == ss[i].invocations@[j2] by {
                if i == p as int {
                    lemma_routed_elsewhere_from(orig, query_id, j);
                    let j2 = choose|j2: int| 0 <= j2 < orig.len() && orig[j2] == cs[i].invocations@[j];
                    assert(ss[i].invocations@[j2] == cs[i].invocations@[j]);
                } else {
                    assert(cs[i].invocations@[j] == ss[i].invocations@[j]);
                }
            }
            assert forall|a: int, b: int| 0 <= a < orig.len() && 0 <= b < orig.len() && a != b implies (#[trigger] orig[a]).id != (#[trigger] orig[b]).id by {
                assert(c.invocations@[a] == orig[a] && c.invocations@[b] == orig[b]);
            }
            lemma_routed_elsewhere_distinct(orig, query_id);
            assert forall|i: int, j: int| 0 <= i < cs.len() && 0 <= j < cs[i].queries@.len() implies (#[trigger] cs[i].queries@[j]).id.lo < self.next_serial by {
                assert(cs[i].queries@[j] == ss[i].queries@[map_q(i, j)]);
            }
            assert forall|i: int, j: int| 0 <= i < cs.len() && 0 <= j < cs[i].invocations@.len() implies (#[trigger] cs[i].invocations@[j]).id.lo < self.next_serial by {
                let j2 = choose|j2: int| 0 <= j2 < ss[i].invocations@.len() && cs[i].invocations@[j] == #[trigger] ss[i].invocations@[j2];
            }
            assert forall|i1: int, j1: int, i2: int, j2: int|
                0 <= i1 < cs.len() && 0 <= j1 < cs[i1].queries@.len() && 0 <= i2 < cs.len() && 0 <= j2 < cs[i2].queries@.len()
                    && (i1 != i2 || j1 != j2) implies (#[trigger] cs[i1].queries@[j1]).id != (#[trigger] cs[i2].queries@[j2]).id by {
                assert(cs[i1].queries@[j1] == ss[i1].queries@[map_q(i1, j1)]);
                assert(cs[i2].queries@[j2] == ss[i2].queries@[map_q(i2, j2)]);
            }
            assert forall|i1: int, j1: int, i2: int, j2: int|
                0 <= i1 < cs.len() && 0 <= j1 < cs[i1].invocations@.len() && 0 <= i2 < cs.len() && 0 <= j2
                    < cs[i2].invocations@.len() && (i1 != i2 || j1 != j2) implies (#[trigger] cs[i1].invocations@[j1]).id
                    != (#[trigger] cs[i2].invocations@[j2]).id by {
                if i1 == i2 && i1 == p as int {
                } else {
                    let a = choose|a: int| 0 <= a < ss[i1].invocations@.len() && cs[i1].invocations@[j1] == #[trigger] ss[i1].invocations@[a];
                    let b = choose|b: int| 0 <= b < ss[i2].invocations@.len() && cs[i2].invocations@[j2] == #[trigger] ss[i2].invocations@[b];
                    if i1 == i2 {
                        assert(cs[i1].invocations@[j1] == ss[i1].invocations@[j1]);
                        assert(cs[i2].invocations@[j2] == ss[i2].invocations@[j2]);
                    }
                }
            }
        }
        let ghost mid = *self;
        self.fail_invocations(&failed);
        proof {
            let c = start.clients@[p as int];
            let c2 = self.clients@[p as int];
            assert(c2.queries == mid.clients@[p as int].queries);
            assert(c2.queries@ == c.queries@.remove(k as int));
            assert(first_query_with_id(c.queries@, query_id, k as int));
            assert(orig == c.invocations@);
            assert(c2.invocations@ == routed_elsewhere(c.invocations@, query_id));
            assert(failed@ == routed_through(c.invocations@, query_id));
            assert forall|i: int| 0 <= i < start.clients@.len() && i != p implies same_but_inbox(#[trigger] start.clients()[i], self.clients()[i]) by {
                assert(mid.clients@[i] == start.clients@[i]);
            }
            assert forall|i: int| 0 <= i < start.clients@.len() implies #[trigger] self.clients()[i].inbox@
                == start.clients()[i].inbox@ + failure_messages(failed@, start.clients()[i].id) by {
                assert(same_but_inbox(mid.clients@[i], self.clients@[i]));
            }
        }
        Ok(())
    }

    /// Routes a call of `method` with `args` on `object`, made by `client`
    /// under `request_id`, to the first client that provides the object: it
    /// is recorded there, and the provider is sent the call.
    pub fn invoke(
        &mut self,
        object: &str,
        method: &str,
        args: serde_json::Value,
        request_id: serde_json::Value,
        client: &Client,
    ) -> (r: Result<(), Error>)
        requires
            old(self).wf(),
            old(self).ids_left(),
        ensures
            final(self).wf(),
            !valid_name(object@) ==> r == Err::<(), Error>(Error::InvalidObjectName) && *final(self) == *old(self),
            valid_name(object@) && !old(self).store().contains_key(object@) ==> r == Err::<(), Error>(
                Error::ObjectNotFound,
            ) && *final(self) == *old(self),
            valid_name(object@) && old(self).store().contains_key(object@) && !(exists|i: int|
                0 <= i < old(self).clients().len() && is_provider(#[trigger] old(self).clients()[i], object@))
                ==> r == Err::<(), Error>(Error::ObjectNotInvocable) && *final(self) == *old(self),
            valid_name(object@) && old(self).store().contains_key(object@) && (exists|i: int|
                0 <= i < old(self).clients().len() && is_provider(#[trigger] old(self).clients()[i], object@)) ==> {
                &&& r is Ok
                &&& final(self).serial() == old(self).serial() + 1
                &&& final(self).store() == old(self).store()
                &&& final(self).streams() == old(self).streams()
                &&& final(self).changes() == old(self).changes()
                &&& final(self).clients().len() == old(self).clients().len()
                &&& final(self).after_invoke(*old(self), object@, method@, args, request_id, client.spec_id())
                &&& final(self).log().drop_last() == old(self).log()
                &&& final(self).log().last() matches LogMessage::Invoke { object: o, method: m, args: a, invocation_id: _, client: cc }
                    && o@ == object@ && m@ == method@ && a == args && cc == client.spec_id()
            },
    {
        if let Err(e) = validate_object_name(object) {
            return Err(e);
        }
        let object = object.to_owned();
        if self.find_object(&object).is_none() {
            proof {
                lemma_store_absent(self.objects@, object@);
            }
            return Err(Error::ObjectNotFound);
        }
        let ghost start = *self;
        let mut p: usize = 0;
        let mut found: Option<usize> = None;
        while p < self.clients.len() && found.is_none()
            invariant
                p <= self.clients@.len(),
                forall|i: int| 0 <= i < p ==> !is_provider(#[trigger] self.clients@[i], object@),
                match found {
                    Some(j) => p < self.clients@.len() && first_providing_query(self.clients@[p as int], object@, j as int),
                    None => true,
                },
            decreases self.clients@.len() - p + if found is None { 1int } else { 0int },
        {
            found = self.clients[p].providing_query(&object);
            if found.is_none() {
                p = p + 1;
            }
        }
        let j = match found {
            None => {
                return Err(Error::ObjectNotInvocable);
            },
            Some(j) => j,
        };
        assert(first_providing_query(start.clients@[p as int], object@, j as int));
        assert(start.clients@[p as int].queries@[j as int].provide_rpc);
        assert(is_provider(start.clients@[p as int], object@));
        assert(start.clients() == old(self).clients());
        assert(is_provider(old(self).clients()[p as int], object@));
        let invocation_id = self.fresh_id();
        let query_id = self.clients[p].queries[j].id;
        let method = method.to_owned();
        self.log.push(LogMessage::Invoke {
            object: object.clone(),
            method: method.clone(),
            args: args.clone(),
            invocation_id,
            client: client.id(),
        });
        self.clients[p].invocations.push(Invocation { id: invocation_id, client_id: client.id(), request_id, query_id });
        self.clients[p].inbox.push(Message::QueryInvocation { query_id, invocation_id, object, method, args });
        proof {
            let c = start.clients@[p as int];
            let c2 = self.clients@[p as int];
            assert(c2.invocations@.drop_last() =~= c.invocations@);
            assert(c2.inbox@.drop_last() =~= c.inbox@);
            assert forall|a: int, b: int|
                0 <= a < self.clients@.len() && 0 <= b < self.clients@[a].queries@.len() implies query_in_sync(
                #[trigger] self.clients@[a].queries@[b],
                self.store(),
            ) by {
                assert(query_in_sync(start.clients@[a].queries@[b], start.store()));
            }
            assert forall|a: int, m: int|
                0 <= a < self.clients@.len() && 0 <= m < self.clients@[a].invocations@.len() implies provided_by(
                #[trigger] self.clients@[a].invocations@[m],
                self.clients@[a],
            ) by {
                if a == p as int && m == c.invocations@.len() {
                    assert(c2.queries@[j as int].id == query_id);
                } else {
                    assert(provided_by(start.clients@[a].invocations@[m], start.clients@[a]));
                }
            }
            assert forall|a: int| 0 <= a < self.clients@.len() implies (#[trigger] self.clients@[a]).id.lo < self.next_serial by {
                assert(start.clients@[a].id.lo < start.next_serial);
            }
        }
        Ok(())
    }

    /// Hands `result` to the caller of the call `invocation_id` that `client`
    /// was providing, and forgets the call.
    pub fn invoke_result(&mut self, invocation_id: Id, result: serde_json::Value, client: &Client) -> (r: Result<(), Error>)
        requires
            old(self).wf(),
        ensures
            final(self).wf(),
            !old(self).has_client(client.spec_id()) ==> r == Err::<(), Error>(Error::ClientNotFound) && *final(self)
                == *old(self),
            old(self).has_client(client.spec_id()) && !(exists|k: int|
                first_invocation_with_id(old(self).clients()[old(self).client_pos(client.spec_id())].invocations@, invocation_id, k))
                ==> r == Err::<(), Error>(Error::InvocationNotFound) && *final(self) == *old(self),
            old(self).has_client(client.spec_id()) && (exists|k: int|
                first_invocation_with_id(old(self).clients()[old(self).client_pos(client.spec_id())].invocations@, invocation_id, k))
                ==> {
                let p = old(self).client_pos(client.spec_id());
                let c = old(self).clients()[p];
                let c2 = final(self).clients()[p];
                &&& r is Ok
                &&& exists|k: int| {
                    let inv = c.invocations@[k];
                    &&& #[trigger] first_invocation_with_id(c.invocations@, invocation_id, k)
                    &&& c2.invocations@ == c.invocations@.remove(k)
                    &&& forall|i: int| 0 <= i < old(self).clients().len() ==> #[trigger] final(self).clients()[i].inbox@
                        == old(self).clients()[i].inbox@ + if old(self).clients()[i].id == inv.client_id {
                            seq![Message::InvocationResult { request_id: inv.request_id, result: Ok(result) }]
                        } else {
                            Seq::<Message>::empty()
                        }
                }
                &&& c2.id == c.id && c2.queries == c.queries && c2.disconnect_commands == c.disconnect_commands
                &&& c2.next_stream_index == c.next_stream_index && c2.streams == c.streams
                &&& final(self).clients().len() == old(self).clients().len()
                &&& forall|i: int| 0 <= i < old(self).clients().len() && i != p ==> same_but_inbox(#[trigger] old(self).clients()[i], final(self).clients()[i])
                &&& final(self).store() == old(self).store()
                &&& final(self).streams() == old(self).streams()
                &&& final(self).serial() == old(self).serial()
                &&& final(self).changes() == old(self).changes()
                &&& final(self).log().drop_last() == old(self).log()
                &&& final(self).log().last() matches LogMessage::InvokeResult { invocation_id: ii, result: rr, client: cc }
                    && ii == invocation_id && rr == result && cc == client.spec_id()
            },
    {
        let p = match self.client_index(client.id()) {
            None => {
                return Err(Error::ClientNotFound);
            },
            Some(p) => p,
        };
        let ghost start = *self;
        proof {
            self.lemma_client_pos(p as int);
        }
        let mut k: usize = 0;
        while k < self.clients[p].invocations.len() && self.clients[p].invocations[k].id != invocation_id
            invariant
                p < self.clients@.len(),
                k <= self.clients@[p as int].invocations@.len(),
                forall|j: int| 0 <= j < k ==> (#[trigger] self.clients@[p as int].invocations@[j]).id != invocation_id,
            decreases self.clients@[p as int].invocations@.len() - k,
        {
            k = k + 1;
        }
        if k == self.clients[p].invocations.len() {
            proof {
                if exists|k2: int| first_invocation_with_id(self.clients@[p as int].invocations@, invocation_id, k2) {
                    let k2 = choose|k2: int| first_invocation_with_id(self.clients@[p as int].invocations@, invocation_id, k2);
                    assert(self.clients@[p as int].invocations@[k2].id != invocation_id);
                }
            }
            return Err(Error::InvocationNotFound);
        }
        assert(first_invocation_with_id(start.clients@[p as int].invocations@, invocation_id, k as int));
        self.log.push(LogMessage::InvokeResult { invocation_id, result: result.clone(), client: client.id() });
        let invocation = self.clients[p].invocations.remove(k);
        let ghost mid = *self;
        proof {
            let c = start.clients@[p as int];
            assert forall|a: int, m: int|
                0 <= a < self.clients@.len() && 0 <= m < self.clients@[a].invocations@.len() implies provided_by(
                #[trigger] self.clients@[a].invocations@[m],
                self.clients@[a],
            ) by {
                if a == p as int {
                    let m2 = if m < k { m } else { m + 1 };
                    assert(self.clients@[a].invocations@[m] == c.invocations@[m2]);
                    assert(provided_by(c.invocations@[m2], c));
                    lemma_provided_queries(c, self.clients@[a], c.invocations@[m2]);
                } else {
                    assert(provided_by(start.clients@[a].invocations@[m], start.clients@[a]));
                }
            }
            assert forall|a: int, b: int|
                0 <= a < self.clients@.len() && 0 <= b < self.clients@[a].queries@.len() implies query_in_sync(
                #[trigger] self.clients@[a].queries@[b],
                self.store(),
            ) by {
                assert(query_in_sync(start.clients@[a].queries@[b], start.store()));
            }
        }
        match self.client_index(invocation.client_id) {
            Some(q) => {
                self.clients[q].inbox.push(Message::InvocationResult { request_id: invocation.request_id, result: Ok(result) });
                proof {
                    assert forall|i: int| 0 <= i < start.clients@.len() implies #[trigger] self.clients()[i].inbox@
                        == start.clients()[i].inbox@ + if start.clients()[i].id == invocation.client_id {
                            seq![Message::InvocationResult { request_id: invocation.request_id, result: Ok(result) }]
                        } else {
                            Seq::<Message>::empty()
                        } by {
                        if i == q as int {
                            assert(self.clients()[i].inbox@ =~= start.clients()[i].inbox@ + seq![Message::InvocationResult { request_id: invocation.request_id, result: Ok(result) }]);
                        } else {
                            assert(start.clients@[i].id != start.clients@[q as int].id);
                            assert(self.clients()[i].inbox@ =~= start.clients()[i].inbox@ + Seq::<Message>::empty());
                        }
                    }
                    assert forall|a: int, m: int|
                        0 <= a < self.clients@.len() && 0 <= m < self.clients@[a].invocations@.len() implies provided_by(
                        #[trigger] self.clients@[a].invocations@[m],
                        self.clients@[a],
                    ) by {
                        assert(provided_by(mid.clients@[a].invocations@[m], mid.clients@[a]));
                        lemma_provided_queries(mid.clients@[a], self.clients@[a], mid.clients@[a].invocations@[m]);
                    }
                    assert forall|a: int, b: int|
                        0 <= a < self.clients@.len() && 0 <= b < self.clients@[a].queries@.len() implies query_in_sync(
                        #[trigger] self.clients@[a].queries@[b],
                        self.store(),
                    ) by {
                        assert(query_in_sync(mid.clients@[a].queries@[b], mid.store()));
                    }
                }
            },
            None => {
                proof {
                    assert forall|i: int| 0 <= i < start.clients@.len() implies #[trigger] self.clients()[i].inbox@
                        == start.clients()[i].inbox@ + if start.clients()[i].id == invocation.client_id {
                            seq![Message::InvocationResult { request_id: invocation.request_id, result: Ok(result) }]
                        } else {
                            Seq::<Message>::empty()
                        } by {
                        assert(mid.clients()[i].id == mid.clients@[i].id);
                        assert(self.clients()[i].inbox@ =~= start.clients()[i].inbox@ + Seq::<Message>::empty());
                    }
                }
            },
        }
        Ok(())
    }

    /// `new` differs from `old` only in what `wf` does not speak of: inboxes,
    /// stream lists and numbering, the stream table, the log and the changes.
    proof fn lemma_wf_frame(old: Server, new: Server)
        requires
            old.wf(),
            new.objects == old.objects,
            new.next_serial >= old.next_serial,
            new.clients@.len() == old.clients@.len(),
            forall|i: int|
                0 <= i < old.clients@.len() ==> (#[trigger] new.clients@[i]).id == old.clients@[i].id
                    && new.clients@[i].queries == old.clients@[i].queries
                    && new.clients@[i].invocations == old.clients@[i].invocations,
            forall|i: int, j: int|
                0 <= i < new.streams@.len() && 0 <= j < new.streams@.len() && i != j
                    ==> #[trigger] new.streams@[i].id != #[trigger] new.streams@[j].id,
            forall|i: int| 0 <= i < new.streams@.len() ==> (#[trigger] new.streams@[i]).id.0.lo < new.next_serial,
            streams_linked(new.clients@, new.streams@, new.next_serial),
        ensures
            new.wf(),
    {
        assert forall|a: int, b: int|
            0 <= a < new.clients@.len() && 0 <= b < new.clients@[a].queries@.len() implies query_in_sync(
            #[trigger] new.clients@[a].queries@[b],
            new.store(),
        ) by {
            assert(new.clients@[a].queries == old.clients@[a].queries);
            assert(query_in_sync(old.clients@[a].queries@[b], old.store()));
        }
        assert forall|a: int, k: int|
            0 <= a < new.clients@.len() && 0 <= k < new.clients@[a].invocations@.len() implies provided_by(
            #[trigger] new.clients@[a].invocations@[k],
            new.clients@[a],
        ) by {
            assert(new.clients@[a].invocations == old.clients@[a].invocations);
            assert(provided_by(old.clients@[a].invocations@[k], old.clients@[a]));
            lemma_provided_queries(old.clients@[a], new.clients@[a], old.clients@[a].invocations@[k]);
        }
        assert forall|a: int, b: int|
            0 <= a < new.clients@.len() && 0 <= b < new.clients@.len() && a != b implies #[trigger] new.clients@[a].id
            != #[trigger] new.clients@[b].id by {
            assert(new.clients@[a].id == old.clients@[a].id);
            assert(new.clients@[b].id == old.clients@[b].id);
        }
        assert forall|a: int| 0 <= a < new.clients@.len() implies (#[trigger] new.clients@[a]).id.lo < new.next_serial by {
            assert(new.clients@[a].id == old.clients@[a].id);
        }
    }

    fn find_stream(&self, id: StreamId) -> (r: Option<usize>)
        ensures
            match r {
                Some(k) => k < self.streams@.len() && self.streams@[k as int].id == id,
                None => forall|k: int| 0 <= k < self.streams@.len() ==> self.streams@[k].id != id,
            },
    {
        let mut k: usize = 0;
        while k < self.streams.len()
            invariant
                k <= self.streams@.len(),
                forall|j: int| 0 <= j < k ==> self.streams@[j].id != id,
            decreases self.streams@.len() - k,
        {
            if self.streams[k].id == id {
                return Some(k);
            }
            k = k + 1;
        }
        None
    }

    /// Whether `client` can number another stream.
    pub open spec fn stream_numbers_left(&self, client_id: Id) -> bool {
        self.has_client(client_id) ==> self.clients()[self.client_pos(client_id)].next_stream_index < u32::MAX
    }

    /// Whether `client` is connected and can number another stream.
    pub fn can_number_stream(&self, client: &Client) -> (r: bool)
        requires
            self.wf(),
        ensures
            r == (self.has_client(client.spec_id()) && self.stream_numbers_left(client.spec_id())),
    {
        match self.client_index(client.id()) {
            None => false,
            Some(p) => {
                proof {
                    self.lemma_client_pos(p as int);
                }
                self.clients[p].next_stream_index < u32::MAX
            },
        }
    }

    /// Opens a stream with `client` as its first endpoint, under the client's
    /// next stream number. Nobody else is told until a second client opens it.
    pub fn create_stream(&mut self, client: &Client) -> (r: Result<(StreamId, ClientStreamIndex), Error>)
        requires
            old(self).wf(),
            old(self).ids_left(),
            old(self).stream_numbers_left(client.spec_id()),
        ensures
            final(self).wf(),
            !old(self).has_client(client.spec_id()) ==> r == Err::<(StreamId, ClientStreamIndex), Error>(Error::ClientNotFound)
                && *final(self) == *old(self),
            old(self).has_client(client.spec_id()) ==> (r matches Ok((sid, index)) && {
                let p = old(self).client_pos(client.spec_id());
                let c = old(self).clients()[p];
                let c2 = final(self).clients()[p];
                &&& index.0 == c.next_stream_index
                &&& sid.0.lo == old(self).serial()
                &&& final(self).serial() == old(self).serial() + 1
                &&& final(self).streams() == old(self).streams().push(
                    StreamState { id: sid, client_a: StreamClient { client_id: client.spec_id(), stream_index: index }, client_b: None },
                )
                &&& c2.id == c.id && c2.queries == c.queries && c2.invocations == c.invocations
                &&& c2.inbox == c.inbox && c2.disconnect_commands == c.disconnect_commands
                &&& c2.next_stream_index == c.next_stream_index + 1
                &&& c2.streams@ == c.streams@.push((index, sid))
                &&& final(self).clients().len() == old(self).clients().len()
                &&& forall|i: int| 0 <= i < old(self).clients().len() && i != p ==> #[trigger] final(self).clients()[i] == old(self).clients()[i]
                &&& final(self).store() == old(self).store()
                &&& final(self).changes() == old(self).changes()
                &&& final(self).log() == old(self).log().push(LogMessage::StreamCreate { id: sid, index, client: client.spec_id() })
            }),
    {
        let p = match self.client_index(client.id()) {
            None => {
                return Err(Error::ClientNotFound);
            },
            Some(p) => p,
        };
        let ghost start = *self;
        proof {
            self.lemma_client_pos(p as int);
        }
        let stream_id = StreamId(self.fresh_id());
        let index = ClientStreamIndex(self.clients[p].next_stream_index);
        self.clients[p].next_stream_index = self.clients[p].next_stream_index + 1;
        let client_id = client.id();
        self.streams.push(StreamState {
            id: stream_id,
            client_a: StreamClient { client_id, stream_index: index },
            client_b: None,
        });
        self.clients[p].streams.push((index, stream_id));
        self.log.push(LogMessage::StreamCreate { id: stream_id, index, client: client_id });
        proof {
            assert forall|i: int, j: int|
                0 <= i < self.streams@.len() && 0 <= j < self.streams@.len() && i != j
                    implies #[trigger] self.streams@[i].id != #[trigger] self.streams@[j].id by {
                if i < start.streams@.len() {
                    assert(start.streams@[i].id.0.lo < start.next_serial);
                }
                if j < start.streams@.len() {
                    assert(start.streams@[j].id.0.lo < start.next_serial);
                }
            }
            assert forall|i: int| 0 <= i < self.streams@.len() implies (#[trigger] self.streams@[i]).id.0.lo < self.next_serial by {
                if i < start.streams@.len() {
                    assert(start.streams@[i].id.0.lo < start.next_serial);
                }
            }
            assert forall|k: int| 0 <= k < start.streams@.len() implies (#[trigger] start.streams@[k]).id != stream_id by {
                assert(start.streams@[k].id.0.lo < start.next_serial);
            }
            assert(start.clients@[p as int].id.lo < start.next_serial);
            lemma_links_create(start.clients@, start.streams@, start.next_serial, self.clients@, self.streams@, self.next_serial, p as int, self.streams@.last());
            Self::lemma_wf_frame(start, *self);
        }
        Ok((stream_id, index))
    }

    /// Joins `client` to the stream `id` as its second endpoint, under the
    /// client's next stream number; the first endpoint is told the stream is open.
    pub fn open_stream(&mut self, id: StreamId, client: &Client) -> (r: Result<ClientStreamIndex, Error>)
        requires
            old(self).wf(),
            old(self).stream_numbers_left(client.spec_id()),
        ensures
            final(self).wf(),
            !old(self).has_client(client.spec_id()) ==> r == Err::<ClientStreamIndex, Error>(Error::ClientNotFound)
                && *final(self) == *old(self),
            old(self).has_client(client.spec_id()) && !(exists|k: int| 0 <= k < old(self).streams().len()
                && #[trigger] old(self).streams()[k].id == id) ==> r == Err::<ClientStreamIndex, Error>(Error::StreamNotFound)
                && *final(self) == *old(self),
            old(self).has_client(client.spec_id()) && (exists|k: int| 0 <= k < old(self).streams().len()
                && #[trigger] old(self).streams()[k].id == id && old(self).streams()[k].client_b is Some)
                ==> r == Err::<ClientStreamIndex, Error>(Error::StreamAlreadyOpen) && *final(self) == *old(self),
            old(self).has_client(client.spec_id()) && (exists|k: int| 0 <= k < old(self).streams().len()
                && #[trigger] old(self).streams()[k].id == id && old(self).streams()[k].client_b is None) ==> (r matches Ok(index) && {
                let p = old(self).client_pos(client.spec_id());
                let c = old(self).clients()[p];
                let c2 = final(self).clients()[p];
                &&& index.0 == c.next_stream_index
                &&& exists|k: int| {
                    let s = old(self).streams()[k];
                    &&& 0 <= k < old(self).streams().len() && #[trigger] old(self).streams()[k].id == id
                    &&& final(self).streams() == old(self).streams().update(
                        k,
                        StreamState { id, client_a: s.client_a, client_b: Some(StreamClient { client_id: client.spec_id(), stream_index: index }) },
                    )
                    &&& forall|i: int| 0 <= i < old(self).clients().len() ==> #[trigger] final(self).clients()[i].inbox@
                        == old(self).clients()[i].inbox@ + if old(self).clients()[i].id == s.client_a.client_id {
                            seq![Message::StreamOpen { index: s.client_a.stream_index }]
                        } else {
                            Seq::<Message>::empty()
                        }
                }
                &&& c2.id == c.id && c2.queries == c.queries && c2.invocations == c.invocations
                &&& c2.disconnect_commands == c.disconnect_commands
                &&& c2.next_stream_index == c.next_stream_index + 1
                &&& c2.streams@ == c.streams@.push((index, id))
                &&& final(self).clients().len() == old(self).clients().len()
                &&& forall|i: int| 0 <= i < old(self).clients().len() && i != p ==> same_but_inbox(#[trigger] old(self).clients()[i], final(self).clients()[i])
                &&& final(self).store() == old(self).store()
                &&& final(self).serial() == old(self).serial()
                &&& final(self).changes() == old(self).changes()
                &&& final(self).log() == old(self).log().push(LogMessage::StreamOpen { id, index, client: client.spec_id() })
            }),
    {
        let p = match self.client_index(client.id()) {
            None => {
                return Err(Error::ClientNotFound);
            },
            Some(p) => p,
        };
        let ghost start = *self;
        proof {
            self.lemma_client_pos(p as int);
        }
        let k = match self.find_stream(id) {
            None => {
                return Err(Error::StreamNotFound);
            },
            Some(k) => k,
        };
        proof {
            assert forall|k2: int| 0 <= k2 < self.streams@.len() && self.streams@[k2].id == id implies k2 == k by {
                if k2 != k {
                    assert(self.streams@[k2].id != self.streams@[k as int].id);
                }
            }
        }
        if self.streams[k].client_b.is_some() {
            return Err(Error::StreamAlreadyOpen);
        }
        let client_id = client.id();
        let index = ClientStreamIndex(self.clients[p].next_stream_index);
        self.clients[p].next_stream_index = self.clients[p].next_stream_index + 1;
        let a = self.streams[k].client_a;
        self.streams.set(k, StreamState { id, client_a: a, client_b: Some(StreamClient { client_id, stream_index: index }) });
        self.clients[p].streams.push((index, id));
        let ghost mid = *self;
        match self.client_index(a.client_id) {
            Some(q) => {
                self.clients[q].inbox.push(Message::StreamOpen { index: a.stream_index });
                proof {
                    assert forall|i: int| 0 <= i < start.clients@.len() implies #[trigger] self.clients()[i].inbox@
                        == start.clients()[i].inbox@ + if start.clients()[i].id == a.client_id {
                            seq![Message::StreamOpen { index: a.stream_index }]
                        } else {
                            Seq::<Message>::empty()
                        } by {
                        if i == q as int {
                            assert(self.clients()[i].inbox@ =~= start.clients()[i].inbox@ + seq![Message::StreamOpen { index: a.stream_index }]);
                        } else {
                            assert(start.clients@[i].id != start.clients@[q as int].id);
                            assert(self.clients()[i].inbox@ =~= start.clients()[i].inbox@ + Seq::<Message>::empty());
                        }
                    }
                }
            },
            None => {
                proof {
                    assert forall|i: int| 0 <= i < start.clients@.len() implies #[trigger] self.clients()[i].inbox@
                        == start.clients()[i].inbox@ + if start.clients()[i].id == a.client_id {
                            seq![Message::StreamOpen { index: a.stream_index }]
                        } else {
                            Seq::<Message>::empty()
                        } by {
                        assert(mid.clients()[i].id == mid.clients@[i].id);
                        assert(self.clients()[i].inbox@ =~= start.clients()[i].inbox@ + Seq::<Message>::empty());
                    }
                }
            },
        }
        self.log.push(LogMessage::StreamOpen { id, index, client: client_id });
        proof {
            assert forall|i: int, j: int|
                0 <= i < self.streams@.len() && 0 <= j < self.streams@.len() && i != j
                    implies #[trigger] self.streams@[i].id != #[trigger] self.streams@[j].id by {
                assert(self.streams@[i].id == start.streams@[i].id);
                assert(self.streams@[j].id == start.streams@[j].id);
            }
            assert forall|i: int| 0 <= i < self.streams@.len() implies (#[trigger] self.streams@[i]).id.0.lo < self.next_serial by {
                assert(self.streams@[i].id == start.streams@[i].id);
            }
            assert(start.clients@[p as int].id.lo < start.next_serial);
            assert forall|i: int| 0 <= i < start.clients@.len() && i != p implies (#[trigger] self.clients@[i]).id == start.clients@[i].id
                && self.clients@[i].streams == start.clients@[i].streams && self.clients@[i].next_stream_index
                == start.clients@[i].next_stream_index by {
                assert(mid.clients@[i] == start.clients@[i]);
            }
            lemma_links_open(start.clients@, start.streams@, start.next_serial, self.clients@, self.streams@, p as int, k as int, index);
            Self::lemma_wf_frame(start, *self);
            assert forall|i: int| 0 <= i < start.clients@.len() && i != p implies same_but_inbox(#[trigger] start.clients()[i], self.clients()[i]) by {
                assert(mid.clients@[i] == start.clients@[i]);
            }
        }
        Ok(index)
    }

    /// The server after the stream at position `k` of the table was closed.
    pub open spec fn after_close(&self, old: Server, k: int) -> bool {
        let s = old.streams()[k];
        &&& self.streams() == old.streams().remove(k)
        &&& self.clients().len() == old.clients().len()
        &&& forall|i: int| 0 <= i < old.clients().len() ==> client_after_close(#[trigger] old.clients()[i], self.clients()[i], s)
        &&& self.store() == old.store()
        &&& self.serial() == old.serial()
        &&& self.changes() == old.changes()
        &&& self.log() == old.log() + seq![LogMessage::StreamClose { id: s.id, index: s.client_a.stream_index, client: s.client_a.client_id }]
            + if s.client_b is Some {
                seq![LogMessage::StreamClose { id: s.id, index: s.client_b.unwrap().stream_index, client: s.client_b.unwrap().client_id }]
            } else {
                Seq::<LogMessage>::empty()
            }
    }

    fn detach_from_client(&mut self, end: StreamClient)
        requires
            forall|i: int, j: int|
                0 <= i < old(self).clients@.len() && 0 <= j < old(self).clients@.len() && i != j
                    ==> #[trigger] old(self).clients@[i].id != #[trigger] old(self).clients@[j].id,
        ensures
            final(self).objects == old(self).objects,
            final(self).streams == old(self).streams,
            final(self).next_serial == old(self).next_serial,
            final(self).log == old(self).log,
            final(self).changes == old(self).changes,
            final(self).clients@.len() == old(self).clients@.len(),
            forall|i: int| 0 <= i < old(self).clients@.len() ==> {
                let c = #[trigger] old(self).clients@[i];
                let c2 = final(self).clients@[i];
                &&& c2.id == c.id && c2.queries == c.queries && c2.invocations == c.invocations
                &&& c2.disconnect_commands == c.disconnect_commands && c2.next_stream_index == c.next_stream_index
                &&& c2.streams@ == if c.id == end.client_id { without_index(c.streams@, end.stream_index) } else { c.streams@ }
                &&& c2.inbox@ == c.inbox@ + if c.id == end.client_id {
                    seq![Message::StreamClosed { index: end.stream_index }]
                } else {
                    Seq::<Message>::empty()
                }
            },
    {
        let ghost start = *self;
        match self.client_index(end.client_id) {
            Some(q) => {
                self.clients[q].detach_stream(end.stream_index);
                proof {
                    assert forall|i: int| 0 <= i < start.clients@.len() && i != q implies #[trigger] start.clients@[i].id != end.client_id by {
                        assert(start.clients@[i].id != start.clients@[q as int].id);
                    }
                    assert(self.clients@[q as int].inbox@ =~= start.clients@[q as int].inbox@ + seq![Message::StreamClosed { index: end.stream_index }]);
                    assert forall|i: int| 0 <= i < start.clients@.len() && i != q implies #[trigger] self.clients@[i].inbox@ == start.clients@[i].inbox@ + Seq::<Message>::empty() by {
                        assert(self.clients@[i].inbox@ =~= start.clients@[i].inbox@ + Seq::<Message>::empty());
                    }
                }
            },
            None => {
                proof {
                    assert forall|i: int| 0 <= i < start.clients@.len() implies #[trigger] self.clients@[i].inbox@ == start.clients@[i].inbox@ + Seq::<Message>::empty() by {
                        assert(start.clients()[i].id == start.clients@[i].id);
                        assert(self.clients@[i].inbox@ =~= start.clients@[i].inbox@ + Seq::<Message>::empty());
                    }
                }
            },
        }
    }

    /// Closes the stream `id`: it leaves the table, and each endpoint whose
    /// client is connected drops it from its stream list and is told.
    fn close_stream_by_id(&mut self, id: StreamId) -> (r: Result<(), Error>)
        requires
            old(self).wf(),
        ensures
            final(self).wf(),
            !(exists|k: int| 0 <= k < old(self).streams().len() && #[trigger] old(self).streams()[k].id == id)
                ==> r == Err::<(), Error>(Error::StreamNotFound) && *final(self) == *old(self),
            (exists|k: int| 0 <= k < old(self).streams().len() && #[trigger] old(self).streams()[k].id == id) ==> {
                &&& r is Ok
                &&& exists|k: int| 0 <= k < old(self).streams().len() && #[trigger] old(self).streams()[k].id == id
                    && final(self).after_close(*old(self), k)
            },
    {
        let k = match self.find_stream(id) {
            None => {
                return Err(Error::StreamNotFound);
            },
            Some(k) => k,
        };
        let ghost start = *self;
        let stream = self.streams.remove(k);
        self.log.push(LogMessage::StreamClose { id, index: stream.client_a.stream_index, client: stream.client_a.client_id });
        proof {
            assert forall|i: int, j: int|
                0 <= i < self.streams@.len() && 0 <= j < self.streams@.len() && i != j
                    implies #[trigger] self.streams@[i].id != #[trigger] self.streams@[j].id by {
                let i2 = if i < k { i } else { i + 1 };
                let j2 = if j < k { j } else { j + 1 };
                assert(self.streams@[i] == start.streams@[i2]);
                assert(self.streams@[j] == start.streams@[j2]);
            }
            assert forall|i: int| 0 <= i < self.streams@.len() implies (#[trigger] self.streams@[i]).id.0.lo < self.next_serial by {
                let i2 = if i < k { i } else { i + 1 };
                assert(self.streams@[i] == start.streams@[i2]);
            }
        }
        let ghost s1 = *self;
        self.detach_from_client(stream.client_a);
        let ghost s2 = *self;
        proof {
            assert forall|i: int, j: int|
                0 <= i < self.clients@.len() && 0 <= j < self.clients@.len() && i != j
                    implies #[trigger] self.clients@[i].id != #[trigger] self.clients@[j].id by {
                assert(self.clients@[i].id == s1.clients@[i].id);
                assert(self.clients@[j].id == s1.clients@[j].id);
            }
        }
        if let Some(b) = stream.client_b {
            self.log.push(LogMessage::StreamClose { id, index: b.stream_index, client: b.client_id });
            self.detach_from_client(b);
        }
        proof {
            assert forall|i: int| 0 <= i < start.clients@.len() implies client_after_close(#[trigger] start.clients()[i], self.clients()[i], stream) by {
                let c = start.clients@[i];
                let c2 = self.clients@[i];
                if stream.client_b is Some {
                    assert(c2.inbox@ =~= c.inbox@ + (if stream.client_a.client_id == c.id {
                        seq![Message::StreamClosed { index: stream.client_a.stream_index }]
                    } else {
                        Seq::<Message>::empty()
                    }) + (if stream.client_b.unwrap().client_id == c.id {
                        seq![Message::StreamClosed { index: stream.client_b.unwrap().stream_index }]
                    } else {
                        Seq::<Message>::empty()
                    }));
                } else {
                    assert(c2.inbox@ =~= c.inbox@ + (if stream.client_a.client_id == c.id {
                        seq![Message::StreamClosed { index: stream.client_a.stream_index }]
                    } else {
                        Seq::<Message>::empty()
                    }) + Seq::<Message>::empty());
                }
            }
            assert(self.log() =~= start.log() + seq![LogMessage::StreamClose { id: stream.id, index: stream.client_a.stream_index, client: stream.client_a.client_id }]
                + if stream.client_b is Some {
                    seq![LogMessage::StreamClose { id: stream.id, index: stream.client_b.unwrap().stream_index, client: stream.client_b.unwrap().client_id }]
                } else {
                    Seq::<LogMessage>::empty()
                });
            assert(self.after_close(start, k as int));
            lemma_links_close(start.clients@, start.streams@, start.next_serial, k as int, self.clients@, self.streams@);
            Self::lemma_wf_frame(start, *self);
        }
        Ok(())
    }

    /// Closes the stream that `client` numbers `index`.
    pub fn close_stream(&mut self, index: ClientStreamIndex, client: &Client) -> (r: Result<(), Error>)
        requires
            old(self).wf(),
        ensures
            final(self).wf(),
            !old(self).has_client(client.spec_id()) ==> r == Err::<(), Error>(Error::ClientNotFound) && *final(self)
                == *old(self),
            old(self).has_client(client.spec_id()) ==> {
                let c = old(self).clients()[old(self).client_pos(client.spec_id())];
                match lookup_index(c.streams@, index) {
                    None => r == Err::<(), Error>(Error::StreamNotFound) && *final(self) == *old(self),
                    Some(id) => if exists|k: int| 0 <= k < old(self).streams().len() && #[trigger] old(self).streams()[k].id == id {
                        &&& r is Ok
                        &&& exists|k: int| 0 <= k < old(self).streams().len() && #[trigger] old(self).streams()[k].id == id
                            && final(self).after_close(*old(self), k)
                    } else {
                        r == Err::<(), Error>(Error::StreamNotFound) && *final(self) == *old(self)
                    },
                }
            },
    {
        let p = match self.client_index(client.id()) {
            None => {
                return Err(Error::ClientNotFound);
            },
            Some(p) => p,
        };
        proof {
            self.lemma_client_pos(p as int);
        }
        match self.clients[p].stream_of(index) {
            None => Err(Error::StreamNotFound),
            Some(id) => self.close_stream_by_id(id),
        }
    }

    /// Relays `data` from the endpoint that `client` numbers `index` to the
    /// other endpoint, framed with the receiver's stream number.
    pub fn stream_send(&mut self, index: ClientStreamIndex, data: &[u8], client: &Client) -> (r: Result<(), Error>)
        requires
            old(self).wf(),
        ensures
            final(self).wf(),
            r is Err ==> *final(self) == *old(self),
            !old(self).has_client(client.spec_id()) ==> r == Err::<(), Error>(Error::ClientNotFound),
            old(self).has_client(client.spec_id()) ==> {
                let c = old(self).clients()[old(self).client_pos(client.spec_id())];
                match lookup_index(c.streams@, index) {
                    None => r == Err::<(), Error>(Error::StreamNotFound),
                    Some(id) => if !(exists|k: int| 0 <= k < old(self).streams().len() && #[trigger] old(self).streams()[k].id == id) {
                        r == Err::<(), Error>(Error::StreamNotFound)
                    } else {
                        let k = choose|k: int| 0 <= k < old(self).streams().len() && #[trigger] old(self).streams()[k].id == id;
                        match other_end(old(self).streams()[k], client.spec_id(), index) {
                            None => r == Err::<(), Error>(Error::StreamNotOpen),
                            Some(peer) => if !old(self).has_client(peer.client_id) {
                                r == Err::<(), Error>(Error::StreamNotOpen)
                            } else {
                                let q = old(self).client_pos(peer.client_id);
                                &&& r is Ok
                                &&& final(self).clients().len() == old(self).clients().len()
                                &&& forall|i: int| 0 <= i < old(self).clients().len() && i != q ==> #[trigger] final(self).clients()[i] == old(self).clients()[i]
                                &&& same_but_inbox(old(self).clients()[q], final(self).clients()[q])
                                &&& final(self).clients()[q].inbox@.len() == old(self).clients()[q].inbox@.len() + 1
                                &&& final(self).clients()[q].inbox@.drop_last() == old(self).clients()[q].inbox@
                                &&& final(self).clients()[q].inbox@.last() matches Message::StreamData { index: i, data: d }
                                    && i == peer.stream_index && d@ == stream_frame(peer.stream_index, data@)
                                &&& final(self).store() == old(self).store()
                                &&& final(self).streams() == old(self).streams()
                                &&& final(self).serial() == old(self).serial()
                                &&& final(self).changes() == old(self).changes()
                                &&& final(self).log() == old(self).log()
                            },
                        }
                    },
                }
            },
    {
        let p = match self.client_index(client.id()) {
            None => {
                return Err(Error::ClientNotFound);
            },
            Some(p) => p,
        };
        proof {
            self.lemma_client_pos(p as int);
        }
        let id = match self.clients[p].stream_of(index) {
            None => {
                return Err(Error::StreamNotFound);
            },
            Some(id) => id,
        };
        let k = match self.find_stream(id) {
            None => {
                return Err(Error::StreamNotFound);
            },
            Some(k) => k,
        };
        proof {
            let k2 = choose|k2: int| 0 <= k2 < self.streams().len() && #[trigger] self.streams()[k2].id == id;
            if k2 != k {
                assert(self.streams@[k2].id != self.streams@[k as int].id);
            }
        }
        let peer = match self.streams[k].get_other(&client.id(), &index) {
            None => {
                return Err(Error::StreamNotOpen);
            },
            Some(peer) => peer,
        };
        let q = match self.client_index(peer.client_id) {
            None => {
                return Err(Error::StreamNotOpen);
            },
            Some(q) => q,
        };
        proof {
            self.lemma_client_pos(q as int);
        }
        let ghost start = *self;
        let mut payload = u32_le_bytes(peer.stream_index.0);
        let mut i: usize = 0;
        while i < data.len()
            invariant
                i <= data@.len(),
                payload@ == le_bytes(peer.stream_index.0) + data@.take(i as int),
            decreases data@.len() - i,
        {
            payload.push(data[i]);
            i = i + 1;
            assert(payload@ =~= le_bytes(peer.stream_index.0) + data@.take(i as int));
        }
        assert(data@.take(i as int) =~= data@);
        self.clients[q].inbox.push(Message::StreamData { index: peer.stream_index, data: payload });
        proof {
            assert(self.clients()[q as int].inbox@.drop_last() =~= start.clients()[q as int].inbox@);
            Self::lemma_wf_frame(start, *self);
        }
        Ok(())
    }

    /// Every inbox of `old` is still there, in the same order, and only grew;
    /// the stream table only lost entries.
    pub open spec fn only_appended(&self, old: Server) -> bool {
        &&& self.clients().len() == old.clients().len()
        &&& forall|i: int| 0 <= i < old.clients().len() ==> {
            &&& (#[trigger] self.clients()[i]).id == old.clients()[i].id
            &&& self.clients()[i].inbox@.len() >= old.clients()[i].inbox@.len()
            &&& self.clients()[i].inbox@.take(old.clients()[i].inbox@.len() as int) == old.clients()[i].inbox@
        }
        &&& forall|k: int| 0 <= k < self.streams().len() ==> old.streams().contains(#[trigger] self.streams()[k])
    }

    proof fn lemma_appended_refl(s: Server)
        ensures
            s.only_appended(s),
    {
        assert forall|i: int| 0 <= i < s.clients().len() implies s.clients()[i].inbox@.take(s.clients()[i].inbox@.len() as int)
            == s.clients()[i].inbox@ by {
            assert(s.clients()[i].inbox@.take(s.clients()[i].inbox@.len() as int) =~= s.clients()[i].inbox@);
        }
        assert forall|k: int| 0 <= k < s.streams().len() implies s.streams().contains(#[trigger] s.streams()[k]) by {
            assert(s.streams()[k] == s.streams()[k]);
        }
    }

    proof fn lemma_appended_trans(a: Server, b: Server, c: Server)
        requires
            b.only_appended(a),
            c.only_appended(b),
        ensures
            c.only_appended(a),
    {
        assert forall|i: int| 0 <= i < a.clients().len() implies {
            &&& (#[trigger] c.clients()[i]).id == a.clients()[i].id
            &&& c.clients()[i].inbox@.len() >= a.clients()[i].inbox@.len()
            &&& c.clients()[i].inbox@.take(a.clients()[i].inbox@.len() as int) == a.clients()[i].inbox@
        } by {
            assert(b.clients()[i].id == a.clients()[i].id);
            let la = a.clients()[i].inbox@.len() as int;
            let lb = b.clients()[i].inbox@.len() as int;
            assert(c.clients()[i].inbox@.take(la) =~= c.clients()[i].inbox@.take(lb).take(la));
        }
        assert forall|k: int| 0 <= k < c.streams().len() implies a.streams().contains(#[trigger] c.streams()[k]) by {
            let j = choose|j: int| 0 <= j < b.streams().len() && b.streams()[j] == c.streams()[k];
            assert(a.streams().contains(b.streams()[j]));
        }
    }

    proof fn lemma_appended_by(old: Server, new: Server, extra: spec_fn(int) -> Seq<Message>)
        requires
            new.clients().len() == old.clients().len(),
            new.streams() == old.streams(),
            forall|i: int| 0 <= i < old.clients().len() ==> (#[trigger] new.clients()[i]).id == old.clients()[i].id
                && new.clients()[i].inbox@ == old.clients()[i].inbox@ + extra(i),
        ensures
            new.only_appended(old),
    {
        assert forall|i: int| 0 <= i < old.clients().len() implies {
            &&& (#[trigger] new.clients()[i]).id == old.clients()[i].id
            &&& new.clients()[i].inbox@.len() >= old.clients()[i].inbox@.len()
            &&& new.clients()[i].inbox@.take(old.clients()[i].inbox@.len() as int) == old.clients()[i].inbox@
        } by {
            assert(new.clients()[i].inbox@.take(old.clients()[i].inbox@.len() as int) =~= old.clients()[i].inbox@);
        }
        assert forall|k: int| 0 <= k < new.streams().len() implies old.streams().contains(#[trigger] new.streams()[k]) by {
            assert(old.streams()[k] == new.streams()[k]);
        }
    }

    /// Replaces the writes that `client` leaves behind for its disconnect.
    pub fn set_disconnect_commands(&mut self, commands: Vec<Command>, client: &Client) -> (r: Result<(), Error>)
        requires
            old(self).wf(),
        ensures
            final(self).wf(),
            !old(self).has_client(client.spec_id()) ==> r == Err::<(), Error>(Error::ClientNotFound) && *final(self) == *old(self),
            old(self).has_client(client.spec_id()) ==> {
                let p = old(self).client_pos(client.spec_id());
                let c = old(self).clients()[p];
                let c2 = final(self).clients()[p];
                &&& r is Ok
                &&& c2.disconnect_commands == commands
                &&& c2.id == c.id && c2.queries == c.queries && c2.invocations == c.invocations && c2.inbox == c.inbox
                &&& c2.next_stream_index == c.next_stream_index && c2.streams == c.streams
                &&& final(self).clients().len() == old(self).clients().len()
                &&& forall|i: int| 0 <= i < old(self).clients().len() && i != p ==> #[trigger] final(self).clients()[i] == old(self).clients()[i]
                &&& final(self).store() == old(self).store()
                &&& final(self).streams() == old(self).streams()
                &&& final(self).serial() == old(self).serial()
                &&& final(self).changes() == old(self).changes()
                &&& final(self).log() == old(self).log()
            },
    {
        match self.client_index(client.id()) {
            None => Err(Error::ClientNotFound),
            Some(p) => {
                let ghost start = *self;
                proof {
                    self.lemma_client_pos(p as int);
                }
                self.clients[p].disconnect_commands = commands;
                proof {
                    Self::lemma_wf_frame(start, *self);
                }
                Ok(())
            },
        }
    }


    /// The server after the stream `id` was closed as `close_stream_by_id`
    /// closes it; the same server where the table has no such stream.
    pub open spec fn after_close_id(&self, old: Server, id: StreamId) -> bool {
        if exists|k: int| 0 <= k < old.streams().len() && #[trigger] old.streams()[k].id == id {
            exists|k: int| 0 <= k < old.streams().len() && #[trigger] old.streams()[k].id == id && self.after_close(old, k)
        } else {
            *self == old
        }
    }

    /// The server after the command `cmd` ran for the client `client_id`, as
    /// `set`, `patch`, `remove` or `emit` runs it; the same server where that
    /// call fails.
    pub open spec fn after_command(&self, old: Server, cmd: Command, client_id: Id) -> bool {
        match cmd {
            Command::SetObject { name, value } => if valid_name(name@) {
                &&& self.after_upsert(old, name@)
                &&& self.store()[name@].value == value
                &&& self.log().drop_last() == old.log()
                &&& self.log().last() matches LogMessage::SetObject { object, value: v, client: c }
                    && object@ == name@ && v == value && c == client_id
            } else {
                *self == old
            },
            Command::PatchObject { name, value } => if valid_name(name@) && old.patchable(name@, value) {
                &&& self.after_upsert(old, name@)
                &&& old.patched(name@, value, self.store()[name@].value)
                &&& self.log().drop_last() == old.log()
                &&& self.log().last() matches LogMessage::PatchObject { object, value: v, client: c }
                    && object@ == name@ && v == value && c == client_id
            } else {
                *self == old
            },
            Command::RemoveObject { name } => if valid_name(name@) && old.store().contains_key(name@) {
                &&& self.after_remove(old, name@)
                &&& self.log().drop_last() == old.log()
                &&& self.log().last() matches LogMessage::RemoveObject { object, client: c }
                    && object@ == name@ && c == client_id
            } else {
                *self == old
            },
            Command::EmitEvent { object, event, data } => if valid_name(object@) && old.store().contains_key(object@) {
                &&& self.after_event(old, object@, event@, data)
                &&& self.log().drop_last() == old.log()
                &&& self.log().last() matches LogMessage::Emit { object: o, event: e, data: d, client: c }
                    && o@ == object@ && e@ == event@ && d == data && c == client_id
            } else {
                *self == old
            },
        }
    }

    /// The server after the record of the client at position `p` was taken
    /// out and each call it was providing failed to its caller.
    pub open spec fn after_failures(&self, old: Server, p: int) -> bool {
        let c = old.clients()[p];
        let rest = old.clients().remove(p);
        &&& self.clients().len() == rest.len()
        &&& forall|j: int|
            0 <= j < rest.len() ==> same_but_inbox(rest[j], #[trigger] self.clients()[j]) && self.clients()[j].inbox@
                == rest[j].inbox@ + failure_messages(c.invocations@, rest[j].id)
        &&& self.store() == old.store()
        &&& self.streams() == old.streams()
        &&& self.serial() == old.serial()
        &&& self.changes() == old.changes()
        &&& self.log() == old.log()
    }

    /// Disconnects `client`: its record goes; each call it was providing fails
    /// to its caller; each of its streams is closed; its disconnect commands
    /// run as if it had sent them, errors ignored.
    pub fn client_disconnect(&mut self, client: Client)
        requires
            old(self).wf(),
        ensures
            final(self).wf(),
            !final(self).has_client(client.spec_id()),
            final(self).log().last() == (LogMessage::ClientDisconnect { client: client.spec_id() }),
            !old(self).has_client(client.spec_id()) ==> final(self).clients() == old(self).clients()
                && final(self).store() == old(self).store() && final(self).streams() == old(self).streams()
                && final(self).serial() == old(self).serial() && final(self).changes() == old(self).changes(),
            old(self).has_client(client.spec_id()) ==> {
                let p = old(self).client_pos(client.spec_id());
                let c = old(self).clients()[p];
                let rest = old(self).clients().remove(p);
                &&& final(self).clients().len() == rest.len()
                &&& forall|j: int| 0 <= j < rest.len() ==> {
                    let fails = failure_messages(c.invocations@, rest[j].id);
                    &&& (#[trigger] final(self).clients()[j]).id == rest[j].id
                    &&& final(self).clients()[j].inbox@.len() >= rest[j].inbox@.len() + fails.len()
                    &&& final(self).clients()[j].inbox@.take((rest[j].inbox@.len() + fails.len()) as int) == rest[j].inbox@ + fails
                }
                &&& forall|e: int, k: int| 0 <= e < c.streams@.len() && 0 <= k < final(self).streams().len()
                    ==> #[trigger] final(self).streams()[k].id != (#[trigger] c.streams@[e]).1
            },
            old(self).has_client(client.spec_id()) ==> {
                let p = old(self).client_pos(client.spec_id());
                let c = old(self).clients()[p];
                exists|closes: Seq<Server>, runs: Seq<Server>| {
                    &&& #[trigger] closes_in_order(closes, listed_ids(c.streams@))
                    &&& #[trigger] commands_in_order(runs, c.disconnect_commands@, client.spec_id())
                    &&& closes[0].after_failures(*old(self), p)
                    &&& runs[0] == closes.last()
                    &&& final(self).store() == runs.last().store()
                    &&& final(self).clients() == runs.last().clients()
                    &&& final(self).streams() == runs.last().streams()
                    &&& final(self).serial() == runs.last().serial()
                    &&& final(self).changes() == runs.last().changes()
                    &&& final(self).log() == runs.last().log().push(LogMessage::ClientDisconnect { client: client.spec_id() })
                }
            },
            old(self).has_client(client.spec_id()) ==> forall|k: int|
                0 <= k < final(self).streams().len() ==> (#[trigger] final(self).streams()[k]).client_a.client_id != client.spec_id()
                    && (final(self).streams()[k].client_b is Some ==> final(self).streams()[k].client_b.unwrap().client_id
                    != client.spec_id()),
    {
        let id = client.id();
        let ghost mut closes: Seq<Server> = Seq::empty();
        let ghost mut runs: Seq<Server> = Seq::empty();
        match self.client_index(id) {
            None => {},
            Some(p) => {
                let ghost start = *self;
                proof {
                    self.lemma_client_pos(p as int);
                }
                let record = self.clients.remove(p);
                proof {
                    assert forall|a: int, b: int|
                        0 <= a < self.clients@.len() && 0 <= b < self.clients@[a].queries@.len() implies query_in_sync(
                        #[trigger] self.clients@[a].queries@[b],
                        self.store(),
                    ) by {
                        let a2 = if a < p { a } else { a + 1 };
                        assert(self.clients@[a] == start.clients@[a2]);
                        assert(query_in_sync(start.clients@[a2].queries@[b], start.store()));
                    }
                    assert forall|a: int, k: int|
                        0 <= a < self.clients@.len() && 0 <= k < self.clients@[a].invocations@.len() implies provided_by(
                        #[trigger] self.clients@[a].invocations@[k],
                        self.clients@[a],
                    ) by {
                        let a2 = if a < p { a } else { a + 1 };
                        assert(self.clients@[a] == start.clients@[a2]);
                        assert(provided_by(start.clients@[a2].invocations@[k], start.clients@[a2]));
                    }
                    assert forall|a: int, b: int|
                        0 <= a < self.clients@.len() && 0 <= b < self.clients@.len() && a != b implies #[trigger] self.clients@[a].id
                        != #[trigger] self.clients@[b].id by {
                        let a2 = if a < p { a } else { a + 1 };
                        let b2 = if b < p { b } else { b + 1 };
                        assert(self.clients@[a] == start.clients@[a2]);
                        assert(self.clients@[b] == start.clients@[b2]);
                    }
                    assert forall|a: int| 0 <= a < self.clients@.len() implies (#[trigger] self.clients@[a]).id.lo < self.next_serial by {
                        let a2 = if a < p { a } else { a + 1 };
                        assert(self.clients@[a] == start.clients@[a2]);
                    }
                    assert forall|a: int| 0 <= a < self.clients@.len() implies (#[trigger] self.clients@[a]).id != id by {
                        let a2 = if a < p { a } else { a + 1 };
                        assert(self.clients@[a] == start.clients@[a2]);
                        assert(start.clients@[a2].id != start.clients@[p as int].id);
                    }
                }
                let ghost removed = *self;
                self.fail_invocations(&record.invocations);
                let ghost failed = *self;
                proof {
                    closes = seq![failed];
                    assert forall|j: int| 0 <= j < start.clients().remove(p as int).len() implies same_but_inbox(
                        start.clients().remove(p as int)[j],
                        #[trigger] failed.clients()[j],
                    ) && failed.clients()[j].inbox@ == start.clients().remove(p as int)[j].inbox@ + failure_messages(
                        start.clients()[p as int].invocations@,
                        start.clients().remove(p as int)[j].id,
                    ) by {
                        assert(removed.clients()[j] == start.clients().remove(p as int)[j]);
                    }
                    assert(failed.after_failures(start, p as int));
                    Self::lemma_appended_refl(failed);
                    assert forall|a: int| 0 <= a < self.clients@.len() implies (#[trigger] self.clients@[a]).id != id by {
                        assert(same_but_inbox(removed.clients()[a], self.clients()[a]));
                        assert(removed.clients@[a].id != id);
                    }
                }
                let mut e: usize = 0;
                while e < record.streams.len()
                    invariant
                        e <= record.streams@.len(),
                        self.wf(),
                        self.only_appended(failed),
                        forall|a: int| 0 <= a < self.clients@.len() ==> (#[trigger] self.clients@[a]).id != id,
                        forall|x: int, k: int| 0 <= x < e && 0 <= k < self.streams().len()
                            ==> #[trigger] self.streams()[k].id != (#[trigger] record.streams@[x]).1,
                        closes_in_order(closes, listed_ids(record.streams@).take(e as int)),
                        closes[0] == failed,
                        id == client.spec_id(),
                        closes.last() == *self,
                    decreases record.streams@.len() - e,
                {
                    let ghost before = *self;
                    let sid = record.streams[e].1;
                    let _ = self.close_stream_by_id(sid);
                    proof {
                        Self::lemma_close_appended(before, *self, sid);
                        Self::lemma_appended_trans(failed, before, *self);
                        assert forall|x: int, k2: int| 0 <= x < e + 1 && 0 <= k2 < self.streams().len()
                            implies #[trigger] self.streams()[k2].id != (#[trigger] record.streams@[x]).1 by {
                            let j = choose|j: int| 0 <= j < before.streams().len() && before.streams()[j] == self.streams()[k2];
                            if x < e {
                                assert(before.streams()[j].id != record.streams@[x].1);
                            }
                        }
                        assert forall|a: int| 0 <= a < self.clients@.len() implies (#[trigger] self.clients@[a]).id != id by {
                            assert(self.clients()[a].id == before.clients()[a].id);
                        }
                        let ids = listed_ids(record.streams@);
                        let prev = closes;
                        closes = closes.push(*self);
                        assert(ids.take(e + 1).drop_last() =~= ids.take(e as int));
                        assert(ids[e as int] == sid);
                        assert forall|j: int| 0 <= j < e + 1 implies (#[trigger] closes[j + 1]).after_close_id(closes[j], ids.take(e + 1)[j]) by {
                            if j < e {
                                assert(prev[j + 1].after_close_id(prev[j], ids.take(e as int)[j]));
                            }
                        }
                    }
                    e = e + 1;
                }
                proof {
                    assert(listed_ids(record.streams@).take(e as int) =~= listed_ids(record.streams@));
                    runs = seq![*self];
                }
                let ghost cmds = record.disconnect_commands@;
                let mut commands = record.disconnect_commands;
                let ghost mut n: int = 0;
                while commands.len() > 0
                    invariant
                        self.wf(),
                        self.only_appended(failed),
                        forall|a: int| 0 <= a < self.clients@.len() ==> (#[trigger] self.clients@[a]).id != id,
                        forall|x: int, k: int| 0 <= x < record.streams@.len() && 0 <= k < self.streams().len()
                            ==> #[trigger] self.streams()[k].id != (#[trigger] record.streams@[x]).1,
                        0 <= n <= cmds.len(),
                        commands@ == cmds.skip(n),
                        id == client.spec_id(),
                        runs[0] == closes.last(),
                        closes_in_order(closes, listed_ids(record.streams@)),
                        closes[0] == failed,
                        failed.after_failures(start, p as int),
                        commands_in_order(runs, cmds.take(n), id),
                        runs.len() > 0,
                        runs.last() == *self,
                    decreases commands@.len(),
                {
                    let ghost before = *self;
                    let command = commands.remove(0);
                    let ghost cmd = command;
                    assert(cmd == cmds[n]);
                    match command {
                        Command::SetObject { name, value } => {
                            let _ = self.set(name.as_str(), value, &client);
                            proof {
                                assert(self.after_command(before, cmd, id));
                                if valid_name(name@) {
                                    Self::lemma_upsert_appended(before, *self, name@);
                                } else {
                                    Self::lemma_appended_refl(*self);
                                }
                            }
                        },
                        Command::PatchObject { name, value } => {
                            let ghost ok = valid_name(name@) && before.patchable(name@, value);
                            let _ = self.patch(name.as_str(), value, &client);
                            proof {
                                assert(self.after_command(before, cmd, id));
                                if ok {
                                    Self::lemma_upsert_appended(before, *self, name@);
                                } else {
                                    Self::lemma_appended_refl(*self);
                                }
                            }
                        },
                        Command::RemoveObject { name } => {
                            let _ = self.remove(name.as_str(), &client);
                            proof {
                                assert(self.after_command(before, cmd, id));
                                if valid_name(name@) && before.store().contains_key(name@) {
                                    Self::lemma_remove_appended(before, *self, name@);
                                } else {
                                    Self::lemma_appended_refl(*self);
                                }
                            }
                        },
                        Command::EmitEvent { object, event, data } => {
                            let _ = self.emit(object.as_str(), event.as_str(), data, &client);
                            proof {
                                assert(self.after_command(before, cmd, id));
                                if valid_name(object@) && before.store().contains_key(object@) {
                                    Self::lemma_event_appended(before, *self, object@, event@, data);
                                } else {
                                    Self::lemma_appended_refl(*self);
                                }
                            }
                        },
                    }
                    proof {
                        let prev = runs;
                        runs = runs.push(*self);
                        assert(cmds.take(n + 1).drop_last() =~= cmds.take(n));
                        assert forall|j: int| 0 <= j < n + 1 implies (#[trigger] runs[j + 1]).after_command(runs[j], cmds.take(n + 1)[j], id) by {
                            if j < n {
                                assert(prev[j + 1].after_command(prev[j], cmds.take(n)[j], id));
                            }
                        }
                        n = n + 1;
                        assert(commands@ =~= cmds.skip(n));
                        Self::lemma_appended_trans(failed, before, *self);
                        assert forall|a: int| 0 <= a < self.clients@.len() implies (#[trigger] self.clients@[a]).id != id by {
                            assert(self.clients()[a].id == before.clients()[a].id);
                        }
                        assert forall|x: int, k: int| 0 <= x < record.streams@.len() && 0 <= k < self.streams().len()
                            implies #[trigger] self.streams()[k].id != (#[trigger] record.streams@[x]).1 by {
                            let j = choose|j: int| 0 <= j < before.streams().len() && before.streams()[j] == self.streams()[k];
                            assert(before.streams()[j].id != record.streams@[x].1);
                        }
                    }
                }
                proof {
                    let c = start.clients()[p as int];
                    let rest = start.clients().remove(p as int);
                    assert(record == c);
                    assert(cmds.take(n) =~= cmds);
                    assert(closes_in_order(closes, listed_ids(c.streams@)));
                    assert(commands_in_order(runs, c.disconnect_commands@, id));
                    assert(closes[0].after_failures(start, p as int));
                    assert(runs[0] == closes.last());
                    assert(runs.last() == *self);
                    assert(removed.clients() == rest);
                    assert forall|x: int, k: int| 0 <= x < c.streams@.len() && 0 <= k < self.streams().len()
                        implies #[trigger] self.streams()[k].id != (#[trigger] c.streams@[x]).1 by {
                        assert(c.streams@[x] == record.streams@[x]);
                    }
                    assert(failed.streams() == start.streams());
                    assert forall|k: int| 0 <= k < self.streams().len() implies (#[trigger] self.streams()[k]).client_a.client_id != id
                        && (self.streams()[k].client_b is Some ==> self.streams()[k].client_b.unwrap().client_id != id) by {
                        let x = self.streams()[k];
                        let j = choose|j: int| 0 <= j < start.streams().len() && start.streams()[j] == x;
                        assert(start.streams@[j] == x);
                        if x.client_a.client_id == id {
                            assert(start.clients@[p as int].id == x.client_a.client_id);
                            assert(start.clients@[p as int].streams@.contains((x.client_a.stream_index, x.id)));
                            let e = choose|e: int| 0 <= e < c.streams@.len() && c.streams@[e] == (x.client_a.stream_index, x.id);
                            assert(self.streams()[k].id != c.streams@[e].1);
                        }
                        if x.client_b is Some && x.client_b.unwrap().client_id == id {
                            assert(start.clients@[p as int].id == x.client_b.unwrap().client_id);
                            assert(start.clients@[p as int].streams@.contains((x.client_b.unwrap().stream_index, x.id)));
                            let e = choose|e: int| 0 <= e < c.streams@.len() && c.streams@[e] == (x.client_b.unwrap().stream_index, x.id);
                            assert(self.streams()[k].id != c.streams@[e].1);
                        }
                    }
                    assert forall|j: int| 0 <= j < rest.len() implies {
                        let fails = failure_messages(c.invocations@, rest[j].id);
                        &&& (#[trigger] self.clients()[j]).id == rest[j].id
                        &&& self.clients()[j].inbox@.len() >= rest[j].inbox@.len() + fails.len()
                        &&& self.clients()[j].inbox@.take((rest[j].inbox@.len() + fails.len()) as int) == rest[j].inbox@ + fails
                    } by {
                        assert(same_but_inbox(removed.clients()[j], failed.clients()[j]));
                        assert(failed.clients()[j].inbox@ == rest[j].inbox@ + failure_messages(c.invocations@, rest[j].id));
                    }
                }
            },
        }
        let ghost last = *self;
        self.log.push(LogMessage::ClientDisconnect { client: id });
        proof {
            if old(self).has_client(id) {
                let p = old(self).client_pos(id);
                let c = old(self).clients()[p];
                assert(closes_in_order(closes, listed_ids(c.streams@)));
                assert(commands_in_order(runs, c.disconnect_commands@, id));
                assert(closes[0].after_failures(*old(self), p));
                assert(runs[0] == closes.last());
                assert(runs.last() == last);
                assert(self.log() == last.log().push(LogMessage::ClientDisconnect { client: client.spec_id() }));
            }
        }
    }

    proof fn lemma_close_appended(before: Server, after: Server, sid: StreamId)
        requires
            before.wf(),
            !(exists|k: int| 0 <= k < before.streams().len() && #[trigger] before.streams()[k].id == sid) ==> after == before,
            (exists|k: int| 0 <= k < before.streams().len() && #[trigger] before.streams()[k].id == sid) ==> exists|k: int|
                0 <= k < before.streams().len() && #[trigger] before.streams()[k].id == sid && after.after_close(before, k),
        ensures
            after.only_appended(before),
            forall|k: int| 0 <= k < after.streams().len() ==> (#[trigger] after.streams()[k]).id != sid,
    {
        if exists|k: int| 0 <= k < before.streams().len() && #[trigger] before.streams()[k].id == sid {
            let k = choose|k: int| 0 <= k < before.streams().len() && #[trigger] before.streams()[k].id == sid
                && after.after_close(before, k);
            let st = before.streams()[k];
            assert forall|i: int| 0 <= i < before.clients().len() implies {
                &&& (#[trigger] after.clients()[i]).id == before.clients()[i].id
                &&& after.clients()[i].inbox@.len() >= before.clients()[i].inbox@.len()
                &&& after.clients()[i].inbox@.take(before.clients()[i].inbox@.len() as int) == before.clients()[i].inbox@
            } by {
                assert(client_after_close(before.clients()[i], after.clients()[i], st));
                assert(after.clients()[i].inbox@.take(before.clients()[i].inbox@.len() as int) =~= before.clients()[i].inbox@);
            }
            assert forall|x: int| 0 <= x < after.streams().len() implies before.streams().contains(#[trigger] after.streams()[x]) by {
                let j = if x < k { x } else { x + 1 };
                assert(before.streams()[j] == after.streams()[x]);
            }
            assert forall|x: int| 0 <= x < after.streams().len() implies (#[trigger] after.streams()[x]).id != sid by {
                let j = if x < k { x } else { x + 1 };
                assert(before.streams()[j] == after.streams()[x]);
                assert(before.streams@[j].id != before.streams@[k].id);
            }
        } else {
            Self::lemma_appended_refl(after);
        }
    }

    proof fn lemma_upsert_appended(old: Server, new: Server, name: Seq<char>)
        requires
            new.after_upsert(old, name),
        ensures
            new.only_appended(old),
    {
        let existed = old.store().contains_key(name);
        let o = new.store()[name];
        assert forall|i: int| 0 <= i < old.clients().len() implies (#[trigger] new.clients()[i]).id == old.clients()[i].id
            && new.clients()[i].inbox@ == old.clients()[i].inbox@ + upsert_messages(old.clients()[i].queries@, name, o, existed) by {
            assert(client_after_upsert(old.clients()[i], new.clients()[i], name, o, existed));
        }
        Self::lemma_appended_by(old, new, |i: int| upsert_messages(old.clients()[i].queries@, name, o, existed));
    }

    proof fn lemma_remove_appended(old: Server, new: Server, name: Seq<char>)
        requires
            new.after_remove(old, name),
        ensures
            new.only_appended(old),
    {
        let o = old.store()[name];
        assert forall|i: int| 0 <= i < old.clients().len() implies (#[trigger] new.clients()[i]).id == old.clients()[i].id
            && new.clients()[i].inbox@ == old.clients()[i].inbox@ + remove_messages(old.clients()[i].queries@, o) by {
            assert(client_after_remove(old.clients()[i], new.clients()[i], o));
        }
        Self::lemma_appended_by(old, new, |i: int| remove_messages(old.clients()[i].queries@, o));
    }

    proof fn lemma_event_appended(old: Server, new: Server, name: Seq<char>, event: Seq<char>, data: serde_json::Value)
        requires
            new.after_event(old, name, event, data),
        ensures
            new.only_appended(old),
    {
        assert forall|i: int| 0 <= i < old.clients().len() implies (#[trigger] new.clients()[i]).id == old.clients()[i].id
            && new.clients()[i].inbox@ == old.clients()[i].inbox@ + new.clients()[i].inbox@.skip(old.clients()[i].inbox@.len() as int) by {
            assert(client_after_event(old.clients()[i], new.clients()[i], name, event, data));
            assert(new.clients()[i].inbox@ =~= new.clients()[i].inbox@.take(old.clients()[i].inbox@.len() as int)
                + new.clients()[i].inbox@.skip(old.clients()[i].inbox@.len() as int));
        }
        Self::lemma_appended_by(old, new, |i: int| new.clients()[i].inbox@.skip(old.clients()[i].inbox@.len() as int));
    }

    /// The stored object `name`.
    pub fn object(&self, name: &str) -> (r: Option<Object>)
        requires
            self.wf(),
        ensures
            match r {
                Some(o) => self.store().contains_key(name@) && o == self.store()[name@],
                None => !self.store().contains_key(name@),
            },
    {
        let name = name.to_owned();
        match self.find_object(&name) {
            Some(i) => {
                proof {
                    lemma_store_index(self.objects@, i as int);
                }
                Some(self.objects[i].clone())
            },
            None => {
                proof {
                    lemma_store_absent(self.objects@, name@);
                }
                None
            },
        }
    }

    /// The record of the connected client `id`.
    pub fn client_state(&self, id: Id) -> (r: Option<&ClientState>)
        requires
            self.wf(),
        ensures
            match r {
                Some(c) => self.has_client(id) && *c == self.clients()[self.client_pos(id)],
                None => !self.has_client(id),
            },
    {
        match self.client_index(id) {
            Some(p) => {
                proof {
                    self.lemma_client_pos(p as int);
                }
                Some(&self.clients[p])
            },
            None => None,
        }
    }

    /// The stream `id` in the table.
    pub fn stream_state(&self, id: StreamId) -> (r: Option<StreamState>)
        ensures
            match r {
                Some(st) => st.id == id && self.streams().contains(st),
                None => forall|k: int| 0 <= k < self.streams().len() ==> (#[trigger] self.streams()[k]).id != id,
            },
    {
        match self.find_stream(id) {
            Some(k) => {
                assert(self.streams()[k as int] == self.streams@[k as int]);
                Some(self.streams[k])
            },
            None => None,
        }
    }

    /// How many streams are open or waiting for their second endpoint.
    pub fn stream_count(&self) -> (r: usize)
        ensures
            r == self.streams().len(),
    {
        self.streams.len()
    }

    /// Hands out the log records written since the last call.
    pub fn take_log(&mut self) -> (r: Vec<LogMessage>)
        requires
            old(self).wf(),
        ensures
            final(self).wf(),
            r@ == old(self).log(),
            final(self).log().len() == 0,
            final(self).store() == old(self).store(),
            final(self).clients() == old(self).clients(),
            final(self).streams() == old(self).streams(),
            final(self).serial() == old(self).serial(),
            final(self).changes() == old(self).changes(),
    {
        let mut out: Vec<LogMessage> = Vec::new();
        std::mem::swap(&mut out, &mut self.log);
        out
    }

    /// Hands out the changes for the persistence adapter made since the last call.
    pub fn take_changes(&mut self) -> (r: Vec<StorageChange>)
        requires
            old(self).wf(),
        ensures
            final(self).wf(),
            r@ == old(self).changes(),
            final(self).changes().len() == 0,
            final(self).store() == old(self).store(),
            final(self).clients() == old(self).clients(),
            final(self).streams() == old(self).streams(),
            final(self).serial() == old(self).serial(),
            final(self).log() == old(self).log(),
    {
        let mut out: Vec<StorageChange> = Vec::new();
        std::mem::swap(&mut out, &mut self.changes);
        out
    }

    /// Whether another identifier can be handed out.
    pub fn has_ids_left(&self) -> (r: bool)
        ensures
            r == self.ids_left(),
    {
        self.next_serial < u64::MAX
    }

    /// The stored objects by name.
    pub closed spec fn store(&self) -> Map<Seq<char>, Object> {
        store_of(self.objects@)
    }

    /// The connected clients, in the order the broker scans them.
    pub closed spec fn clients(&self) -> Seq<ClientState> {
        self.clients@
    }

    pub closed spec fn streams(&self) -> Seq<StreamState> {
        self.streams@
    }

    /// The log records not yet taken.
    pub closed spec fn log(&self) -> Seq<LogMessage> {
        self.log@
    }

    /// The changes for the persistence adapter not yet taken.
    pub closed spec fn changes(&self) -> Seq<StorageChange> {
        self.changes@
    }

    /// The serial number of the next identifier.
    pub closed spec fn serial(&self) -> u64 {
        self.next_serial
    }

    /// Whether a client with identifier `id` is connected.
    pub open spec fn has_client(&self, id: Id) -> bool {
        exists|i: int| 0 <= i < self.clients().len() && self.clients()[i].id == id
    }

    /// The position of the connected client `id`.
    pub open spec fn client_pos(&self, id: Id) -> int {
        choose|i: int| 0 <= i < self.clients().len() && self.clients()[i].id == id
    }

    /// Whether another identifier can be handed out.
    pub open spec fn ids_left(&self) -> bool {
        self.serial() < u64::MAX
    }

    /// The invariant that every operation keeps.
    pub closed spec fn wf(&self) -> bool {
        &&& names_unique(self.objects@)
        &&& self.store().contains_key(system_name())
        &&& forall|i: int, j: int|
            0 <= i < self.clients@.len() && 0 <= j < self.clients@.len() && i != j
                ==> #[trigger] self.clients@[i].id != #[trigger] self.clients@[j].id
        &&& forall|i: int| 0 <= i < self.clients@.len() ==> (#[trigger] self.clients@[i]).id.lo < self.next_serial
        &&& forall|i: int, j: int|
            0 <= i < self.streams@.len() && 0 <= j < self.streams@.len() && i != j
                ==> #[trigger] self.streams@[i].id != #[trigger] self.streams@[j].id
        &&& forall|i: int| 0 <= i < self.streams@.len() ==> (#[trigger] self.streams@[i]).id.0.lo < self.next_serial
        &&& forall|i: int, j: int|
            0 <= i < self.clients@.len() && 0 <= j < self.clients@[i].queries@.len() ==> query_in_sync(
                #[trigger] self.clients@[i].queries@[j],
                self.store(),
            )
        &&& forall|i: int, k: int|
            0 <= i < self.clients@.len() && 0 <= k < self.clients@[i].invocations@.len()
                ==> provided_by(#[trigger] self.clients@[i].invocations@[k], self.clients@[i])
        &&& streams_linked(self.clients@, self.streams@, self.next_serial)
        &&& ids_fresh(self.clients@, self.next_serial)
    }

    /// The server after `name` was written: the store holds the new object
    /// and each client got its `upsert_messages`.
    pub open spec fn after_upsert(&self, old: Server, name: Seq<char>) -> bool {
        let existed = old.store().contains_key(name);
        let o = self.store()[name];
        &&& self.store() == old.store().insert(name, o)
        &&& o.name@ == name
        &&& existed ==> o.last_modified >= old.store()[name].last_modified
        &&& self.clients().len() == old.clients().len()
        &&& forall|i: int|
            0 <= i < old.clients().len() ==> client_after_upsert(
                #[trigger] old.clients()[i],
                self.clients()[i],
                name,
                o,
                existed,
            )
        &&& self.streams() == old.streams()
        &&& self.serial() == old.serial()
        &&& self.changes() == old.changes().push(
            if existed {
                StorageChange::Change(o)
            } else {
                StorageChange::Add(o)
            },
        )
    }

    proof fn lemma_client_pos(&self, p: int)
        requires
            self.wf(),
            0 <= p < self.clients().len(),
        ensures
            self.has_client(self.clients()[p].id),
            self.client_pos(self.clients()[p].id) == p,
    {
        let id = self.clients()[p].id;
        assert(self.clients@[p].id == id);
        let q = self.client_pos(id);
        assert(self.clients@[q].id == id);
    }

    fn find_object(&self, name: &String) -> (r: Option<usize>)
        ensures
            match r {
                Some(i) => i < self.objects@.len() && self.objects@[i as int].name@ == name@,
                None => forall|i: int| 0 <= i < self.objects@.len() ==> self.objects@[i].name@ != name@,
            },
    {
        let mut i: usize = 0;
        while i < self.objects.len()
            invariant
                i <= self.objects@.len(),
                forall|k: int| 0 <= k < i ==> self.objects@[k].name@ != name@,
            decreases self.objects@.len() - i,
        {
            if self.objects[i].name == *name {
                return Some(i);
            }
            i = i + 1;
        }
        None
    }

    fn client_index(&self, id: Id) -> (r: Option<usize>)
        ensures
            match r {
                Some(i) => i < self.clients@.len() && self.clients@[i as int].id == id,
                None => !self.has_client(id),
            },
    {
        let mut i: usize = 0;
        while i < self.clients.len()
            invariant
                i <= self.clients@.len(),
                forall|k: int| 0 <= k < i ==> self.clients@[k].id != id,
            decreases self.clients@.len() - i,
        {
            if self.clients[i].id == id {
                return Some(i);
            }
            i = i + 1;
        }
        None
    }

    /// Writes `value` under `name` (created or replaced) and tells every
    /// matching query; `existed` says whether the name was stored before.
    fn upsert(&mut self, name: &String, value: serde_json::Value, existing: Option<usize>)
        requires
            old(self).wf(),
            valid_name(name@),
            match existing {
                Some(i) => i < old(self).objects@.len() && old(self).objects@[i as int].name@ == name@,
                None => forall|i: int| 0 <= i < old(self).objects@.len() ==> old(self).objects@[i].name@ != name@,
            },
        ensures
            final(self).wf(),
            final(self).after_upsert(*old(self), name@),
            final(self).store()[name@].value == value,
            final(self).log() == old(self).log(),
    {
        let ghost start = *self;
        let now = now_micros();
        let object;
        match existing {
            Some(i) => {
                let prev = self.objects[i].last_modified;
                let stamp = if now > prev { now } else { prev };
                object = Object { name: name.clone(), value, last_modified: stamp };
                proof {
                    lemma_store_index(self.objects@, i as int);
                    lemma_store_update(self.objects@, i as int, object);
                }
                self.objects.set(i, object.clone());
                self.changes.push(StorageChange::Change(object.clone()));
            },
            None => {
                object = Object { name: name.clone(), value, last_modified: now };
                proof {
                    lemma_store_absent(self.objects@, name@);
                    lemma_store_push(self.objects@, object);
                }
                self.objects.push(object.clone());
                self.changes.push(StorageChange::Add(object.clone()));
            },
        }
        let existed = existing.is_some();
        assert(self.store() == start.store().insert(name@, object));
        assert(existed == start.store().contains_key(name@));
        assert forall|i: int, j: int|
            0 <= i < start.clients@.len() && 0 <= j < start.clients@[i].queries@.len() implies (members(
            #[trigger] start.clients@[i].queries@[j],
        ).contains(name@) <==> (existed && start.clients@[i].queries@[j].pattern.accepts(name@))) by {
            assert(query_in_sync(start.clients@[i].queries@[j], start.store()));
        }
        let ghost mid = *self;
        let mut i: usize = 0;
        while i < self.clients.len()
            invariant
                i <= self.clients@.len(),
                self.clients@.len() == start.clients@.len(),
                mid.clients == start.clients,
                self.objects == mid.objects,
                self.streams == mid.streams,
                self.next_serial == mid.next_serial,
                self.log == mid.log,
                self.changes == mid.changes,
                forall|a: int, b: int|
                    0 <= a < start.clients@.len() && 0 <= b < start.clients@[a].queries@.len() ==> (members(
                    #[trigger] start.clients@[a].queries@[b],
                ).contains(name@) <==> (existed && start.clients@[a].queries@[b].pattern.accepts(name@))),
                forall|k: int|
                    0 <= k < i ==> client_after_upsert(#[trigger] start.clients@[k], self.clients@[k], name@, object, existed),
                forall|k: int| i <= k < self.clients@.len() ==> #[trigger] self.clients@[k] == start.clients@[k],
            decreases self.clients@.len() - i,
        {
            self.clients[i].fanout_upsert(name, &object, existed);
            i = i + 1;
        }
        proof {
            assert(self.store()[name@] == object);
            assert forall|a: int| 0 <= a < start.clients@.len() implies (#[trigger] self.clients@[a]).id == start.clients@[a].id
                && self.clients@[a].streams == start.clients@[a].streams && self.clients@[a].next_stream_index
                == start.clients@[a].next_stream_index by {
                assert(client_after_upsert(start.clients@[a], self.clients@[a], name@, object, existed));
            }
            lemma_links_frame(start.clients@, self.clients@, self.streams@, start.next_serial, self.next_serial);
            assert forall|a: int, b: int|
                0 <= a < self.clients@.len() && 0 <= b < self.clients@[a].queries@.len() implies query_in_sync(
                #[trigger] self.clients@[a].queries@[b],
                self.store(),
            ) by {
                assert(client_after_upsert(start.clients@[a], self.clients@[a], name@, object, existed));
                assert(same_query(start.clients@[a].queries@[b], self.clients@[a].queries@[b]));
                assert(query_in_sync(start.clients@[a].queries@[b], start.store()));
            }
            assert forall|a: int, k: int|
                0 <= a < self.clients@.len() && 0 <= k < self.clients@[a].invocations@.len() implies provided_by(
                #[trigger] self.clients@[a].invocations@[k],
                self.clients@[a],
            ) by {
                assert(client_after_upsert(start.clients@[a], self.clients@[a], name@, object, existed));
                lemma_provided_same(start.clients@[a], self.clients@[a], start.clients@[a].invocations@[k]);
            }
            assert forall|a: int, b: int|
                0 <= a < self.clients@.len() && 0 <= b < self.clients@.len() && a != b implies #[trigger] self.clients@[a].id
                != #[trigger] self.clients@[b].id by {
                assert(client_after_upsert(start.clients@[a], self.clients@[a], name@, object, existed));
                assert(client_after_upsert(start.clients@[b], self.clients@[b], name@, object, existed));
            }
            assert forall|a: int| 0 <= a < self.clients@.len() implies (#[trigger] self.clients@[a]).id.lo < self.next_serial by {
                assert(client_after_upsert(start.clients@[a], self.clients@[a], name@, object, existed));
            }
        }
    }
}

} // verus!

verus! {

/// How many messages the clients `cs` were sent, all inboxes together.
pub open spec fn inbox_total(cs: Seq<ClientState>) -> nat
    decreases cs.len(),
{
    if cs.len() == 0 {
        0
    } else {
        inbox_total(cs.drop_last()) + cs.last().inbox@.len()
    }
}

/// How many calls the clients `cs` hold, waiting for their answers.
pub open spec fn invocation_total(cs: Seq<ClientState>) -> nat
    decreases cs.len(),
{
    if cs.len() == 0 {
        0
    } else {
        invocation_total(cs.drop_last()) + cs.last().invocations@.len()
    }
}

proof fn lemma_totals_one_more(a: Seq<ClientState>, b: Seq<ClientState>, p: int)
    requires
        a.len() == b.len(),
        0 <= p < a.len(),
        forall|i: int| 0 <= i < a.len() && i != p ==> #[trigger] b[i] == a[i],
        b[p].inbox@.len() == a[p].inbox@.len() + 1,
        b[p].invocations@.len() == a[p].invocations@.len() + 1,
    ensures
        inbox_total(b) == inbox_total(a) + 1,
        invocation_total(b) == invocation_total(a) + 1,
    decreases a.len(),
{
    if p == a.len() - 1 {
        assert(a.drop_last() =~= b.drop_last()) by {
            assert forall|i: int| 0 <= i < a.drop_last().len() implies a.drop_last()[i] == b.drop_last()[i] by {
                assert(b[i] == a[i]);
            }
        }
    } else {
        assert(b.last() == a.last()) by {
            assert(b[a.len() - 1] == a[a.len() - 1]);
        }
        assert forall|i: int| 0 <= i < a.drop_last().len() && i != p implies #[trigger] b.drop_last()[i] == a.drop_last()[i] by {
            assert(b[i] == a[i]);
        }
        lemma_totals_one_more(a.drop_last(), b.drop_last(), p);
    }
}

/// A call that `invoke` accepted reaches exactly one provider: all inboxes
/// together hold one message more, and exactly one call record was added.
/// That record is answered once: by the provider's result, or by a failure
/// when the provider withdraws the query or disconnects, and each of these
/// removes it.
pub proof fn law_invoke_delivers_once(
    old: Server,
    new: Server,
    object: Seq<char>,
    method: Seq<char>,
    args: serde_json::Value,
    request_id: serde_json::Value,
    caller: Id,
)
    requires
        new.after_invoke(old, object, method, args, request_id, caller),
    ensures
        inbox_total(new.clients()) == inbox_total(old.clients()) + 1,
        invocation_total(new.clients()) == invocation_total(old.clients()) + 1,
        exists|p: int|
            0 <= p < new.clients().len() && (#[trigger] new.clients()[p]).inbox@.last() is QueryInvocation
                && new.clients()[p].invocations@.last().client_id == caller
                && new.clients()[p].invocations@.last().request_id == request_id,
{
    let (p, j) = choose|p: int, j: int| {
        &&& 0 <= p < old.clients().len()
        &&& forall|i: int| 0 <= i < p ==> !is_provider(#[trigger] old.clients()[i], object)
        &&& first_providing_query(old.clients()[p], object, j)
        &&& forall|i: int| 0 <= i < old.clients().len() && i != p ==> #[trigger] new.clients()[i] == old.clients()[i]
        &&& {
            let c = old.clients()[p];
            let c2 = new.clients()[p];
            let inv = c2.invocations@.last();
            &&& c2.id == c.id && c2.queries == c.queries && c2.disconnect_commands == c.disconnect_commands
            &&& c2.next_stream_index == c.next_stream_index && c2.streams == c.streams
            &&& c2.invocations@.drop_last() == c.invocations@ && c2.invocations@.len() == c.invocations@.len() + 1
            &&& inv.id.lo == old.serial() && inv.client_id == caller
            &&& inv.request_id == request_id && inv.query_id == c.queries@[j].id
            &&& c2.inbox@.drop_last() == c.inbox@ && c2.inbox@.len() == c.inbox@.len() + 1
            &&& is_call(c2.inbox@.last(), c.queries@[j].id, inv.id, object, method, args)
        }
    };
    lemma_totals_one_more(old.clients(), new.clients(), p);
}

/// Every call waiting for its answer is held by a client that still has a
/// query answering calls under the identifier the call was routed through.
pub proof fn law_invocations_have_provider(s: Server, i: int, k: int)
    requires
        s.wf(),
        0 <= i < s.clients().len(),
        0 <= k < s.clients()[i].invocations@.len(),
    ensures
        provided_by(s.clients()[i].invocations@[k], s.clients()[i]),
{
}

/// A query holds a name exactly when that object is stored and the query's
/// pattern matches it: the name came in with the write that created the
/// object or with the query's first snapshot, and left with its removal.
pub proof fn law_query_members(s: Server, i: int, j: int, n: Seq<char>)
    requires
        s.wf(),
        0 <= i < s.clients().len(),
        0 <= j < s.clients()[i].queries@.len(),
    ensures
        members(s.clients()[i].queries@[j]).contains(n) <==> (s.store().contains_key(n)
            && s.clients()[i].queries@[j].pattern.accepts(n)),
{
    assert(query_in_sync(s.clients@[i].queries@[j], s.store()));
}

/// Writes of one name, one after another with nothing removed between them:
/// the stored value is the one written last, and the write times never go back.
pub proof fn law_set_sequence(states: Seq<Server>, name: Seq<char>, values: Seq<serde_json::Value>)
    requires
        values.len() > 0,
        states.len() == values.len() + 1,
        forall|i: int|
            0 <= i < values.len() ==> (#[trigger] states[i + 1]).after_upsert(states[i], name)
                && states[i + 1].store()[name].value == values[i],
    ensures
        states.last().store()[name].value == values.last(),
        forall|i: int, j: int|
            1 <= i <= j < states.len() ==> (#[trigger] states[i]).store()[name].last_modified
                <= (#[trigger] states[j]).store()[name].last_modified,
{
    assert(states[values.len() as int].store()[name].value == values[values.len() - 1]) by {
        assert(states[(values.len() - 1) + 1].after_upsert(states[values.len() - 1], name));
    }
    assert forall|i: int, j: int| 1 <= i <= j < states.len() implies (#[trigger] states[i]).store()[name].last_modified
        <= (#[trigger] states[j]).store()[name].last_modified by {
        lemma_set_times(states, name, values, i, j);
    }
}

proof fn lemma_set_times(states: Seq<Server>, name: Seq<char>, values: Seq<serde_json::Value>, i: int, j: int)
    requires
        states.len() == values.len() + 1,
        forall|k: int|
            0 <= k < values.len() ==> (#[trigger] states[k + 1]).after_upsert(states[k], name)
                && states[k + 1].store()[name].value == values[k],
        1 <= i <= j < states.len(),
    ensures
        states[i].store()[name].last_modified <= states[j].store()[name].last_modified,
    decreases j - i,
{
    if i < j {
        lemma_set_times(states, name, values, i, j - 1);
        assert(states[(j - 1) + 1].after_upsert(states[j - 1], name));
        assert(states[(j - 2) + 1].after_upsert(states[j - 2], name));
        assert(states[j - 1].store().contains_key(name));
    }
}

/// A write followed by a get whose pattern matches exactly that name gives
/// one object, holding the value written.
pub proof fn law_set_then_get(
    before: Server,
    after: Server,
    name: Seq<char>,
    value: serde_json::Value,
    pattern: Pattern,
    objs: Seq<Object>,
)
    requires
        after.after_upsert(before, name),
        after.store()[name].value == value,
        forall|m: Seq<char>| #[trigger] pattern.accepts(m) <==> m == name,
        snapshot(objs, after.store(), pattern),
    ensures
        objs.len() == 1,
        objs[0].name@ == name,
        objs[0].value == value,
{
    assert(after.store().contains_key(name));
    assert(pattern.accepts(name));
    let i = choose|i: int| 0 <= i < objs.len() && #[trigger] objs[i].name@ == name;
    if objs.len() > 1 {
        let k: int = if i == 0 { 1 } else { 0 };
        assert(pattern.accepts(objs[k].name@));
        assert(objs[k].name@ != objs[i].name@);
    }
}

/// The endpoints of the stream `s` on the client `id`.
pub open spec fn endpoints_on(s: StreamState, id: Id) -> nat {
    (if s.client_a.client_id == id { 1nat } else { 0nat }) + (if s.client_b matches Some(b) && b.client_id == id {
        1nat
    } else {
        0nat
    })
}

/// Once a stream is closed the table no longer holds its identifier, and each
/// connected client got one close message for each endpoint it had on it,
/// and nothing else.
pub proof fn law_closed_stream(old: Server, new: Server, k: int)
    requires
        old.wf(),
        0 <= k < old.streams().len(),
        new.after_close(old, k),
    ensures
        forall|x: int| 0 <= x < new.streams().len() ==> (#[trigger] new.streams()[x]).id != old.streams()[k].id,
        forall|i: int|
            0 <= i < old.clients().len() ==> (#[trigger] new.clients()[i]).inbox@.len() == old.clients()[i].inbox@.len()
                + endpoints_on(old.streams()[k], old.clients()[i].id),
        forall|i: int, m: int|
            0 <= i < old.clients().len() && old.clients()[i].inbox@.len() <= m < new.clients()[i].inbox@.len()
                ==> (#[trigger] new.clients()[i].inbox@[m]) is StreamClosed,
{
    let s = old.streams()[k];
    assert forall|x: int| 0 <= x < new.streams().len() implies (#[trigger] new.streams()[x]).id != s.id by {
        let j = if x < k { x } else { x + 1 };
        assert(new.streams()[x] == old.streams()[j]);
        assert(old.streams@[j].id != old.streams@[k].id);
    }
    assert forall|i: int| 0 <= i < old.clients().len() implies (#[trigger] new.clients()[i]).inbox@.len()
        == old.clients()[i].inbox@.len() + endpoints_on(s, old.clients()[i].id) by {
        assert(client_after_close(old.clients()[i], new.clients()[i], s));
    }
    assert forall|i: int, m: int|
        0 <= i < old.clients().len() && old.clients()[i].inbox@.len() <= m < new.clients()[i].inbox@.len()
            implies (#[trigger] new.clients()[i].inbox@[m]) is StreamClosed by {
        assert(client_after_close(old.clients()[i], new.clients()[i], s));
    }
}

} // verus!

verus! {

/// The clients' stream lists and the stream table agree at all times: each
/// listed number names a stream of which that client and number are an
/// endpoint, each endpoint of a connected client is listed, and a client's
/// numbers are distinct and below its next number, so none is used twice.
pub proof fn law_streams_linked(s: Server)
    requires
        s.wf(),
    ensures
        streams_linked(s.clients(), s.streams(), s.serial()),
{
}

} // verus!

verus! {

/// The reserved object is stored at all times.
pub proof fn law_system_stored(s: Server)
    requires
        s.wf(),
    ensures
        s.store().contains_key(system_name()),
{
}

/// Identifiers are never shared: connected clients, the streams in the
/// table, the queries and the waiting calls each have distinct identifiers,
/// and all of them were handed out before the next serial number.
pub proof fn law_ids_distinct(s: Server)
    requires
        s.wf(),
    ensures
        forall|i: int, j: int|
            0 <= i < s.clients().len() && 0 <= j < s.clients().len() && i != j ==> #[trigger] s.clients()[i].id
                != #[trigger] s.clients()[j].id,
        forall|i: int| 0 <= i < s.clients().len() ==> (#[trigger] s.clients()[i]).id.lo < s.serial(),
        forall|i: int, j: int|
            0 <= i < s.streams().len() && 0 <= j < s.streams().len() && i != j ==> #[trigger] s.streams()[i].id
                != #[trigger] s.streams()[j].id,
        forall|i: int| 0 <= i < s.streams().len() ==> (#[trigger] s.streams()[i]).id.0.lo < s.serial(),
        ids_fresh(s.clients(), s.serial()),
{
    assert forall|i: int, j: int|
        0 <= i < s.clients().len() && 0 <= j < s.clients().len() && i != j implies #[trigger] s.clients()[i].id
            != #[trigger] s.clients()[j].id by {
        assert(s.clients@[i].id != s.clients@[j].id);
    }
    assert forall|i: int, j: int|
        0 <= i < s.streams().len() && 0 <= j < s.streams().len() && i != j implies #[trigger] s.streams()[i].id
            != #[trigger] s.streams()[j].id by {
        assert(s.streams@[i].id != s.streams@[j].id);
    }
}

} // verus!
