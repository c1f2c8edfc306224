use vstd::prelude::*;

use crate::hash::{sha256, sha256_spec};
use vstd::utf8::encode_utf8;
use crate::nodeid::{push_bytes, NodeID, U256};

verus! {

broadcast use vstd::array::group_array_axioms;

/// The categories of events.
#[derive(PartialEq, Eq, Hash, Clone, Copy, Debug, Structural)]
pub enum Category {
    LoopixSetup,
    LoopixConfig,
    TextMessage,
    NodeInfo,
}

/// The name of a category, as it is hashed into an event's identifier.
pub open spec fn category_name(c: Category) -> Seq<char> {
    match c {
        Category::LoopixSetup => "LoopixSetup"@,
        Category::LoopixConfig => "LoopixConfig"@,
        Category::TextMessage => "TextMessage"@,
        Category::NodeInfo => "NodeInfo"@,
    }
}

impl Category {
    pub fn name(&self) -> (r: &'static str)
        ensures
            r@ == category_name(*self),
    {
        match self {
            Category::LoopixSetup => "LoopixSetup",
            Category::LoopixConfig => "LoopixConfig",
            Category::TextMessage => "TextMessage",
            Category::NodeInfo => "NodeInfo",
        }
    }
}

/// How the events of a category are kept.
#[derive(Debug, Clone, Copy, PartialEq, Eq, Structural)]
pub struct CategoryConfig {
    // Only one event per node
    pub unique: bool,
    // How many events to hold
    pub max_events: usize,
}

impl CategoryConfig {
    pub fn new(unique: bool, max_events: usize) -> (r: CategoryConfig)
        ensures
            r == (CategoryConfig { unique, max_events }),
    {
        CategoryConfig { unique, max_events }
    }
}

/// An event created by the node `src` at time `created`.
#[derive(Debug, PartialEq)]
pub struct Event {
    pub category: Category,
    pub src: NodeID,
    pub created: i64,
    pub msg: String,
}

impl Clone for Event {
    fn clone(&self) -> (r: Self)
        ensures
            r == *self,
    {
        Event { category: self.category, src: self.src, created: self.created, msg: self.msg.clone() }
    }
}

/// The little-endian bytes of `x`.
pub open spec fn le_bytes_i64(x: i64) -> Seq<u8> {
    Seq::new(8, |i: int| ((x as u64) >> ((8 * i) as u64)) as u8)
}

/// The bytes whose digest is the identifier of an event: the category's name, the
/// source node, the creation time and the message.
pub open spec fn event_preimage(e: Event) -> Seq<u8> {
    encode_utf8(category_name(e.category)) + e.src.bytes@ + le_bytes_i64(e.created) + encode_utf8(
        e.msg@,
    )
}

/// The identifier of an event: the SHA-256 digest of its preimage.
pub open spec fn event_id(e: Event) -> Seq<u8> {
    sha256_spec(event_preimage(e))
}

fn push_le_bytes_i64(v: &mut Vec<u8>, x: i64)
    ensures
        final(v)@ == old(v)@ + le_bytes_i64(x),
{
    let u: u64 = x as u64;
    let mut i: u64 = 0;
    while i < 8
        invariant
            0 <= i <= 8,
            u == x as u64,
            v@ == old(v)@ + le_bytes_i64(x).take(i as int),
        decreases 8 - i,
    {
        proof {
            assert(old(v)@ + le_bytes_i64(x).take(i + 1) =~= (old(v)@ + le_bytes_i64(x).take(
                i as int,
            )).push(((x as u64) >> ((8 * i) as u64)) as u8));
        }
        v.push((u >> (8 * i)) as u8);
        i = i + 1;
    }
    proof {
        assert(le_bytes_i64(x).take(8) =~= le_bytes_i64(x));
    }
}

impl Event {
    /// The identifier of the event: the SHA-256 digest of its category's name, its
    /// source, its creation time and its message.
    pub fn get_id(&self) -> (r: NodeID)
        ensures
            r.bytes@ == event_id(*self),
    {
        let mut data: Vec<u8> = Vec::new();
        push_bytes(&mut data, self.category.name().as_bytes());
        push_bytes(&mut data, self.src.bytes.as_slice());
        push_le_bytes_i64(&mut data, self.created);
        push_bytes(&mut data, self.msg.as_str().as_bytes());
        proof {
            assert(data@ =~= event_preimage(*self));
        }
        U256 { bytes: sha256(data.as_slice()) }
    }
}


// ---------------------------------------------------------------------------
// Sequences of events
// ---------------------------------------------------------------------------

/// The index of the first event with identifier `id`.
pub open spec fn find_event_id(s: Seq<Event>, id: Seq<u8>) -> Option<int>
    decreases s.len(),
{
    if s.len() == 0 {
        None
    } else {
        match find_event_id(s.drop_last(), id) {
            Some(i) => Some(i),
            None => if event_id(s.last()) == id {
                Some(s.len() - 1)
            } else {
                None
            },
        }
    }
}

/// The index of the first event from `src`.
pub open spec fn find_src(s: Seq<Event>, src: NodeID) -> Option<int>
    decreases s.len(),
{
    if s.len() == 0 {
        None
    } else {
        match find_src(s.drop_last(), src) {
            Some(i) => Some(i),
            None => if s.last().src == src {
                Some(s.len() - 1)
            } else {
                None
            },
        }
    }
}

/// The index of the last of the oldest events of a non-empty sequence.
pub open spec fn last_oldest(s: Seq<Event>) -> int
    decreases s.len(),
{
    if s.len() <= 1 {
        0
    } else {
        let j = last_oldest(s.drop_last());
        if s.last().created <= s[j].created {
            s.len() - 1
        } else {
            j
        }
    }
}

/// Drops the oldest events until at most `max` are left. Among events of the same
/// age, the later ones are dropped first.
pub open spec fn limit_events(s: Seq<Event>, max: nat) -> Seq<Event>
    decreases s.len(),
{
    if s.len() <= max {
        s
    } else {
        proof {
            lemma_last_oldest(s);
        }
        limit_events(s.remove(last_oldest(s)), max)
    }
}

/// The identifier is in the list.
pub open spec fn id_listed(ids: Seq<U256>, id: Seq<u8>) -> bool {
    exists|j: int| 0 <= j < ids.len() && (#[trigger] ids[j]).bytes@ == id
}

/// The events whose identifier is in `ids`, in storage order.
pub open spec fn events_listed(s: Seq<Event>, ids: Seq<U256>) -> Seq<Event>
    decreases s.len(),
{
    if s.len() == 0 {
        Seq::empty()
    } else if id_listed(ids, event_id(s.last())) {
        events_listed(s.drop_last(), ids).push(s.last())
    } else {
        events_listed(s.drop_last(), ids)
    }
}

/// For each identifier of `ids` in order, the stored event with this identifier,
/// if there is one.
pub open spec fn events_for_ids(s: Seq<Event>, ids: Seq<U256>) -> Seq<Event>
    decreases ids.len(),
{
    if ids.len() == 0 {
        Seq::empty()
    } else {
        match find_event_id(s, ids.last().bytes@) {
            Some(i) => events_for_ids(s, ids.drop_last()).push(s[i]),
            None => events_for_ids(s, ids.drop_last()),
        }
    }
}

/// The stored events of one category.
pub struct EventsView {
    pub config: CategoryConfig,
    pub events: Seq<Event>,
}

impl EventsView {
    /// Inserts the event and drops the oldest events beyond the limit.
    pub open spec fn insert_simple(self, e: Event) -> EventsView {
        EventsView {
            events: limit_events(self.events.push(e), self.config.max_events as nat),
            ..self
        }
    }

    /// Inserts an event unless one with the same identifier is stored; in a
    /// category with one event per node, an older event of the same node is
    /// replaced and a newer one keeps the new event out. The flag tells whether the
    /// event was inserted.
    pub open spec fn insert(self, e: Event) -> (EventsView, bool) {
        if find_event_id(self.events, event_id(e)) is Some {
            (self, false)
        } else if self.config.unique {
            match find_src(self.events, e.src) {
                Some(i) => if self.events[i].created > e.created {
                    (self, false)
                } else {
                    (EventsView { events: self.events.remove(i), ..self }.insert_simple(e), true)
                },
                None => (self.insert_simple(e), true),
            }
        } else {
            (self.insert_simple(e), true)
        }
    }

    pub open spec fn get_events_by_ids(self, ids: Seq<U256>) -> Seq<Event> {
        if self.config.unique {
            events_listed(self.events, ids)
        } else {
            events_for_ids(self.events, ids)
        }
    }

    pub open spec fn get_event(self, id: U256) -> Option<Event> {
        let r = self.get_events_by_ids(seq![id]);
        if r.len() > 0 {
            Some(r[0])
        } else {
            None
        }
    }
}

proof fn lemma_seq_prefix<T>(s: Seq<T>, i: int)
    requires
        0 <= i < s.len(),
    ensures
        s.take(i + 1).drop_last() == s.take(i),
        s.take(i + 1).last() == s[i],
{
    assert(s.take(i + 1).drop_last() =~= s.take(i));
}

proof fn lemma_find_event_id_prefix(s: Seq<Event>, id: Seq<u8>, k: int)
    requires
        0 <= k <= s.len(),
        find_event_id(s.take(k), id) is Some,
    ensures
        find_event_id(s, id) == find_event_id(s.take(k), id),
    decreases s.len() - k,
{
    if k < s.len() {
        lemma_seq_prefix(s, k);
        lemma_find_event_id_prefix(s, id, k + 1);
    } else {
        assert(s.take(k) =~= s);
    }
}

proof fn lemma_find_event_id_some(s: Seq<Event>, id: Seq<u8>)
    ensures
        find_event_id(s, id) matches Some(i) ==> 0 <= i < s.len() && event_id(s[i]) == id,
        find_event_id(s, id) is None ==> forall|i: int| 0 <= i < s.len() ==> event_id(#[trigger] s[i]) != id,
    decreases s.len(),
{
    if s.len() > 0 {
        let p = s.drop_last();
        lemma_find_event_id_some(p, id);
        if find_event_id(s, id) is None {
            assert forall|i: int| 0 <= i < s.len() implies event_id(#[trigger] s[i]) != id by {
                if i < p.len() {
                    assert(s[i] == p[i]);
                }
            }
        }
        if let Some(i) = find_event_id(p, id) {
            assert(s[i] == p[i]);
        }
    }
}

proof fn lemma_find_src_prefix(s: Seq<Event>, src: NodeID, k: int)
    requires
        0 <= k <= s.len(),
        find_src(s.take(k), src) is Some,
    ensures
        find_src(s, src) == find_src(s.take(k), src),
    decreases s.len() - k,
{
    if k < s.len() {
        lemma_seq_prefix(s, k);
        lemma_find_src_prefix(s, src, k + 1);
    } else {
        assert(s.take(k) =~= s);
    }
}

proof fn lemma_find_src_some(s: Seq<Event>, src: NodeID)
    ensures
        find_src(s, src) matches Some(i) ==> 0 <= i < s.len() && s[i].src == src,
    decreases s.len(),
{
    if s.len() > 0 {
        let p = s.drop_last();
        lemma_find_src_some(p, src);
        if let Some(i) = find_src(p, src) {
            assert(s[i] == p[i]);
        }
    }
}

/// The last oldest event is in range and no event is older.
pub proof fn lemma_last_oldest(s: Seq<Event>)
    requires
        s.len() > 0,
    ensures
        0 <= last_oldest(s) < s.len(),
        forall|i: int| 0 <= i < s.len() ==> s[last_oldest(s)].created <= #[trigger] s[i].created,
    decreases s.len(),
{
    if s.len() > 1 {
        let p = s.drop_last();
        lemma_last_oldest(p);
        let j = last_oldest(p);
        assert(s[j] == p[j]);
        assert forall|i: int| 0 <= i < s.len() implies s[last_oldest(s)].created
            <= #[trigger] s[i].created by {
            if i < p.len() {
                assert(s[i] == p[i]);
            }
        }
    }
}

// ---------------------------------------------------------------------------
// The events of one category
// ---------------------------------------------------------------------------

/// The events of one category, with the identifier of each.
#[derive(Debug)]
pub struct Events {
    config: CategoryConfig,
    events: Vec<Event>,
    ids: Vec<U256>,
}

impl View for Events {
    type V = EventsView;

    closed spec fn view(&self) -> EventsView {
        EventsView { config: self.config, events: self.events@ }
    }
}

impl Clone for Events {
    fn clone(&self) -> (r: Self)
        ensures
            r@ == self@,
            r.wf() == self.wf(),
    {
        let mut events: Vec<Event> = Vec::new();
        let mut i: usize = 0;
        while i < self.events.len()
            invariant
                0 <= i <= self.events.len(),
                events@ == self.events@.take(i as int),
            decreases self.events.len() - i,
        {
            events.push(self.events[i].clone());
            proof {
                assert(events@ =~= self.events@.take(i + 1));
            }
            i = i + 1;
        }
        let mut ids: Vec<U256> = Vec::new();
        let mut k: usize = 0;
        while k < self.ids.len()
            invariant
                0 <= k <= self.ids.len(),
                ids@ == self.ids@.take(k as int),
            decreases self.ids.len() - k,
        {
            ids.push(self.ids[k]);
            proof {
                assert(ids@ =~= self.ids@.take(k + 1));
            }
            k = k + 1;
        }
        proof {
            assert(events@ =~= self.events@);
            assert(ids@ =~= self.ids@);
        }
        Events { config: self.config, events, ids }
    }
}

impl Events {
    /// The identifiers stored next to the events are theirs.
    pub closed spec fn wf(&self) -> bool {
        &&& self.ids@.len() == self.events@.len()
        &&& forall|i: int| 0 <= i < self.ids@.len() ==> (#[trigger] self.ids@[i]).bytes@ == event_id(self.events@[i])
    }

    pub fn new(config: CategoryConfig) -> (r: Events)
        ensures
            r@ == (EventsView { config, events: Seq::empty() }),
            r.wf(),
    {
        Events { config, events: Vec::new(), ids: Vec::new() }
    }

    pub fn config(&self) -> (r: CategoryConfig)
        ensures
            r == self@.config,
    {
        self.config
    }

    /// All stored events, in storage order.
    pub fn events(&self) -> (r: Vec<Event>)
        ensures
            r@ == self@.events,
    {
        let mut r: Vec<Event> = Vec::new();
        let mut i: usize = 0;
        while i < self.events.len()
            invariant
                0 <= i <= self.events.len(),
                r@ == self.events@.take(i as int),
            decreases self.events.len() - i,
        {
            proof {
                lemma_seq_prefix(self.events@, i as int);
            }
            r.push(self.events[i].clone());
            i = i + 1;
        }
        proof {
            assert(self.events@.take(self.events.len() as int) =~= self.events@);
        }
        r
    }

    /// The identifiers of the stored events, in storage order.
    pub fn ids(&self) -> (r: Vec<U256>)
        requires
            self.wf(),
        ensures
            r@.len() == self@.events.len(),
            forall|i: int| 0 <= i < r@.len() ==> (#[trigger] r@[i]).bytes@ == event_id(self@.events[i]),
    {
        let mut r: Vec<U256> = Vec::new();
        let mut i: usize = 0;
        while i < self.ids.len()
            invariant
                0 <= i <= self.ids.len(),
                self.wf(),
                r@ == self.ids@.take(i as int),
            decreases self.ids.len() - i,
        {
            proof {
                lemma_seq_prefix(self.ids@, i as int);
            }
            r.push(self.ids[i]);
            i = i + 1;
        }
        proof {
            assert(self.ids@.take(self.ids.len() as int) =~= self.ids@);
        }
        r
    }

    fn index_of_id(&self, id: &U256) -> (r: Option<usize>)
        requires
            self.wf(),
        ensures
            r matches Some(i) ==> find_event_id(self@.events, id.bytes@) == Some(i as int),
            r is None ==> find_event_id(self@.events, id.bytes@) is None,
    {
        let mut i: usize = 0;
        while i < self.ids.len()
            invariant
                0 <= i <= self.ids.len(),
                self.wf(),
                find_event_id(self.events@.take(i as int), id.bytes@) is None,
            decreases self.ids.len() - i,
        {
            proof {
                lemma_seq_prefix(self.events@, i as int);
            }
            if self.ids[i].same(id) {
                proof {
                    lemma_find_event_id_prefix(self.events@, id.bytes@, i + 1);
                }
                return Some(i);
            }
            proof {
                assert(self.ids@[i as int] != *id);
                if self.ids@[i as int].bytes@ == id.bytes@ {
                    assert(self.ids@[i as int].bytes =~= id.bytes);
                }
            }
            i = i + 1;
        }
        proof {
            assert(self.events@.take(self.events.len() as int) =~= self.events@);
        }
        None
    }

    fn index_of_src(&self, src: &NodeID) -> (r: Option<usize>)
        ensures
            r matches Some(i) ==> find_src(self@.events, *src) == Some(i as int),
            r is None ==> find_src(self@.events, *src) is None,
    {
        let mut i: usize = 0;
        while i < self.events.len()
            invariant
                0 <= i <= self.events.len(),
                find_src(self.events@.take(i as int), *src) is None,
            decreases self.events.len() - i,
        {
            proof {
                lemma_seq_prefix(self.events@, i as int);
            }
            if self.events[i].src.same(src) {
                proof {
                    lemma_find_src_prefix(self.events@, *src, i + 1);
                }
                return Some(i);
            }
            i = i + 1;
        }
        proof {
            assert(self.events@.take(self.events.len() as int) =~= self.events@);
        }
        None
    }

    fn remove_at(&mut self, i: usize)
        requires
            old(self).wf(),
            i < old(self)@.events.len(),
        ensures
            final(self)@ == (EventsView { events: old(self)@.events.remove(i as int), ..old(self)@ }),
            final(self).wf(),
    {
        self.events.remove(i);
        self.ids.remove(i);
        proof {
            assert forall|j: int| 0 <= j < self.ids@.len() implies (#[trigger] self.ids@[j]).bytes@
                == event_id(self.events@[j]) by {
                if j < i {
                    assert(self.ids@[j] == old(self).ids@[j]);
                } else {
                    assert(self.ids@[j] == old(self).ids@[j + 1]);
                }
            }
        }
    }

    fn last_oldest_index(&self) -> (r: usize)
        requires
            self@.events.len() > 0,
        ensures
            r == last_oldest(self@.events),
    {
        let mut j: usize = 0;
        let mut i: usize = 1;
        proof {
            assert(self.events@.take(1).len() == 1);
        }
        while i < self.events.len()
            invariant
                1 <= i <= self.events.len(),
                j == last_oldest(self.events@.take(i as int)),
                j < i,
            decreases self.events.len() - i,
        {
            proof {
                lemma_seq_prefix(self.events@, i as int);
                lemma_last_oldest(self.events@.take(i as int));
            }
            if self.events[i].created <= self.events[j].created {
                j = i;
            }
            i = i + 1;
        }
        proof {
            assert(self.events@.take(self.events.len() as int) =~= self.events@);
        }
        j
    }

    // Ensures that there are no more than max_events stored.
    // Deletes the oldest messages if there are more.
    fn limit(&mut self)
        requires
            old(self).wf(),
        ensures
            final(self)@ == (EventsView {
                events: limit_events(old(self)@.events, old(self)@.config.max_events as nat),
                ..old(self)@
            }),
            final(self).wf(),
    {
        while self.events.len() > self.config.max_events
            invariant
                self.wf(),
                self.config == old(self).config,
                limit_events(self@.events, self.config.max_events as nat) == limit_events(
                    old(self)@.events,
                    old(self)@.config.max_events as nat,
                ),
            decreases self.events.len(),
        {
            let j = self.last_oldest_index();
            proof {
                lemma_last_oldest(self@.events);
            }
            self.remove_at(j);
        }
    }

    // Insert the message in the events and make sure the limits are kept.
    fn insert_simple(&mut self, msg: Event, id: U256)
        requires
            old(self).wf(),
            id.bytes@ == event_id(msg),
        ensures
            final(self)@ == old(self)@.insert_simple(msg),
            final(self).wf(),
    {
        self.events.push(msg);
        self.ids.push(id);
        proof {
            assert forall|j: int| 0 <= j < self.ids@.len() implies (#[trigger] self.ids@[j]).bytes@
                == event_id(self.events@[j]) by {
                if j < old(self).ids@.len() {
                    assert(self.ids@[j] == old(self).ids@[j]);
                }
            }
        }
        self.limit();
    }

    // Makes sure that the 'unique' configuration is respected.
    pub fn insert(&mut self, msg: Event) -> (r: bool)
        requires
            old(self).wf(),
        ensures
            (final(self)@, r) == old(self)@.insert(msg),
            final(self).wf(),
    {
        let id = msg.get_id();
        if self.index_of_id(&id).is_some() {
            return false;
        }
        if self.config.unique {
            self.insert_unique(msg, id)
        } else {
            self.insert_simple(msg, id);
            true
        }
    }

    // Check if a message from the same node already exists. If it does,
    // keep only the most recent of the stored and incoming message.
    fn insert_unique(&mut self, msg: Event, id: U256) -> (r: bool)
        requires
            old(self).wf(),
            id.bytes@ == event_id(msg),
        ensures
            r == (match find_src(old(self)@.events, msg.src) {
                Some(i) => old(self)@.events[i].created <= msg.created,
                None => true,
            }),
            final(self)@ == (match find_src(old(self)@.events, msg.src) {
                Some(i) => if old(self)@.events[i].created > msg.created {
                    old(self)@
                } else {
                    EventsView { events: old(self)@.events.remove(i), ..old(self)@ }.insert_simple(msg)
                },
                None => old(self)@.insert_simple(msg),
            }),
            final(self).wf(),
    {
        let found = self.index_of_src(&msg.src);
        proof {
            lemma_find_src_some(self@.events, msg.src);
        }
        if let Some(i) = found {
            if self.events[i].created > msg.created {
                return false;
            }
            self.remove_at(i);
        }
        self.insert_simple(msg, id);
        true
    }

    /// Returns all messages that are part of the ids.
    pub fn get_events_by_ids(&self, ids: Vec<U256>) -> (r: Vec<Event>)
        requires
            self.wf(),
        ensures
            r@ == self@.get_events_by_ids(ids@),
    {
        if self.config.unique {
            let mut r: Vec<Event> = Vec::new();
            let mut i: usize = 0;
            while i < self.events.len()
                invariant
                    0 <= i <= self.events.len(),
                    self.wf(),
                    r@ == events_listed(self.events@.take(i as int), ids@),
                decreases self.events.len() - i,
            {
                proof {
                    lemma_seq_prefix(self.events@, i as int);
                }
                let listed = crate::nodeid::ids_contain(&ids, &self.ids[i]);
                proof {
                    if listed {
                        let j = choose|j: int| 0 <= j < ids@.len() && ids@[j] == self.ids@[i as int];
                        assert(ids@[j].bytes@ == event_id(self.events@[i as int]));
                    }
                    if id_listed(ids@, event_id(self.events@[i as int])) {
                        let j = choose|j: int| 0 <= j < ids@.len() && (#[trigger] ids@[j]).bytes@ == event_id(self.events@[i as int]);
                        assert(ids@[j].bytes@ == self.ids@[i as int].bytes@);
                        assert(ids@[j].bytes =~= self.ids@[i as int].bytes);
                        assert(ids@.contains(self.ids@[i as int]));
                    }
                }
                if listed {
                    r.push(self.events[i].clone());
                }
                i = i + 1;
            }
            proof {
                assert(self.events@.take(self.events.len() as int) =~= self.events@);
            }
            r
        } else {
            let mut r: Vec<Event> = Vec::new();
            let mut i: usize = 0;
            while i < ids.len()
                invariant
                    0 <= i <= ids.len(),
                    self.wf(),
                    r@ == events_for_ids(self.events@, ids@.take(i as int)),
                decreases ids.len() - i,
            {
                proof {
                    lemma_seq_prefix(ids@, i as int);
                }
                let found = self.index_of_id(&ids[i]);
                proof {
                    lemma_find_event_id_some(self.events@, ids@[i as int].bytes@);
                }
                if let Some(k) = found {
                    r.push(self.events[k].clone());
                }
                i = i + 1;
            }
            proof {
                assert(ids@.take(ids.len() as int) =~= ids@);
            }
            r
        }
    }

    pub fn get_event(&self, id: &U256) -> (r: Option<Event>)
        requires
            self.wf(),
        ensures
            r == self@.get_event(*id),
    {
        let mut v: Vec<U256> = Vec::new();
        v.push(*id);
        proof {
            assert(v@ =~= seq![*id]);
        }
        let r = self.get_events_by_ids(v);
        if r.len() > 0 {
            Some(r[0].clone())
        } else {
            None
        }
    }
}


// ---------------------------------------------------------------------------
// Events of all categories
// ---------------------------------------------------------------------------

/// The events of one category, stored under that category.
#[derive(Debug)]
struct CategoryEvents {
    category: Category,
    events: Events,
}

impl CategoryEvents {
    fn copy(&self) -> (r: Self)
        ensures
            r.category == self.category,
            r.events@ == self.events@,
            r.events.wf() == self.events.wf(),
    {
        CategoryEvents { category: self.category, events: self.events.clone() }
    }
}

/// The stored events of every category, in storage order of the categories.
pub type StorageView = Seq<(Category, EventsView)>;

/// The index of the first entry of category `cat`.
pub open spec fn find_category(s: StorageView, cat: Category) -> Option<int>
    decreases s.len(),
{
    if s.len() == 0 {
        None
    } else {
        match find_category(s.drop_last(), cat) {
            Some(i) => Some(i),
            None => if s.last().0 == cat {
                Some(s.len() - 1)
            } else {
                None
            },
        }
    }
}

/// Adds an event to the entry of its category; the flag tells whether it was
/// inserted.
pub open spec fn storage_add_event(s: StorageView, e: Event) -> (StorageView, bool) {
    match find_category(s, e.category) {
        Some(i) => {
            let (ev, r) = s[i].1.insert(e);
            (s.update(i, (s[i].0, ev)), r)
        },
        None => (s, false),
    }
}

/// The first event with identifier `id`, looking at the categories in order.
pub open spec fn storage_event(s: StorageView, id: U256) -> Option<Event>
    decreases s.len(),
{
    if s.len() == 0 {
        None
    } else {
        match storage_event(s.drop_last(), id) {
            Some(e) => Some(e),
            None => s.last().1.get_event(id),
        }
    }
}

/// The events with the given identifiers, category by category.
pub open spec fn storage_events_by_ids(s: StorageView, ids: Seq<U256>) -> Seq<Event>
    decreases s.len(),
{
    if s.len() == 0 {
        Seq::empty()
    } else {
        storage_events_by_ids(s.drop_last(), ids) + s.last().1.get_events_by_ids(ids)
    }
}

/// The identifiers of all stored events, category by category.
pub open spec fn storage_event_ids(s: StorageView) -> Seq<Seq<u8>>
    decreases s.len(),
{
    if s.len() == 0 {
        Seq::empty()
    } else {
        storage_event_ids(s.drop_last()) + s.last().1.events.map_values(|e: Event| event_id(e))
    }
}

/// This holds a number of Events from of different categories. Every category can
/// have its own configuration with regard of whether its events are unique to a
/// node (e.g., NodeInfo), or can be many per node (e.g., TextMessage).
#[derive(Debug)]
pub struct EventsStorage {
    storage: Vec<CategoryEvents>,
}

impl Clone for EventsStorage {
    fn clone(&self) -> (r: Self)
        ensures
            r@ == self@,
            self.wf() ==> r.wf(),
    {
        let mut storage: Vec<CategoryEvents> = Vec::new();
        let mut i: usize = 0;
        while i < self.storage.len()
            invariant
                0 <= i <= self.storage.len(),
                storage@.len() == i,
                forall|j: int| 0 <= j < i ==> (#[trigger] storage@[j]).category == self.storage@[j].category
                    && storage@[j].events@ == self.storage@[j].events@
                    && storage@[j].events.wf() == self.storage@[j].events.wf(),
            decreases self.storage.len() - i,
        {
            storage.push(self.storage[i].copy());
            i = i + 1;
        }
        let r = EventsStorage { storage };
        proof {
            assert(r@ =~= self@);
        }
        r
    }
}

impl View for EventsStorage {
    type V = StorageView;

    closed spec fn view(&self) -> StorageView {
        self.storage@.map_values(|c: CategoryEvents| (c.category, c.events@))
    }
}

impl EventsStorage {
    /// The contents of a new storage: four empty categories.
    pub open spec fn new_view() -> StorageView {
        seq![
            (Category::TextMessage, EventsView { config: CategoryConfig { unique: false, max_events: 50 }, events: Seq::empty() }),
            (Category::NodeInfo, EventsView { config: CategoryConfig { unique: true, max_events: 100 }, events: Seq::empty() }),
            (Category::LoopixSetup, EventsView { config: CategoryConfig { unique: true, max_events: 1 }, events: Seq::empty() }),
            (Category::LoopixConfig, EventsView { config: CategoryConfig { unique: true, max_events: 1000 }, events: Seq::empty() }),
        ]
    }

    pub closed spec fn wf(&self) -> bool {
        forall|i: int| 0 <= i < self.storage@.len() ==> (#[trigger] self.storage@[i]).events.wf()
    }

    /// Initializes an EventsStorage with the four categories.
    pub fn new() -> (r: EventsStorage)
        ensures
            r.wf(),
            r@ == seq![
                (Category::TextMessage, EventsView { config: CategoryConfig { unique: false, max_events: 50 }, events: Seq::empty() }),
                (Category::NodeInfo, EventsView { config: CategoryConfig { unique: true, max_events: 100 }, events: Seq::empty() }),
                (Category::LoopixSetup, EventsView { config: CategoryConfig { unique: true, max_events: 1 }, events: Seq::empty() }),
                (Category::LoopixConfig, EventsView { config: CategoryConfig { unique: true, max_events: 1000 }, events: Seq::empty() }),
            ],
    {
        let mut storage: Vec<CategoryEvents> = Vec::new();
        storage.push(CategoryEvents {
            category: Category::TextMessage,
            events: Events::new(CategoryConfig { unique: false, max_events: 50 }),
        });
        storage.push(CategoryEvents {
            category: Category::NodeInfo,
            events: Events::new(CategoryConfig { unique: true, max_events: 100 }),
        });
        storage.push(CategoryEvents {
            category: Category::LoopixSetup,
            events: Events::new(CategoryConfig { unique: true, max_events: 1 }),
        });
        storage.push(CategoryEvents {
            category: Category::LoopixConfig,
            events: Events::new(CategoryConfig { unique: true, max_events: 1000 }),
        });
        let r = EventsStorage { storage };
        proof {
            assert(r@ =~= seq![
                (Category::TextMessage, EventsView { config: CategoryConfig { unique: false, max_events: 50 }, events: Seq::empty() }),
                (Category::NodeInfo, EventsView { config: CategoryConfig { unique: true, max_events: 100 }, events: Seq::empty() }),
                (Category::LoopixSetup, EventsView { config: CategoryConfig { unique: true, max_events: 1 }, events: Seq::empty() }),
                (Category::LoopixConfig, EventsView { config: CategoryConfig { unique: true, max_events: 1000 }, events: Seq::empty() }),
            ]);
        }
        r
    }

    /// A storage without categories, to be filled with `add_category`.
    pub fn empty() -> (r: EventsStorage)
        ensures
            r.wf(),
            r@ == Seq::<(Category, EventsView)>::empty(),
    {
        let r = EventsStorage { storage: Vec::new() };
        proof {
            assert(r@ =~= Seq::<(Category, EventsView)>::empty());
        }
        r
    }

    /// The categories with their configurations, in storage order.
    pub fn category_configs(&self) -> (r: Vec<(Category, CategoryConfig)>)
        ensures
            r@.len() == self@.len(),
            forall|i: int|
                0 <= i < r@.len() ==> (#[trigger] r@[i]) == (self@[i].0, self@[i].1.config),
    {
        let mut r: Vec<(Category, CategoryConfig)> = Vec::new();
        let mut i: usize = 0;
        while i < self.storage.len()
            invariant
                0 <= i <= self.storage.len(),
                r@.len() == i,
                forall|j: int|
                    0 <= j < i ==> (#[trigger] r@[j]) == (self@[j].0, self@[j].1.config),
            decreases self.storage.len() - i,
        {
            r.push((self.storage[i].category, self.storage[i].events.config()));
            i = i + 1;
        }
        r
    }

    /// Appends a category with its configuration and inserts the events one by one,
    /// as `Events::insert` does.
    pub fn add_category(&mut self, category: Category, config: CategoryConfig, events: Vec<Event>)
        requires
            old(self).wf(),
        ensures
            final(self).wf(),
            final(self)@.len() == old(self)@.len() + 1,
            final(self)@.take(old(self)@.len() as int) == old(self)@,
            final(self)@.last().0 == category,
            final(self)@.last().1 == insert_all(EventsView { config, events: Seq::empty() }, events@),
    {
        let mut evs = Events::new(config);
        let mut i: usize = 0;
        while i < events.len()
            invariant
                0 <= i <= events.len(),
                evs.wf(),
                evs@ == insert_all(EventsView { config, events: Seq::empty() }, events@.take(i as int)),
            decreases events.len() - i,
        {
            proof {
                lemma_seq_prefix(events@, i as int);
            }
            evs.insert(events[i].clone());
            i = i + 1;
        }
        proof {
            assert(events@.take(events.len() as int) =~= events@);
        }
        let ghost old_v = self@;
        self.storage.push(CategoryEvents { category, events: evs });
        proof {
            assert(self@.take(old_v.len() as int) =~= old_v);
        }
    }

    fn find_category(&self, cat: Category) -> (r: Option<usize>)
        ensures
            r matches Some(i) ==> find_category(self@, cat) == Some(i as int) && i < self@.len(),
            r is None ==> find_category(self@, cat) is None,
    {
        let mut i: usize = 0;
        while i < self.storage.len()
            invariant
                0 <= i <= self.storage.len(),
                find_category(self@.take(i as int), cat) is None,
            decreases self.storage.len() - i,
        {
            proof {
                lemma_seq_prefix(self@, i as int);
            }
            if self.storage[i].category == cat {
                proof {
                    lemma_find_category_prefix(self@, cat, i + 1);
                }
                return Some(i);
            }
            i = i + 1;
        }
        proof {
            assert(self@.take(self@.len() as int) =~= self@);
        }
        None
    }

    /// Adds the event to its category, if that category is stored. Returns whether
    /// the event was inserted.
    pub fn add_event(&mut self, msg: Event) -> (r: bool)
        requires
            old(self).wf(),
        ensures
            (final(self)@, r) == storage_add_event(old(self)@, msg),
            final(self).wf(),
    {
        match self.find_category(msg.category) {
            Some(i) => {
                let ghost old_v = self@;
                let r = self.storage[i].events.insert(msg);
                proof {
                    assert(self@ =~= old_v.update(i as int, (old_v[i as int].0, self.storage@[i as int].events@)));
                    assert forall|j: int| 0 <= j < self.storage@.len() implies (#[trigger] self.storage@[j]).events.wf() by {
                        if j != i {
                            assert(self.storage@[j] == old(self).storage@[j]);
                        }
                    }
                }
                r
            },
            None => false,
        }
    }

    /// The first stored event with identifier `id`.
    pub fn event(&self, id: &U256) -> (r: Option<Event>)
        requires
            self.wf(),
        ensures
            r == storage_event(self@, *id),
    {
        let mut i: usize = 0;
        while i < self.storage.len()
            invariant
                0 <= i <= self.storage.len(),
                self.wf(),
                storage_event(self@.take(i as int), *id) is None,
            decreases self.storage.len() - i,
        {
            proof {
                lemma_seq_prefix(self@, i as int);
            }
            let e = self.storage[i].events.get_event(id);
            if e.is_some() {
                proof {
                    lemma_storage_event_prefix(self@, *id, i + 1);
                }
                return e;
            }
            i = i + 1;
        }
        proof {
            assert(self@.take(self@.len() as int) =~= self@);
        }
        None
    }

    /// The events of the category `cat`, which must be stored.
    pub fn events(&self, cat: Category) -> (r: Vec<Event>)
        requires
            find_category(self@, cat) is Some,
        ensures
            r@ == self@[find_category(self@, cat)->0].1.events,
    {
        let i = self.find_category(cat).unwrap();
        self.storage[i].events.events()
    }

    pub fn get_events_by_ids(&self, ids: Vec<U256>) -> (r: Vec<Event>)
        requires
            self.wf(),
        ensures
            r@ == storage_events_by_ids(self@, ids@),
    {
        let mut r: Vec<Event> = Vec::new();
        let mut i: usize = 0;
        while i < self.storage.len()
            invariant
                0 <= i <= self.storage.len(),
                self.wf(),
                r@ == storage_events_by_ids(self@.take(i as int), ids@),
            decreases self.storage.len() - i,
        {
            proof {
                lemma_seq_prefix(self@, i as int);
            }
            let mut copy: Vec<U256> = Vec::new();
            let mut j: usize = 0;
            while j < ids.len()
                invariant
                    0 <= j <= ids.len(),
                    copy@ == ids@.take(j as int),
                decreases ids.len() - j,
            {
                proof {
                    lemma_seq_prefix(ids@, j as int);
                }
                copy.push(ids[j]);
                j = j + 1;
            }
            proof {
                assert(ids@.take(ids.len() as int) =~= ids@);
            }
            let mut evs = self.storage[i].events.get_events_by_ids(copy);
            r.append(&mut evs);
            i = i + 1;
        }
        proof {
            assert(self@.take(self@.len() as int) =~= self@);
        }
        r
    }

    /// The identifiers of all stored events, category by category.
    pub fn event_ids(&self) -> (r: Vec<U256>)
        requires
            self.wf(),
        ensures
            r@.map_values(|u: U256| u.bytes@) == storage_event_ids(self@),
    {
        let mut r: Vec<U256> = Vec::new();
        let mut i: usize = 0;
        while i < self.storage.len()
            invariant
                0 <= i <= self.storage.len(),
                self.wf(),
                r@.map_values(|u: U256| u.bytes@) == storage_event_ids(self@.take(i as int)),
            decreases self.storage.len() - i,
        {
            proof {
                lemma_seq_prefix(self@, i as int);
            }
            let ghost before = r@;
            let mut ids = self.storage[i].events.ids();
            r.append(&mut ids);
            proof {
                let ev = self@[i as int].1.events;
                assert(r@.map_values(|u: U256| u.bytes@) =~= before.map_values(|u: U256| u.bytes@)
                    + ev.map_values(|e: Event| event_id(e)));
            }
            i = i + 1;
        }
        proof {
            assert(self@.take(self@.len() as int) =~= self@);
        }
        r
    }
}

/// Inserts the events one by one.
pub open spec fn insert_all(v: EventsView, es: Seq<Event>) -> EventsView
    decreases es.len(),
{
    if es.len() == 0 {
        v
    } else {
        insert_all(v, es.drop_last()).insert(es.last()).0
    }
}

proof fn lemma_find_category_prefix(s: StorageView, cat: Category, k: int)
    requires
        0 <= k <= s.len(),
        find_category(s.take(k), cat) is Some,
    ensures
        find_category(s, cat) == find_category(s.take(k), cat),
    decreases s.len() - k,
{
    if k < s.len() {
        lemma_seq_prefix(s, k);
        lemma_find_category_prefix(s, cat, k + 1);
    } else {
        assert(s.take(k) =~= s);
    }
}

proof fn lemma_storage_event_prefix(s: StorageView, id: U256, k: int)
    requires
        0 <= k <= s.len(),
        storage_event(s.take(k), id) is Some,
    ensures
        storage_event(s, id) == storage_event(s.take(k), id),
    decreases s.len() - k,
{
    if k < s.len() {
        lemma_seq_prefix(s, k);
        lemma_storage_event_prefix(s, id, k + 1);
    } else {
        assert(s.take(k) =~= s);
    }
}


// ---------------------------------------------------------------------------
// Laws of the event store
// ---------------------------------------------------------------------------

/// Limiting keeps at most `max` events, all taken from the input, and every event
/// that was dropped is at most as recent as every event that was kept.
pub proof fn lemma_limit_events(s: Seq<Event>, max: nat)
    ensures
        limit_events(s, max).len() == if s.len() <= max {
            s.len()
        } else {
            max
        },
        forall|x: Event| #[trigger] limit_events(s, max).contains(x) ==> s.contains(x),
        forall|i: int, x: Event|
            0 <= i < s.len() && !limit_events(s, max).contains(s[i]) && #[trigger] limit_events(
                s,
                max,
            ).contains(x) ==> #[trigger] s[i].created <= x.created,
    decreases s.len(),
{
    if s.len() > max {
        lemma_last_oldest(s);
        let k = last_oldest(s);
        let t = s.remove(k);
        lemma_limit_events(t, max);
        let r = limit_events(t, max);
        assert forall|x: Event| #[trigger] r.contains(x) implies s.contains(x) by {
            let j = choose|j: int| 0 <= j < t.len() && t[j] == x;
            if j < k {
                assert(s[j] == x);
            } else {
                assert(s[j + 1] == x);
            }
        }
        assert forall|i: int, x: Event|
            0 <= i < s.len() && !r.contains(s[i]) && #[trigger] r.contains(x) implies #[trigger] s[i].created
            <= x.created by {
            assert(t.contains(x));
            let j = choose|j: int| 0 <= j < t.len() && t[j] == x;
            let jj = if j < k {
                j
            } else {
                j + 1
            };
            assert(s[jj] == x);
            if i == k {
            } else {
                let ii = if i < k {
                    i
                } else {
                    i - 1
                };
                assert(t[ii] == s[i]);
            }
        }
    }
}

/// An event whose identifier is already stored is refused and changes nothing.
pub proof fn lemma_insert_known(v: EventsView, e: Event)
    requires
        exists|i: int| 0 <= i < v.events.len() && event_id(#[trigger] v.events[i]) == event_id(e),
    ensures
        v.insert(e) == (v, false),
{
    lemma_find_event_id_some(v.events, event_id(e));
}

/// After an insertion, at most `max_events` events are stored.
pub proof fn lemma_insert_bounded(v: EventsView, e: Event)
    ensures
        v.insert(e).1 ==> v.insert(e).0.events.len() <= v.config.max_events,
        !v.insert(e).1 ==> v.insert(e).0 == v,
{
    lemma_find_src_some(v.events, e.src);
    if v.insert(e).1 {
        if v.config.unique {
            if let Some(i) = find_src(v.events, e.src) {
                lemma_limit_events(v.events.remove(i).push(e), v.config.max_events as nat);
            } else {
                lemma_limit_events(v.events.push(e), v.config.max_events as nat);
            }
        } else {
            lemma_limit_events(v.events.push(e), v.config.max_events as nat);
        }
    }
}

/// No two events come from the same node.
pub open spec fn one_per_src(s: Seq<Event>) -> bool {
    forall|i: int, j: int| 0 <= i < j < s.len() ==> (#[trigger] s[i]).src != (#[trigger] s[j]).src
}

proof fn lemma_find_src_none(s: Seq<Event>, src: NodeID)
    ensures
        find_src(s, src) is None ==> forall|i: int| 0 <= i < s.len() ==> (#[trigger] s[i]).src != src,
    decreases s.len(),
{
    if s.len() > 0 {
        let p = s.drop_last();
        lemma_find_src_none(p, src);
        if find_src(s, src) is None {
            assert forall|i: int| 0 <= i < s.len() implies (#[trigger] s[i]).src != src by {
                if i < p.len() {
                    assert(s[i] == p[i]);
                }
            }
        }
    }
}

proof fn lemma_one_per_src_sub(s: Seq<Event>, t: Seq<Event>, f: spec_fn(int) -> int)
    requires
        one_per_src(s),
        forall|i: int| 0 <= i < t.len() ==> 0 <= #[trigger] f(i) < s.len() && t[i] == s[f(i)],
        forall|i: int, j: int| 0 <= i < j < t.len() ==> #[trigger] f(i) < #[trigger] f(j),
    ensures
        one_per_src(t),
{
    assert forall|i: int, j: int| 0 <= i < j < t.len() implies (#[trigger] t[i]).src != (
    #[trigger] t[j]).src by {
        assert(f(i) < f(j));
        assert(s[f(i)] == t[i]);
        assert(s[f(j)] == t[j]);
    }
}

proof fn lemma_limit_one_per_src(s: Seq<Event>, max: nat)
    requires
        one_per_src(s),
    ensures
        one_per_src(limit_events(s, max)),
    decreases s.len(),
{
    if s.len() > max {
        lemma_last_oldest(s);
        let k = last_oldest(s);
        let t = s.remove(k);
        let f = |i: int|
            if i < k {
                i
            } else {
                i + 1
            };
        assert forall|i: int| 0 <= i < t.len() implies 0 <= #[trigger] f(i) < s.len() && t[i] == s[f(i)] by {}
        assert forall|i: int, j: int| 0 <= i < j < t.len() implies #[trigger] f(i) < #[trigger] f(j) by {}
        lemma_one_per_src_sub(s, t, f);
        lemma_limit_one_per_src(t, max);
    }
}

/// In a category with one event per node, insertions keep it so.
pub proof fn lemma_insert_unique(v: EventsView, e: Event)
    requires
        v.config.unique,
        one_per_src(v.events),
    ensures
        one_per_src(v.insert(e).0.events),
{
    lemma_find_src_some(v.events, e.src);
    lemma_find_src_none(v.events, e.src);
    if find_event_id(v.events, event_id(e)) is None {
        match find_src(v.events, e.src) {
            Some(i) => {
                if v.events[i].created <= e.created {
                    let t = v.events.remove(i);
                    let f = |j: int|
                        if j < i {
                            j
                        } else {
                            j + 1
                        };
                    assert forall|j: int| 0 <= j < t.len() implies 0 <= #[trigger] f(j) < v.events.len()
                        && t[j] == v.events[f(j)] by {}
                    assert forall|a: int, b: int| 0 <= a < b < t.len() implies #[trigger] f(a)
                        < #[trigger] f(b) by {}
                    lemma_one_per_src_sub(v.events, t, f);
                    let u = t.push(e);
                    assert forall|a: int, b: int| 0 <= a < b < u.len() implies (#[trigger] u[a]).src
                        != (#[trigger] u[b]).src by {
                        if b == t.len() {
                            assert(u[a] == t[a]);
                            let aa = f(a);
                            assert(v.events[aa] == t[a]);
                            assert(aa != i);
                            if v.events[aa].src == e.src {
                                if aa < i {
                                    assert(v.events[aa].src != v.events[i].src);
                                } else {
                                    assert(v.events[i].src != v.events[aa].src);
                                }
                            }
                        } else {
                            assert(u[a] == t[a]);
                            assert(u[b] == t[b]);
                        }
                    }
                    lemma_limit_one_per_src(u, v.config.max_events as nat);
                }
            },
            None => {
                let u = v.events.push(e);
                assert forall|a: int, b: int| 0 <= a < b < u.len() implies (#[trigger] u[a]).src != (
                #[trigger] u[b]).src by {
                    if b == v.events.len() {
                        assert(u[a] == v.events[a]);
                    } else {
                        assert(u[a] == v.events[a]);
                        assert(u[b] == v.events[b]);
                    }
                }
                lemma_limit_one_per_src(u, v.config.max_events as nat);
            },
        }
    }
}

} // verus!
