use crate::dht_storage::realm_core::{
    all_flo_cuckoos, evict, linked, missing_ids, parent_of, replaces, total_size, upserted,
    with_cuckoo, with_cuckoos, DHTConfig, FloEntry, FloMeta, FloRecord, RealmConfig,
    RealmModel, RealmStorage, Stored,
};
use crate::nodeid::{ids_contain, NodeID, U256};
use vstd::prelude::*;

verus! {

/// A Flo in a realm.
#[derive(Clone, Copy, Debug)]
pub struct GlobalID(pub U256, pub U256);

impl GlobalID {
    pub fn new(realm_id: U256, flo_id: U256) -> (r: Self)
        ensures
            r == GlobalID(realm_id, flo_id),
    {
        GlobalID(realm_id, flo_id)
    }

    pub fn realm_id(&self) -> (r: U256)
        ensures
            r == self.0,
    {
        self.0
    }

    pub fn flo_id(&self) -> (r: U256)
        ensures
            r == self.1,
    {
        self.1
    }
}

/// A Flo and the IDs of the Flos linking to it.
pub type FloCuckoo = (FloEntry, Vec<U256>);

/// A Flo as seen in specifications: what is read of it, and its serialized form.
pub type FloView = (FloRecord, Seq<u8>);

pub type FloCuckooView = (FloView, Seq<U256>);

pub open spec fn fc_view(fc: FloCuckoo) -> FloCuckooView {
    (fc.0@, fc.1@)
}

pub open spec fn fcs_view(v: Seq<FloCuckoo>) -> Seq<FloCuckooView> {
    v.map_values(|fc: FloCuckoo| fc_view(fc))
}

/// These messages are sent to the closest node of the key given with them.
#[derive(Debug)]
pub enum MessageClosest {
    // Stores the given Flo in the closest node, and all nodes on the route
    // which have enough place left.
    StoreFlo(FloEntry),
    // Request a Flo. The FloID is the key.
    ReadFlo(U256),
    // Request Cuckoos for the given ID. The FloID is the key.
    GetCuckooIDs(U256),
    // Store the Cuckoo-ID in the relevant Flo. The key is the parent Flo, and the
    // given GlobalID is the ID of the Cuckoo and the RealmID of the parent Flo and
    // the Cuckoo.
    StoreCuckooID(GlobalID),
}

pub enum MessageClosestView {
    StoreFlo(FloView),
    ReadFlo(U256),
    GetCuckooIDs(U256),
    StoreCuckooID(GlobalID),
}

impl MessageClosest {
    pub open spec fn view(&self) -> MessageClosestView {
        match self {
            MessageClosest::StoreFlo(f) => MessageClosestView::StoreFlo(f@),
            MessageClosest::ReadFlo(r) => MessageClosestView::ReadFlo(*r),
            MessageClosest::GetCuckooIDs(r) => MessageClosestView::GetCuckooIDs(*r),
            MessageClosest::StoreCuckooID(g) => MessageClosestView::StoreCuckooID(*g),
        }
    }
}

/// These messages are sent directly to the requester of a [MessageClosest].
#[derive(Debug)]
pub enum MessageDest {
    // Returns the result of the requested Flo, including any available Cuckoo-IDs.
    FloValue(FloCuckoo),
    // Indicates this Flo is not in the closest node.
    UnknownFlo(GlobalID),
    // The Cuckoo-IDs stored next to the Flo composed of the GlobalID
    CookooIDs(GlobalID, Vec<U256>),
}

pub enum MessageDestView {
    FloValue(FloCuckooView),
    UnknownFlo(GlobalID),
    CookooIDs(GlobalID, Seq<U256>),
}

impl MessageDest {
    pub open spec fn view(&self) -> MessageDestView {
        match self {
            MessageDest::FloValue(fc) => MessageDestView::FloValue(fc_view(*fc)),
            MessageDest::UnknownFlo(g) => MessageDestView::UnknownFlo(*g),
            MessageDest::CookooIDs(g, ids) => MessageDestView::CookooIDs(*g, ids@),
        }
    }
}

/// The messages exchanged with the neighbours to synchronize the realms.
#[derive(Debug)]
pub enum MessageNeighbour {
    RequestRealmIDs,
    AvailableRealmIDs(Vec<U256>),
    RequestFloMetas(U256),
    AvailableFlos(U256, Vec<FloMeta>),
    RequestFlos(U256, Vec<U256>),
    Flos(Vec<FloCuckoo>),
}

pub enum MessageNeighbourView {
    RequestRealmIDs,
    AvailableRealmIDs(Seq<U256>),
    RequestFloMetas(U256),
    AvailableFlos(U256, Seq<FloMeta>),
    RequestFlos(U256, Seq<U256>),
    Flos(Seq<FloCuckooView>),
}

impl MessageNeighbour {
    pub open spec fn view(&self) -> MessageNeighbourView {
        match self {
            MessageNeighbour::RequestRealmIDs => MessageNeighbourView::RequestRealmIDs,
            MessageNeighbour::AvailableRealmIDs(ids) => MessageNeighbourView::AvailableRealmIDs(
                ids@,
            ),
            MessageNeighbour::RequestFloMetas(r) => MessageNeighbourView::RequestFloMetas(*r),
            MessageNeighbour::AvailableFlos(r, m) => MessageNeighbourView::AvailableFlos(*r, m@),
            MessageNeighbour::RequestFlos(r, ids) => MessageNeighbourView::RequestFlos(*r, ids@),
            MessageNeighbour::Flos(fcs) => MessageNeighbourView::Flos(fcs_view(fcs@)),
        }
    }
}

/// The requests of the users of the storage.
#[derive(Debug)]
pub enum DHTStorageIn {
    StoreFlo(FloEntry),
    ReadFlo(GlobalID),
    ReadCuckooIDs(GlobalID),
    GetFlos,
    GetRealms,
    /// Ask all neighbors for their realms and Flos.
    SyncFromNeighbors,
    /// Ask all neighbors to sync with us.
    PropagateFlos,
}

pub enum DHTStorageInView {
    StoreFlo(FloView),
    ReadFlo(GlobalID),
    ReadCuckooIDs(GlobalID),
    GetFlos,
    GetRealms,
    SyncFromNeighbors,
    PropagateFlos,
}

impl DHTStorageIn {
    pub open spec fn view(&self) -> DHTStorageInView {
        match self {
            DHTStorageIn::StoreFlo(f) => DHTStorageInView::StoreFlo(f@),
            DHTStorageIn::ReadFlo(g) => DHTStorageInView::ReadFlo(*g),
            DHTStorageIn::ReadCuckooIDs(g) => DHTStorageInView::ReadCuckooIDs(*g),
            DHTStorageIn::GetFlos => DHTStorageInView::GetFlos,
            DHTStorageIn::GetRealms => DHTStorageInView::GetRealms,
            DHTStorageIn::SyncFromNeighbors => DHTStorageInView::SyncFromNeighbors,
            DHTStorageIn::PropagateFlos => DHTStorageInView::PropagateFlos,
        }
    }
}

/// The answers to the users of the storage.
#[derive(Debug)]
pub enum DHTStorageOut {
    FloValue(FloCuckoo),
    FloValues(Vec<FloCuckoo>),
    RealmIDs(Vec<U256>),
    CuckooIDs(GlobalID, Vec<U256>),
    ValueMissing(GlobalID),
}

pub enum DHTStorageOutView {
    FloValue(FloCuckooView),
    FloValues(Seq<FloCuckooView>),
    RealmIDs(Seq<U256>),
    CuckooIDs(GlobalID, Seq<U256>),
    ValueMissing(GlobalID),
}

impl DHTStorageOut {
    pub open spec fn view(&self) -> DHTStorageOutView {
        match self {
            DHTStorageOut::FloValue(fc) => DHTStorageOutView::FloValue(fc_view(*fc)),
            DHTStorageOut::FloValues(fcs) => DHTStorageOutView::FloValues(fcs_view(fcs@)),
            DHTStorageOut::RealmIDs(ids) => DHTStorageOutView::RealmIDs(ids@),
            DHTStorageOut::CuckooIDs(g, ids) => DHTStorageOutView::CuckooIDs(*g, ids@),
            DHTStorageOut::ValueMissing(g) => DHTStorageOutView::ValueMissing(*g),
        }
    }
}

/// What the router hands to the storage, its payload already decoded.
#[derive(Debug)]
pub enum RouterOut {
    // MessageRouting(origin, key, msg): a message passing through this node.
    MessageRouting(NodeID, U256, MessageClosest),
    // MessageClosest(origin, key, msg): a message for which this node is the closest.
    MessageClosest(NodeID, U256, MessageClosest),
    // MessageDest(msg): a message sent directly to this node.
    MessageDest(MessageDest),
    NodeList(Vec<NodeID>),
    MessageNeighbour(NodeID, MessageNeighbour),
    SystemRealm(U256),
}

pub enum RouterOutView {
    MessageRouting(NodeID, U256, MessageClosestView),
    MessageClosest(NodeID, U256, MessageClosestView),
    MessageDest(MessageDestView),
    NodeList(Seq<NodeID>),
    MessageNeighbour(NodeID, MessageNeighbourView),
    SystemRealm(U256),
}

impl RouterOut {
    pub open spec fn view(&self) -> RouterOutView {
        match self {
            RouterOut::MessageRouting(o, k, m) => RouterOutView::MessageRouting(*o, *k, m@),
            RouterOut::MessageClosest(o, k, m) => RouterOutView::MessageClosest(*o, *k, m@),
            RouterOut::MessageDest(m) => RouterOutView::MessageDest(m@),
            RouterOut::NodeList(n) => RouterOutView::NodeList(n@),
            RouterOut::MessageNeighbour(o, m) => RouterOutView::MessageNeighbour(*o, m@),
            RouterOut::SystemRealm(r) => RouterOutView::SystemRealm(*r),
        }
    }
}

/// All messages coming into the storage.
#[derive(Debug)]
pub enum InternIn {
    Routing(RouterOut),
    Storage(DHTStorageIn),
    /// Ask all neighbors to sync with us.
    PropagateFlos,
}

pub enum InternInView {
    Routing(RouterOutView),
    Storage(DHTStorageInView),
    PropagateFlos,
}

impl InternIn {
    pub open spec fn view(&self) -> InternInView {
        match self {
            InternIn::Routing(m) => InternInView::Routing(m@),
            InternIn::Storage(m) => InternInView::Storage(m@),
            InternIn::PropagateFlos => InternInView::PropagateFlos,
        }
    }
}

/// All messages going out of the storage: to the router, to be encoded and sent,
/// or to the users of the storage.
#[derive(Debug)]
pub enum InternOut {
    /// Route to the node closest to the key.
    MessageClosest(U256, MessageClosest),
    /// Send to this node.
    MessageDirect(NodeID, MessageDest),
    /// Send to this neighbour.
    MessageNeighbour(NodeID, MessageNeighbour),
    /// Send to all neighbours.
    MessageBroadcast(MessageNeighbour),
    Storage(DHTStorageOut),
}

pub enum InternOutView {
    MessageClosest(U256, MessageClosestView),
    MessageDirect(NodeID, MessageDestView),
    MessageNeighbour(NodeID, MessageNeighbourView),
    MessageBroadcast(MessageNeighbourView),
    Storage(DHTStorageOutView),
}

impl InternOut {
    pub open spec fn view(&self) -> InternOutView {
        match self {
            InternOut::MessageClosest(k, m) => InternOutView::MessageClosest(*k, m@),
            InternOut::MessageDirect(d, m) => InternOutView::MessageDirect(*d, m@),
            InternOut::MessageNeighbour(d, m) => InternOutView::MessageNeighbour(*d, m@),
            InternOut::MessageBroadcast(m) => InternOutView::MessageBroadcast(m@),
            InternOut::Storage(m) => InternOutView::Storage(m@),
        }
    }
}

pub open spec fn outs_view(v: Seq<InternOut>) -> Seq<InternOutView> {
    v.map_values(|o: InternOut| o@)
}

/// A neighbour message is only sent when the list it carries is not empty.
pub open spec fn carries_something(m: MessageNeighbourView) -> bool {
    match m {
        MessageNeighbourView::AvailableRealmIDs(ids) => ids.len() > 0,
        MessageNeighbourView::AvailableFlos(_, metas) => metas.len() > 0,
        MessageNeighbourView::RequestFlos(_, ids) => ids.len() > 0,
        MessageNeighbourView::Flos(fcs) => fcs.len() > 0,
        _ => true,
    }
}

/// The message to a neighbour, if it carries something.
pub open spec fn to_neighbour(m: MessageNeighbourView, dst: NodeID) -> Seq<InternOutView> {
    if carries_something(m) {
        seq![InternOutView::MessageNeighbour(dst, m)]
    } else {
        Seq::empty()
    }
}

/// The message to all neighbours, if it carries something.
pub open spec fn to_broadcast(m: MessageNeighbourView) -> Seq<InternOutView> {
    if carries_something(m) {
        seq![InternOutView::MessageBroadcast(m)]
    } else {
        Seq::empty()
    }
}

impl MessageNeighbour {
    fn carries_something(&self) -> (r: bool)
        ensures
            r == carries_something(self@),
    {
        match self {
            MessageNeighbour::AvailableRealmIDs(ids) => ids.len() > 0,
            MessageNeighbour::AvailableFlos(_, metas) => metas.len() > 0,
            MessageNeighbour::RequestFlos(_, ids) => ids.len() > 0,
            MessageNeighbour::Flos(fcs) => fcs.len() > 0,
            _ => true,
        }
    }

    /// The message to `dst`, if it carries something.
    fn to_neighbour(self, dst: NodeID) -> (r: Option<InternOut>)
        ensures
            r is Some <==> carries_something(self@),
            r matches Some(o) ==> o@ == InternOutView::MessageNeighbour(dst, self@),
    {
        if self.carries_something() {
            Some(InternOut::MessageNeighbour(dst, self))
        } else {
            None
        }
    }

    /// The message to all neighbours, if it carries something.
    fn to_broadcast(self) -> (r: Option<InternOut>)
        ensures
            r is Some <==> carries_something(self@),
            r matches Some(o) ==> o@ == InternOutView::MessageBroadcast(self@),
    {
        if self.carries_something() {
            Some(InternOut::MessageBroadcast(self))
        } else {
            None
        }
    }
}

/// The statistics of one realm.
#[derive(Clone, Debug)]
pub struct RealmStats {
    pub real_size: usize,
    pub size: u64,
    pub flos: usize,
    pub distribution: Vec<usize>,
    pub config: RealmConfig,
}

/// Counters of the messages handled by the storage.
#[derive(Clone, Copy, Debug, PartialEq, Eq, Structural)]
pub struct DsMetrics {
    pub store_flo_total: u32,
    pub flo_value_sent_total: u32,
    pub flo_value_sent_blocked_total: u32,
    pub available_flos_sent_total: u32,
    pub available_flos_sent_blocked_total: u32,
    pub request_flos_sent_total: u32,
    pub flos_sent_total: u32,
    pub flos_sent_blocked_total: u32,
    pub max_flo_metas_received_in_available_flos: u32,
    pub max_flo_metas_requested_in_request_flos: u32,
    pub max_flo_ids_received_in_request_flos: u32,
    pub max_flos_sent_in_flos: u32,
    pub max_flos_received_in_flos: u32,
}

/// All counters at zero.
pub open spec fn zero_metrics() -> DsMetrics {
    DsMetrics {
        store_flo_total: 0,
        flo_value_sent_total: 0,
        flo_value_sent_blocked_total: 0,
        available_flos_sent_total: 0,
        available_flos_sent_blocked_total: 0,
        request_flos_sent_total: 0,
        flos_sent_total: 0,
        flos_sent_blocked_total: 0,
        max_flo_metas_received_in_available_flos: 0,
        max_flo_metas_requested_in_request_flos: 0,
        max_flo_ids_received_in_request_flos: 0,
        max_flos_sent_in_flos: 0,
        max_flos_received_in_flos: 0,
    }
}

impl Default for DsMetrics {
    fn default() -> (r: Self)
        ensures
            r == zero_metrics(),
    {
        DsMetrics {
            store_flo_total: 0,
            flo_value_sent_total: 0,
            flo_value_sent_blocked_total: 0,
            available_flos_sent_total: 0,
            available_flos_sent_blocked_total: 0,
            request_flos_sent_total: 0,
            flos_sent_total: 0,
            flos_sent_blocked_total: 0,
            max_flo_metas_received_in_available_flos: 0,
            max_flo_metas_requested_in_request_flos: 0,
            max_flo_ids_received_in_request_flos: 0,
            max_flos_sent_in_flos: 0,
            max_flos_received_in_flos: 0,
        }
    }
}

impl DsMetrics {
    pub fn new() -> (r: Self)
        ensures
            r == zero_metrics(),
    {
        Self::default()
    }
}

/// A counter one up, wrapping around.
pub open spec fn bump(x: u32) -> u32 {
    if x == u32::MAX {
        0
    } else {
        (x + 1) as u32
    }
}

/// A maximum raised to `v`.
pub open spec fn raise(x: u32, v: u32) -> u32 {
    if v > x {
        v
    } else {
        x
    }
}

fn bump_exec(x: u32) -> (r: u32)
    ensures
        r == bump(x),
{
    x.wrapping_add(1)
}

fn raise_exec(x: u32, v: u32) -> (r: u32)
    ensures
        r == raise(x, v),
{
    if v > x {
        v
    } else {
        x
    }
}

/// What the message handling of the storage holds.
pub struct MessagesModel {
    pub realms: Seq<RealmModel>,
    /// The realms accepted, all if empty.
    pub accepted: Seq<U256>,
    pub owned: Seq<U256>,
    pub timeout: u64,
    pub nodes: Seq<NodeID>,
    pub our_id: NodeID,
    /// Do not forward Flos: a node misbehaving on purpose, for experiments.
    pub no_forward: bool,
    pub stats: DsMetrics,
    /// The realms changed since they were last saved.
    pub modified: bool,
}

pub open spec fn has_realm(rs: Seq<RealmModel>, rid: U256) -> bool {
    exists|i: int| 0 <= i < rs.len() && #[trigger] rs[i].0 == rid
}

pub open spec fn realm_pos(rs: Seq<RealmModel>, rid: U256) -> int {
    choose|i: int| 0 <= i < rs.len() && #[trigger] rs[i].0 == rid
}

pub open spec fn realm_ids(rs: Seq<RealmModel>) -> Seq<U256> {
    rs.map_values(|r: RealmModel| r.0)
}

pub open spec fn unique_realms(rs: Seq<RealmModel>) -> bool {
    forall|i: int, j: int|
        0 <= i < rs.len() && 0 <= j < rs.len() && #[trigger] rs[i].0 == #[trigger] rs[j].0 ==> i
            == j
}

/// A realm is accepted if no realms are configured, or if it is one of them.
pub open spec fn accepts(accepted: Seq<U256>, rid: U256) -> bool {
    accepted.len() == 0 || accepted.contains(rid)
}

/// A realm takes a Flo of at most a third of its space, if the sizes can be counted.
pub open spec fn takes(r: RealmModel, bytes: Seq<u8>) -> bool {
    &&& bytes.len() * 3 <= r.2.max_space
    &&& total_size(r.3) + bytes.len() <= usize::MAX
}

/// The realm after it was offered a Flo.
pub open spec fn realm_upsert(r: RealmModel, f: FloView) -> RealmModel {
    if takes(r, f.1) {
        (r.0, r.1, r.2, evict(upserted(r.3, f.0, f.1), r.1, f.0.id, r.2.max_space as int))
    } else {
        r
    }
}

/// The realm stored the Flo it was offered.
pub open spec fn realm_upsert_ok(r: RealmModel, f: FloView) -> bool {
    takes(r, f.1) && replaces(linked(r.3, f.0), f.0)
}

/// A new realm holding the Flo that defines it.
pub open spec fn new_realm(f: FloView, root: U256, cfg: RealmConfig) -> RealmModel {
    (f.0.realm_id, root, cfg, seq![(f.0, Seq::<U256>::empty(), f.1)])
}

/// Offers a Flo to its realm, or creates the realm if the Flo defines an accepted
/// one; tells whether the Flo was stored.
pub open spec fn upsert_model(m: MessagesModel, f: FloView) -> (MessagesModel, bool) {
    let rid = f.0.realm_id;
    if has_realm(m.realms, rid) {
        let i = realm_pos(m.realms, rid);
        let ok = realm_upsert_ok(m.realms[i], f);
        (
            MessagesModel {
                realms: m.realms.update(i, realm_upsert(m.realms[i], f)),
                modified: m.modified || ok,
                ..m
            },
            ok,
        )
    } else {
        match f.0.realm {
            Some(cfg) => if accepts(m.accepted, rid) {
                (
                    MessagesModel {
                        realms: m.realms.push(new_realm(f, m.our_id, cfg)),
                        modified: true,
                        ..m
                    },
                    true,
                )
            } else {
                (m, false)
            },
            None => (m, false),
        }
    }
}

pub open spec fn with_stats(m: MessagesModel, stats: DsMetrics) -> MessagesModel {
    MessagesModel { stats, ..m }
}

/// Stores a Flo; if it was stored, sends it on to the node closest to it, and if it
/// links to a parent, tells the node closest to the parent.
pub open spec fn store_flo_model(m: MessagesModel, f: FloView) -> (MessagesModel, Seq<InternOutView>) {
    let m1 = with_stats(
        m,
        DsMetrics { store_flo_total: bump(m.stats.store_flo_total), ..m.stats },
    );
    let (m2, ok) = upsert_model(m1, f);
    let out1 = if ok {
        seq![InternOutView::MessageClosest(f.0.id, MessageClosestView::StoreFlo(f))]
    } else {
        Seq::empty()
    };
    let out2 = match parent_of(f.0.config) {
        Some(p) => seq![
            InternOutView::MessageClosest(
                p,
                MessageClosestView::StoreCuckooID(GlobalID(f.0.realm_id, f.0.id)),
            ),
        ],
        None => Seq::empty(),
    };
    (m2, out1 + out2)
}

/// Records the cuckoos of a Flo in its realm, if the realm is stored.
pub open spec fn add_cuckoos_model(m: MessagesModel, rid: U256, fid: U256, cs: Seq<U256>) -> MessagesModel {
    if has_realm(m.realms, rid) {
        let i = realm_pos(m.realms, rid);
        let r = m.realms[i];
        MessagesModel { realms: m.realms.update(i, (r.0, r.1, r.2, with_cuckoos(r.3, fid, cs))), ..m }
    } else {
        m
    }
}

/// Stores a Flo received with its cuckoos.
pub open spec fn receive_flo(m: MessagesModel, fc: FloCuckooView) -> MessagesModel {
    add_cuckoos_model(store_flo_model(m, fc.0).0, fc.0.0.realm_id, fc.0.0.id, fc.1)
}

pub open spec fn receive_flos(m: MessagesModel, fcs: Seq<FloCuckooView>) -> MessagesModel
    decreases fcs.len(),
{
    if fcs.len() == 0 {
        m
    } else {
        receive_flo(receive_flos(m, fcs.drop_last()), fcs.last())
    }
}

pub open spec fn entry_pos(s: Seq<Stored>, id: U256) -> int {
    choose|j: int| 0 <= j < s.len() && #[trigger] s[j].0.id == id
}

pub open spec fn entry_view(e: Stored) -> FloCuckooView {
    ((e.0, e.2), e.1)
}

/// The Flo with its cuckoos, if its realm stores it.
pub open spec fn read_model(rs: Seq<RealmModel>, rid: U256, fid: U256) -> Option<FloCuckooView> {
    if has_realm(rs, rid) && crate::dht_storage::realm_core::stores(rs[realm_pos(rs, rid)].3, fid) {
        let s = rs[realm_pos(rs, rid)].3;
        Some(entry_view(s[entry_pos(s, fid)]))
    } else {
        None
    }
}

/// Handles a message for which this node is on the route, or the closest when
/// `closest` holds. The closest node answers a request for a Flo it does not store
/// with `UnknownFlo`.
pub open spec fn msg_routing_model(
    m: MessagesModel,
    closest: bool,
    origin: NodeID,
    key: U256,
    msg: MessageClosestView,
) -> (MessagesModel, Seq<InternOutView>) {
    match msg {
        MessageClosestView::StoreFlo(f) => store_flo_model(m, f),
        MessageClosestView::ReadFlo(rid) => match read_model(m.realms, rid, key) {
            Some(fc) => if !m.no_forward {
                (
                    with_stats(
                        m,
                        DsMetrics { flo_value_sent_total: bump(m.stats.flo_value_sent_total), ..m.stats },
                    ),
                    seq![InternOutView::MessageDirect(origin, MessageDestView::FloValue(fc))],
                )
            } else {
                (
                    with_stats(
                        m,
                        DsMetrics {
                            flo_value_sent_blocked_total: bump(m.stats.flo_value_sent_blocked_total),
                            ..m.stats
                        },
                    ),
                    Seq::empty(),
                )
            },
            None => if closest {
                (m, seq![InternOutView::MessageDirect(origin, MessageDestView::UnknownFlo(GlobalID(rid, key)))])
            } else {
                (m, Seq::empty())
            },
        },
        MessageClosestView::GetCuckooIDs(rid) => match read_model(m.realms, rid, key) {
            Some(fc) => (
                m,
                seq![
                    InternOutView::MessageDirect(
                        origin,
                        MessageDestView::CookooIDs(GlobalID(rid, key), fc.1),
                    ),
                ],
            ),
            None => (m, Seq::empty()),
        },
        MessageClosestView::StoreCuckooID(gid) => (
            add_cuckoos_model(m, gid.0, key, seq![gid.1]),
            Seq::empty(),
        ),
    }
}

/// Handles a message sent directly to this node.
pub open spec fn msg_dest_model(m: MessagesModel, msg: MessageDestView) -> (MessagesModel, Seq<InternOutView>) {
    match msg {
        MessageDestView::FloValue(fc) => (
            receive_flo(m, fc),
            seq![InternOutView::Storage(DHTStorageOutView::FloValue(fc))],
        ),
        MessageDestView::UnknownFlo(k) => (
            m,
            seq![InternOutView::Storage(DHTStorageOutView::ValueMissing(k))],
        ),
        MessageDestView::CookooIDs(g, c) => (
            m,
            seq![InternOutView::Storage(DHTStorageOutView::CuckooIDs(g, c))],
        ),
    }
}

/// All stored Flos of all realms, with their cuckoos.
pub open spec fn all_flos(rs: Seq<RealmModel>) -> Seq<FloCuckooView>
    decreases rs.len(),
{
    if rs.len() == 0 {
        Seq::empty()
    } else {
        all_flos(rs.drop_last()) + all_flo_cuckoos(rs.last().3)
    }
}

/// Handles a request of a user of the storage.
pub open spec fn msg_dht_storage_model(m: MessagesModel, msg: DHTStorageInView) -> (MessagesModel, Seq<InternOutView>) {
    match msg {
        DHTStorageInView::StoreFlo(f) => store_flo_model(m, f),
        DHTStorageInView::ReadFlo(id) => match read_model(m.realms, id.0, id.1) {
            Some(fc) => (m, seq![InternOutView::Storage(DHTStorageOutView::FloValue(fc))]),
            None => (
                m,
                seq![InternOutView::MessageClosest(id.1, MessageClosestView::ReadFlo(id.0))],
            ),
        },
        DHTStorageInView::ReadCuckooIDs(id) => (
            m,
            match read_model(m.realms, id.0, id.1) {
                Some(fc) => seq![InternOutView::Storage(DHTStorageOutView::CuckooIDs(id, fc.1))],
                None => Seq::empty(),
            } + seq![InternOutView::MessageClosest(id.1, MessageClosestView::GetCuckooIDs(id.0))],
        ),
        DHTStorageInView::GetFlos => (
            m,
            seq![InternOutView::Storage(DHTStorageOutView::FloValues(all_flos(m.realms)))],
        ),
        DHTStorageInView::GetRealms => (
            m,
            seq![InternOutView::Storage(DHTStorageOutView::RealmIDs(realm_ids(m.realms)))],
        ),
        DHTStorageInView::SyncFromNeighbors => (
            m,
            seq![InternOutView::MessageBroadcast(MessageNeighbourView::RequestRealmIDs)],
        ),
        DHTStorageInView::PropagateFlos => (
            m,
            to_broadcast(MessageNeighbourView::AvailableRealmIDs(realm_ids(m.realms))),
        ),
    }
}

/// The announced realms that this node accepts.
pub open spec fn accepted_of(accepted: Seq<U256>, ids: Seq<U256>) -> Seq<U256>
    decreases ids.len(),
{
    if ids.len() == 0 {
        Seq::empty()
    } else {
        let r = accepted_of(accepted, ids.drop_last());
        if accepts(accepted, ids.last()) {
            r.push(ids.last())
        } else {
            r
        }
    }
}

/// Requests for the Flo of each accepted realm that is not stored yet.
pub open spec fn new_realm_requests(rs: Seq<RealmModel>, acc: Seq<U256>, origin: NodeID) -> Seq<InternOutView>
    decreases acc.len(),
{
    if acc.len() == 0 {
        Seq::empty()
    } else {
        let r = new_realm_requests(rs, acc.drop_last(), origin);
        if has_realm(rs, acc.last()) {
            r
        } else {
            r.push(
                InternOutView::MessageNeighbour(
                    origin,
                    MessageNeighbourView::RequestFlos(acc.last(), seq![acc.last()]),
                ),
            )
        }
    }
}

/// Requests for the Flos of each accepted realm.
pub open spec fn meta_requests(acc: Seq<U256>, origin: NodeID) -> Seq<InternOutView> {
    acc.map_values(
        |rid: U256| InternOutView::MessageNeighbour(origin, MessageNeighbourView::RequestFloMetas(rid)),
    )
}

/// What the storage announces of each Flo.
pub open spec fn metas_of(s: Seq<Stored>) -> Seq<FloMeta> {
    Seq::new(
        s.len(),
        |i: int| FloMeta { id: s[i].0.id, version: s[i].0.version, cuckoos: s[i].1.len() as u32 },
    )
}

/// The requested Flos that are stored, with their cuckoos, in the order requested.
pub open spec fn found(s: Seq<Stored>, ids: Seq<U256>) -> Seq<FloCuckooView>
    decreases ids.len(),
{
    if ids.len() == 0 {
        Seq::empty()
    } else {
        let r = found(s, ids.drop_last());
        if crate::dht_storage::realm_core::stores(s, ids.last()) {
            r.push(entry_view(s[entry_pos(s, ids.last())]))
        } else {
            r
        }
    }
}

/// The position of the first Flo that defines a realm, or -1.
pub open spec fn first_realm_pos(fs: Seq<FloCuckooView>) -> int
    decreases fs.len(),
{
    if fs.len() == 0 {
        -1
    } else {
        let p = first_realm_pos(fs.drop_last());
        if p >= 0 {
            p
        } else if fs.last().0.0.realm is Some {
            fs.len() - 1
        } else {
            -1
        }
    }
}

/// The one Flo to send: the first that defines a realm, else the last.
pub open spec fn pick(fs: Seq<FloCuckooView>) -> Seq<FloCuckooView> {
    if first_realm_pos(fs) >= 0 {
        seq![fs[first_realm_pos(fs)]]
    } else if fs.len() > 0 {
        seq![fs.last()]
    } else {
        Seq::empty()
    }
}

/// Handles a message from a neighbour.
pub open spec fn msg_neighbour_model(
    m: MessagesModel,
    origin: NodeID,
    msg: MessageNeighbourView,
) -> (MessagesModel, Seq<InternOutView>) {
    match msg {
        MessageNeighbourView::RequestRealmIDs => (
            m,
            to_neighbour(MessageNeighbourView::AvailableRealmIDs(realm_ids(m.realms)), origin),
        ),
        MessageNeighbourView::AvailableRealmIDs(ids) => {
            let acc = accepted_of(m.accepted, ids);
            (m, new_realm_requests(m.realms, acc, origin) + meta_requests(acc, origin))
        },
        MessageNeighbourView::RequestFloMetas(rid) => if !m.no_forward {
            (
                with_stats(
                    m,
                    DsMetrics {
                        available_flos_sent_total: bump(m.stats.available_flos_sent_total),
                        ..m.stats
                    },
                ),
                if has_realm(m.realms, rid) {
                    to_neighbour(
                        MessageNeighbourView::AvailableFlos(
                            rid,
                            metas_of(m.realms[realm_pos(m.realms, rid)].3),
                        ),
                        origin,
                    )
                } else {
                    Seq::empty()
                },
            )
        } else {
            (
                with_stats(
                    m,
                    DsMetrics {
                        available_flos_sent_blocked_total: bump(
                            m.stats.available_flos_sent_blocked_total,
                        ),
                        ..m.stats
                    },
                ),
                Seq::empty(),
            )
        },
        MessageNeighbourView::AvailableFlos(rid, metas) => {
            let st1 = DsMetrics {
                max_flo_metas_received_in_available_flos: raise(
                    m.stats.max_flo_metas_received_in_available_flos,
                    metas.len() as u32,
                ),
                ..m.stats
            };
            if has_realm(m.realms, rid) && missing_ids(
                m.realms[realm_pos(m.realms, rid)].3,
                metas,
            ).len() > 0 {
                let needed = missing_ids(m.realms[realm_pos(m.realms, rid)].3, metas);
                (
                    with_stats(
                        m,
                        DsMetrics {
                            max_flo_metas_requested_in_request_flos: raise(
                                st1.max_flo_metas_requested_in_request_flos,
                                needed.len() as u32,
                            ),
                            ..st1
                        },
                    ),
                    to_neighbour(MessageNeighbourView::RequestFlos(rid, needed), origin),
                )
            } else {
                (with_stats(m, st1), Seq::empty())
            }
        },
        MessageNeighbourView::RequestFlos(rid, ids) => {
            let st1 = DsMetrics {
                max_flo_ids_received_in_request_flos: raise(
                    m.stats.max_flo_ids_received_in_request_flos,
                    ids.len() as u32,
                ),
                ..m.stats
            };
            if !m.no_forward {
                let st2 = DsMetrics { flos_sent_total: bump(st1.flos_sent_total), ..st1 };
                if has_realm(m.realms, rid) {
                    let sel = pick(found(m.realms[realm_pos(m.realms, rid)].3, ids));
                    (
                        with_stats(
                            m,
                            DsMetrics {
                                max_flos_sent_in_flos: raise(
                                    st2.max_flos_sent_in_flos,
                                    sel.len() as u32,
                                ),
                                ..st2
                            },
                        ),
                        to_neighbour(MessageNeighbourView::Flos(sel), origin),
                    )
                } else {
                    (with_stats(m, st2), Seq::empty())
                }
            } else {
                (
                    with_stats(
                        m,
                        DsMetrics { flos_sent_blocked_total: bump(st1.flos_sent_blocked_total), ..st1 },
                    ),
                    Seq::empty(),
                )
            }
        },
        MessageNeighbourView::Flos(fcs) => {
            let m1 = with_stats(
                m,
                DsMetrics {
                    max_flos_received_in_flos: raise(
                        m.stats.max_flos_received_in_flos,
                        fcs.len() as u32,
                    ),
                    ..m.stats
                },
            );
            (receive_flos(m1, fcs), Seq::empty())
        },
    }
}

/// Handles a message from the router.
pub open spec fn msg_dht_router_model(m: MessagesModel, msg: RouterOutView) -> (MessagesModel, Seq<InternOutView>) {
    match msg {
        RouterOutView::MessageRouting(o, k, mc) => msg_routing_model(m, false, o, k, mc),
        RouterOutView::MessageClosest(o, k, mc) => msg_routing_model(m, true, o, k, mc),
        RouterOutView::MessageDest(md) => msg_dest_model(m, md),
        RouterOutView::NodeList(n) => (MessagesModel { nodes: n, ..m }, Seq::empty()),
        RouterOutView::MessageNeighbour(o, mn) => msg_neighbour_model(m, o, mn),
        RouterOutView::SystemRealm(r) => (
            if m.accepted.contains(r) {
                m
            } else {
                MessagesModel { accepted: m.accepted.push(r), ..m }
            },
            Seq::empty(),
        ),
    }
}

/// Handles one incoming message.
pub open spec fn step_model(m: MessagesModel, msg: InternInView) -> (MessagesModel, Seq<InternOutView>) {
    match msg {
        InternInView::Routing(r) => msg_dht_router_model(m, r),
        InternInView::Storage(s) => msg_dht_storage_model(m, s),
        InternInView::PropagateFlos => (
            m,
            to_broadcast(MessageNeighbourView::AvailableRealmIDs(realm_ids(m.realms))),
        ),
    }
}

/// Handles the incoming messages in turn, collecting the outgoing ones.
pub open spec fn process_model(m: MessagesModel, msgs: Seq<InternInView>) -> (MessagesModel, Seq<InternOutView>)
    decreases msgs.len(),
{
    if msgs.len() == 0 {
        (m, Seq::empty())
    } else {
        let (m1, o1) = process_model(m, msgs.drop_last());
        let (m2, o2) = step_model(m1, msgs.last());
        (m2, o1 + o2)
    }
}

/// The message handling of the storage: the realms it stores, and what it knows
/// of its neighbours.
pub struct Messages {
    realms: Vec<RealmStorage>,
    nodes: Vec<NodeID>,
    config: DHTConfig,
    our_id: NodeID,
    no_forward: bool,
    experiment_stats: DsMetrics,
    modified: bool,
}

impl Messages {
    pub closed spec fn model(&self) -> MessagesModel {
        MessagesModel {
            realms: self.realms@.map_values(|r: RealmStorage| r.model()),
            accepted: self.config.realms@,
            owned: self.config.owned@,
            timeout: self.config.timeout,
            nodes: self.nodes@,
            our_id: self.our_id,
            no_forward: self.no_forward,
            stats: self.experiment_stats,
            modified: self.modified,
        }
    }

    /// Each realm is well formed, and no realm is stored twice.
    pub closed spec fn wf(&self) -> bool {
        &&& forall|i: int| 0 <= i < self.realms@.len() ==> (#[trigger] self.realms@[i]).wf()
        &&& unique_realms(self.model().realms)
    }

    /// A new message handling with no realm stored.
    pub fn new(config: DHTConfig, our_id: NodeID) -> (r: Self)
        ensures
            r.wf(),
            r.model() == (MessagesModel {
                realms: Seq::empty(),
                accepted: config.realms@,
                owned: config.owned@,
                timeout: config.timeout,
                nodes: Seq::empty(),
                our_id,
                no_forward: false,
                stats: zero_metrics(),
                modified: false,
            }),
    {
        let r = Messages {
            realms: Vec::new(),
            nodes: Vec::new(),
            config,
            our_id,
            no_forward: false,
            experiment_stats: DsMetrics::new(),
            modified: false,
        };
        proof {
            assert(r.model().realms =~= Seq::<RealmModel>::empty());
        }
        r
    }

    /// Makes this node refuse to forward Flos, for experiments.
    pub fn set_no_forward(&mut self, no_forward: bool)
        requires
            old(self).wf(),
        ensures
            final(self).wf(),
            final(self).model() == (MessagesModel { no_forward, ..old(self).model() }),
    {
        self.no_forward = no_forward;
    }

    /// The counters of the handled messages.
    pub fn stats(&self) -> (r: DsMetrics)
        ensures
            r == self.model().stats,
    {
        self.experiment_stats
    }

    /// Tells whether the realms changed since the last call, and forgets it.
    pub fn take_modified(&mut self) -> (r: bool)
        requires
            old(self).wf(),
        ensures
            final(self).wf(),
            r == old(self).model().modified,
            final(self).model() == (MessagesModel { modified: false, ..old(self).model() }),
    {
        let r = self.modified;
        self.modified = false;
        r
    }

    /// The stored realms.
    pub fn realms(&self) -> (r: &Vec<RealmStorage>)
        ensures
            r@.map_values(|rs: RealmStorage| rs.model()) == self.model().realms,
    {
        &self.realms
    }

    fn realm_index(&self, rid: &U256) -> (r: Option<usize>)
        requires
            self.wf(),
        ensures
            r matches Some(i) ==> i < self.realms@.len(),
            r matches Some(i) ==> has_realm(self.model().realms, *rid),
            r matches Some(i) ==> i == realm_pos(self.model().realms, *rid),
            r matches Some(i) ==> self.realms@[i as int].wf(),
            r is None ==> !has_realm(self.model().realms, *rid),
    {
        let ghost rs = self.model().realms;
        let mut i: usize = 0;
        while i < self.realms.len()
            invariant
                0 <= i <= self.realms.len(),
                rs == self.model().realms,
                self.wf(),
                forall|j: int| 0 <= j < i ==> rs[j].0 != *rid,
            decreases self.realms.len() - i,
        {
            proof {
                assert(rs[i as int] == self.realms@[i as int].model());
            }
            if self.realms[i].realm_id().same(rid) {
                proof {
                    assert(rs[i as int] == self.realms@[i as int].model());
                    assert(rs[i as int].0 == *rid);
                    assert(has_realm(rs, *rid));
                    let c = realm_pos(rs, *rid);
                    assert(rs[c].0 == rs[i as int].0);
                }
                return Some(i);
            }
            i = i + 1;
        }
        None
    }

    /// The stored Flo with its cuckoos.
    fn read_flo(&self, id: &GlobalID) -> (r: Option<FloCuckoo>)
        requires
            self.wf(),
        ensures
            r is Some <==> read_model(self.model().realms, id.0, id.1) is Some,
            r matches Some(fc) ==> read_model(self.model().realms, id.0, id.1) == Some(
                fc_view(fc),
            ),
    {
        let rid = id.realm_id();
        let fid = id.flo_id();
        match self.realm_index(&rid) {
            Some(i) => {
                let r = self.realms[i].get_flo_cuckoo(&fid);
                proof {
                    let s = self.realms@[i as int].view();
                    assert(self.model().realms[i as int].3 == s);
                    crate::dht_storage::realm_core::lemma_wf_unique(&self.realms@[i as int]);
                    if r is Some {
                        let fc = r->Some_0;
                        let j = choose|j: int|
                            0 <= j < s.len() && s[j].0.id == fid && s[j] == (
                                fc.0.record,
                                fc.1@,
                                fc.0.bytes@,
                            );
                        let c = entry_pos(s, fid);
                        assert(s[c].0.id == s[j].0.id);
                    }
                }
                r
            },
            None => None,
        }
    }
}

impl Messages {
    /// Offers a Flo to its realm, or creates the realm if the Flo defines an
    /// accepted one; tells whether the Flo was stored.
    fn upsert_flo(&mut self, flo: FloEntry) -> (r: bool)
        requires
            old(self).wf(),
        ensures
            final(self).wf(),
            (final(self).model(), r) == upsert_model(old(self).model(), flo@),
    {
        let ghost m = self.model();
        let ghost f = flo@;
        let rid = flo.record.realm_id;
        match self.realm_index(&rid) {
            Some(i) => {
                let len = flo.bytes.len();
                let total = self.realms[i].size();
                let ghost old_realms = self.realms@;
                let ok = if (len as u64) > u64::MAX / 3 || total > usize::MAX - len {
                    false
                } else {
                    self.realms[i].upsert_flo(flo)
                };
                if ok {
                    self.modified = true;
                }
                proof {
                    let nr = self.realms@[i as int];
                    assert(self.realms@ == old_realms.update(i as int, nr));
                    assert(nr.model() == realm_upsert(m.realms[i as int], f));
                    assert(ok == realm_upsert_ok(m.realms[i as int], f));
                    assert(self.model().realms =~= m.realms.update(i as int, nr.model()));
                    assert forall|j: int| 0 <= j < self.realms@.len() implies (
                    #[trigger] self.realms@[j]).wf() by {
                        if j != i {
                            assert(self.realms@[j] == old_realms[j]);
                        }
                    }
                }
                ok
            },
            None => {
                match flo.record.realm {
                    Some(cfg) => {
                        if self.config.accepts_realm(&rid) {
                            let rs = RealmStorage::new(
                                self.config.clone(),
                                self.our_id,
                                cfg,
                                rid,
                                flo,
                            );
                            match rs {
                                Ok(realm) => {
                                    let ghost old_realms = self.realms@;
                                    self.realms.push(realm);
                                    self.modified = true;
                                    proof {
                                        assert(self.model().realms =~= m.realms.push(
                                            new_realm(f, m.our_id, cfg),
                                        ));
                                        assert forall|j: int|
                                            0 <= j < self.realms@.len() implies (
                                        #[trigger] self.realms@[j]).wf() by {
                                            if j < old_realms.len() {
                                                assert(self.realms@[j] == old_realms[j]);
                                            }
                                        }
                                        let rs2 = self.model().realms;
                                        assert forall|a: int, b: int|
                                            0 <= a < rs2.len() && 0 <= b < rs2.len()
                                                && #[trigger] rs2[a].0 == #[trigger] rs2[b].0
                                            implies a == b by {
                                            if a < m.realms.len() && b == m.realms.len() {
                                                assert(m.realms[a].0 == rid);
                                            } else if b < m.realms.len() && a
                                                == m.realms.len() {
                                                assert(m.realms[b].0 == rid);
                                            }
                                        }
                                    }
                                    true
                                },
                                Err(_) => false,
                            }
                        } else {
                            false
                        }
                    },
                    None => false,
                }
            },
        }
    }

    /// Stores a Flo; if it was stored, sends it on to the node closest to it, and if
    /// it links to a parent, tells the node closest to the parent.
    fn store_flo(&mut self, flo: FloEntry) -> (r: Vec<InternOut>)
        requires
            old(self).wf(),
        ensures
            final(self).wf(),
            (final(self).model(), outs_view(r@)) == store_flo_model(old(self).model(), flo@),
    {
        let ghost m = self.model();
        self.experiment_stats.store_flo_total = bump_exec(self.experiment_stats.store_flo_total);
        let rec = flo.record;
        let copy = flo.clone();
        let mut res: Vec<InternOut> = Vec::new();
        let ok = self.upsert_flo(flo);
        if ok {
            res.push(InternOut::MessageClosest(rec.id, MessageClosest::StoreFlo(copy)));
        }
        match rec.config.cuckoo_parent() {
            Some(p) => {
                res.push(
                    InternOut::MessageClosest(
                        p,
                        MessageClosest::StoreCuckooID(GlobalID::new(rec.realm_id, rec.id)),
                    ),
                );
            },
            None => {},
        }
        proof {
            let (m2, o) = store_flo_model(m, copy@);
            assert(outs_view(res@) =~= o);
        }
        res
    }

    /// Records the cuckoos of a Flo in its realm, if the realm is stored.
    fn add_cuckoos(&mut self, rid: U256, fid: U256, cuckoos: Vec<U256>)
        requires
            old(self).wf(),
        ensures
            final(self).wf(),
            final(self).model() == add_cuckoos_model(old(self).model(), rid, fid, cuckoos@),
    {
        let ghost m = self.model();
        match self.realm_index(&rid) {
            Some(i) => {
                let ghost old_realms = self.realms@;
                self.realms[i].store_cuckoo_ids(&fid, cuckoos);
                proof {
                    let nr = self.realms@[i as int];
                    assert(self.realms@ == old_realms.update(i as int, nr));
                    assert(self.model().realms =~= m.realms.update(i as int, nr.model()));
                    assert forall|j: int| 0 <= j < self.realms@.len() implies (
                    #[trigger] self.realms@[j]).wf() by {
                        if j != i {
                            assert(self.realms@[j] == old_realms[j]);
                        }
                    }
                }
            },
            None => {},
        }
    }

    /// Stores a Flo received with its cuckoos.
    fn receive_flo(&mut self, fc: FloCuckoo)
        requires
            old(self).wf(),
        ensures
            final(self).wf(),
            final(self).model() == receive_flo(old(self).model(), fc_view(fc)),
    {
        let (flo, cuckoos) = fc;
        let rec = flo.record;
        let _ = self.store_flo(flo);
        self.add_cuckoos(rec.realm_id, rec.id, cuckoos);
    }
}

fn clone_fc(fc: &FloCuckoo) -> (r: FloCuckoo)
    ensures
        fc_view(r) == fc_view(*fc),
{
    let c = fc.1.clone();
    proof {
        assert(c@ =~= fc.1@);
    }
    (fc.0.clone(), c)
}

impl Messages {
    /// The IDs of the stored realms.
    fn realm_id_list(&self) -> (r: Vec<U256>)
        ensures
            r@ == realm_ids(self.model().realms),
    {
        let mut r: Vec<U256> = Vec::new();
        let mut i: usize = 0;
        while i < self.realms.len()
            invariant
                0 <= i <= self.realms.len(),
                r@ == realm_ids(self.model().realms).take(i as int),
            decreases self.realms.len() - i,
        {
            proof {
                assert(self.model().realms[i as int] == self.realms@[i as int].model());
            }
            r.push(self.realms[i].realm_id());
            proof {
                assert(r@ =~= realm_ids(self.model().realms).take(i + 1));
            }
            i = i + 1;
        }
        proof {
            assert(realm_ids(self.model().realms).take(i as int) =~= realm_ids(
                self.model().realms,
            ));
        }
        r
    }

    /// The cuckoos of the Flo, if its realm stores it.
    fn cuckoo_ids(&self, rid: &U256, fid: &U256) -> (r: Option<Vec<U256>>)
        requires
            self.wf(),
        ensures
            r is Some <==> read_model(self.model().realms, *rid, *fid) is Some,
            r matches Some(v) ==> v@ == read_model(self.model().realms, *rid, *fid)->Some_0.1,
    {
        match self.realm_index(rid) {
            Some(i) => {
                let r = self.realms[i].get_cuckoo_ids(fid);
                proof {
                    let s = self.realms@[i as int].view();
                    assert(self.model().realms[i as int].3 == s);
                    crate::dht_storage::realm_core::lemma_wf_unique(&self.realms@[i as int]);
                    if r is Some {
                        let v = r->Some_0;
                        let j = choose|j: int|
                            0 <= j < s.len() && s[j].0.id == *fid && s[j].1 == v@;
                        let c = entry_pos(s, *fid);
                        assert(s[c].0.id == s[j].0.id);
                    }
                }
                r
            },
            None => None,
        }
    }

    /// All stored Flos of all realms, with their cuckoos.
    fn all_flos(&self) -> (r: Vec<FloCuckoo>)
        ensures
            fcs_view(r@) == all_flos(self.model().realms),
    {
        let ghost rs = self.model().realms;
        let mut r: Vec<FloCuckoo> = Vec::new();
        let mut i: usize = 0;
        while i < self.realms.len()
            invariant
                0 <= i <= self.realms.len(),
                rs == self.model().realms,
                fcs_view(r@) == all_flos(rs.take(i as int)),
            decreases self.realms.len() - i,
        {
            let mut v = self.realms[i].get_all_flo_cuckoos();
            let ghost r0 = r@;
            let ghost v0 = v@;
            r.append(&mut v);
            proof {
                assert(rs[i as int] == self.realms@[i as int].model());
                assert(rs.take(i + 1).drop_last() =~= rs.take(i as int));
                assert(fcs_view(v0) =~= all_flo_cuckoos(rs[i as int].3));
                assert(fcs_view(r@) =~= fcs_view(r0) + fcs_view(v0));
            }
            i = i + 1;
        }
        proof {
            assert(rs.take(i as int) =~= rs);
        }
        r
    }

    /// Handles a message for which this node is on the route, or the closest when
    /// `closest` holds.
    pub fn msg_routing(&mut self, closest: bool, origin: NodeID, key: U256, msg: MessageClosest) -> (r: Vec<
        InternOut,
    >)
        requires
            old(self).wf(),
        ensures
            final(self).wf(),
            (final(self).model(), outs_view(r@)) == msg_routing_model(
                old(self).model(),
                closest,
                origin,
                key,
                msg@,
            ),
    {
        match msg {
            MessageClosest::StoreFlo(flo) => self.store_flo(flo),
            MessageClosest::ReadFlo(rid) => {
                match self.read_flo(&GlobalID::new(rid, key)) {
                    Some(fc) => {
                        if !self.no_forward {
                            self.experiment_stats.flo_value_sent_total =
                            bump_exec(self.experiment_stats.flo_value_sent_total);
                            let r = vec![InternOut::MessageDirect(origin, MessageDest::FloValue(fc))];
                            proof {
                                assert(outs_view(r@) =~= seq![
                                    InternOutView::MessageDirect(
                                        origin,
                                        MessageDestView::FloValue(fc_view(fc)),
                                    ),
                                ]);
                            }
                            r
                        } else {
                            self.experiment_stats.flo_value_sent_blocked_total =
                            bump_exec(self.experiment_stats.flo_value_sent_blocked_total);
                            let r: Vec<InternOut> = Vec::new();
                            proof {
                                assert(outs_view(r@) =~= Seq::<InternOutView>::empty());
                            }
                            r
                        }
                    },
                    None => {
                        let mut r: Vec<InternOut> = Vec::new();
                        if closest {
                            r.push(InternOut::MessageDirect(origin, MessageDest::UnknownFlo(GlobalID::new(rid, key))));
                            proof {
                                assert(outs_view(r@) =~= seq![
                                    InternOutView::MessageDirect(origin, MessageDestView::UnknownFlo(GlobalID(rid, key))),
                                ]);
                            }
                        } else {
                            proof {
                                assert(outs_view(r@) =~= Seq::<InternOutView>::empty());
                            }
                        }
                        r
                    },
                }
            },
            MessageClosest::GetCuckooIDs(rid) => {
                match self.cuckoo_ids(&rid, &key) {
                    Some(ids) => {
                        let r = vec![
                            InternOut::MessageDirect(
                                origin,
                                MessageDest::CookooIDs(GlobalID::new(rid, key), ids),
                            ),
                        ];
                        proof {
                            assert(outs_view(r@) =~= seq![
                                InternOutView::MessageDirect(
                                    origin,
                                    MessageDestView::CookooIDs(GlobalID(rid, key), ids@),
                                ),
                            ]);
                        }
                        r
                    },
                    None => {
                        let r: Vec<InternOut> = Vec::new();
                        proof {
                            assert(outs_view(r@) =~= Seq::<InternOutView>::empty());
                        }
                        r
                    },
                }
            },
            MessageClosest::StoreCuckooID(gid) => {
                let c = vec![gid.flo_id()];
                proof {
                    assert(c@ =~= seq![gid.1]);
                }
                self.add_cuckoos(gid.realm_id(), key, c);
                let r: Vec<InternOut> = Vec::new();
                proof {
                    assert(outs_view(r@) =~= Seq::<InternOutView>::empty());
                }
                r
            },
        }
    }

    /// Handles a message sent directly to this node.
    pub fn msg_dest(&mut self, msg: MessageDest) -> (r: Vec<InternOut>)
        requires
            old(self).wf(),
        ensures
            final(self).wf(),
            (final(self).model(), outs_view(r@)) == msg_dest_model(old(self).model(), msg@),
    {
        let r = match msg {
            MessageDest::FloValue(fc) => {
                let copy = clone_fc(&fc);
                self.receive_flo(fc);
                vec![InternOut::Storage(DHTStorageOut::FloValue(copy))]
            },
            MessageDest::UnknownFlo(k) => vec![InternOut::Storage(DHTStorageOut::ValueMissing(k))],
            MessageDest::CookooIDs(g, c) => vec![InternOut::Storage(DHTStorageOut::CuckooIDs(g, c))],
        };
        proof {
            assert(outs_view(r@) =~= msg_dest_model(old(self).model(), msg@).1);
        }
        r
    }

    /// Handles a request of a user of the storage.
    pub fn msg_dht_storage(&mut self, msg: DHTStorageIn) -> (r: Vec<InternOut>)
        requires
            old(self).wf(),
        ensures
            final(self).wf(),
            (final(self).model(), outs_view(r@)) == msg_dht_storage_model(
                old(self).model(),
                msg@,
            ),
    {
        let ghost m = self.model();
        let ghost mv = msg@;
        let r = match msg {
            DHTStorageIn::StoreFlo(flo) => {
                return self.store_flo(flo);
            },
            DHTStorageIn::ReadFlo(id) => {
                match self.read_flo(&id) {
                    Some(df) => vec![InternOut::Storage(DHTStorageOut::FloValue(df))],
                    None => vec![
                        InternOut::MessageClosest(
                            id.flo_id(),
                            MessageClosest::ReadFlo(id.realm_id()),
                        ),
                    ],
                }
            },
            DHTStorageIn::ReadCuckooIDs(id) => {
                let mut out: Vec<InternOut> = match self.cuckoo_ids(&id.realm_id(), &id.flo_id()) {
                    Some(c) => vec![InternOut::Storage(DHTStorageOut::CuckooIDs(id, c))],
                    None => Vec::new(),
                };
                out.push(
                    InternOut::MessageClosest(id.flo_id(), MessageClosest::GetCuckooIDs(id.realm_id())),
                );
                out
            },
            DHTStorageIn::GetFlos => vec![InternOut::Storage(DHTStorageOut::FloValues(self.all_flos()))],
            DHTStorageIn::GetRealms => vec![InternOut::Storage(DHTStorageOut::RealmIDs(self.realm_id_list()))],
            DHTStorageIn::SyncFromNeighbors => vec![
                InternOut::MessageBroadcast(MessageNeighbour::RequestRealmIDs),
            ],
            DHTStorageIn::PropagateFlos => {
                match MessageNeighbour::AvailableRealmIDs(self.realm_id_list()).to_broadcast() {
                    Some(o) => vec![o],
                    None => Vec::new(),
                }
            },
        };
        proof {
            assert(outs_view(r@) =~= msg_dht_storage_model(m, mv).1);
        }
        r
    }
}

fn opt_vec(o: Option<InternOut>) -> (r: Vec<InternOut>)
    ensures
        outs_view(r@) == match o {
            Some(x) => seq![x@],
            None => Seq::<InternOutView>::empty(),
        },
{
    let r = match o {
        Some(x) => vec![x],
        None => Vec::new(),
    };
    proof {
        assert(outs_view(r@) =~= match o {
            Some(x) => seq![x@],
            None => Seq::<InternOutView>::empty(),
        });
    }
    r
}

/// The requested Flos that the realm stores, with their cuckoos, in the order
/// requested.
fn found_flos(realm: &RealmStorage, ids: &Vec<U256>) -> (r: Vec<FloCuckoo>)
    requires
        realm.wf(),
    ensures
        fcs_view(r@) == found(realm.view(), ids@),
{
    let ghost s = realm.view();
    proof {
        crate::dht_storage::realm_core::lemma_wf_unique(realm);
    }
    let mut r: Vec<FloCuckoo> = Vec::new();
    let mut k: usize = 0;
    while k < ids.len()
        invariant
            0 <= k <= ids.len(),
            s == realm.view(),
            realm.wf(),
            crate::dht_storage::realm_core::unique_ids(s),
            fcs_view(r@) == found(s, ids@.take(k as int)),
        decreases ids.len() - k,
    {
        proof {
            assert(ids@.take(k + 1).drop_last() =~= ids@.take(k as int));
        }
        let ghost r0 = r@;
        match realm.get_flo_cuckoo(&ids[k]) {
            Some(fc) => {
                proof {
                    let id = ids@[k as int];
                    let j = choose|j: int|
                        0 <= j < s.len() && s[j].0.id == id && s[j] == (
                            fc.0.record,
                            fc.1@,
                            fc.0.bytes@,
                        );
                    let c = entry_pos(s, id);
                    assert(s[c].0.id == s[j].0.id);
                }
                r.push(fc);
                proof {
                    assert(fcs_view(r@) =~= fcs_view(r0).push(fc_view(fc)));
                }
            },
            None => {},
        }
        k = k + 1;
    }
    proof {
        assert(ids@.take(ids.len() as int) =~= ids@);
    }
    r
}

proof fn lemma_first_realm_pos(fs: Seq<FloCuckooView>)
    ensures
        first_realm_pos(fs) == -1 ==> forall|i: int| 0 <= i < fs.len() ==> (#[trigger] fs[i]).0.0.realm is None,
        first_realm_pos(fs) != -1 ==> 0 <= first_realm_pos(fs) < fs.len() && fs[first_realm_pos(
            fs,
        )].0.0.realm is Some && forall|i: int|
            0 <= i < first_realm_pos(fs) ==> (#[trigger] fs[i]).0.0.realm is None,
    decreases fs.len(),
{
    if fs.len() > 0 {
        lemma_first_realm_pos(fs.drop_last());
        assert forall|i: int| 0 <= i < fs.len() - 1 implies #[trigger] fs[i] == fs.drop_last()[i] by {}
    }
}

/// The one Flo to send: the first that defines a realm, else the last.
fn pick_flo(flos: &Vec<FloCuckoo>) -> (r: Vec<FloCuckoo>)
    ensures
        fcs_view(r@) == pick(fcs_view(flos@)),
{
    let ghost fs = fcs_view(flos@);
    proof {
        lemma_first_realm_pos(fs);
    }
    let mut k: usize = 0;
    while k < flos.len()
        invariant
            0 <= k <= flos.len(),
            fs == fcs_view(flos@),
            forall|i: int| 0 <= i < k ==> (#[trigger] fs[i]).0.0.realm is None,
        decreases flos.len() - k,
    {
        if flos[k].0.record.realm.is_some() {
            let r = vec![clone_fc(&flos[k])];
            proof {
                lemma_first_realm_pos(fs);
                let p = first_realm_pos(fs);
                assert(fs[k as int].0.0.realm is Some);
                if p == -1 {
                } else if p < k {
                    assert(fs[p].0.0.realm is None);
                } else if p > k {
                    assert(fs[k as int].0.0.realm is None);
                }
                assert(fcs_view(r@) =~= pick(fs));
            }
            return r;
        }
        k = k + 1;
    }
    let r = if flos.len() > 0 {
        vec![clone_fc(&flos[flos.len() - 1])]
    } else {
        Vec::new()
    };
    proof {
        let p = first_realm_pos(fs);
        if p != -1 {
            assert(fs[p].0.0.realm is None);
        }
        assert(fcs_view(r@) =~= pick(fs));
    }
    r
}

impl Messages {
    /// Handles a message from a neighbour.
    pub fn msg_neighbour(&mut self, origin: NodeID, msg: MessageNeighbour) -> (r: Vec<InternOut>)
        requires
            old(self).wf(),
        ensures
            final(self).wf(),
            (final(self).model(), outs_view(r@)) == msg_neighbour_model(
                old(self).model(),
                origin,
                msg@,
            ),
    {
        let ghost m = self.model();
        let ghost mv = msg@;
        match msg {
            MessageNeighbour::RequestRealmIDs => {
                opt_vec(MessageNeighbour::AvailableRealmIDs(self.realm_id_list()).to_neighbour(origin))
            },
            MessageNeighbour::AvailableRealmIDs(ids) => {
                let mut acc: Vec<U256> = Vec::new();
                let mut k: usize = 0;
                while k < ids.len()
                    invariant
                        0 <= k <= ids.len(),
                        m == self.model(),
                        acc@ == accepted_of(m.accepted, ids@.take(k as int)),
                    decreases ids.len() - k,
                {
                    proof {
                        assert(ids@.take(k + 1).drop_last() =~= ids@.take(k as int));
                    }
                    if self.config.accepts_realm(&ids[k]) {
                        acc.push(ids[k]);
                    }
                    k = k + 1;
                }
                proof {
                    assert(ids@.take(ids.len() as int) =~= ids@);
                }
                let mut out: Vec<InternOut> = Vec::new();
                let mut k: usize = 0;
                while k < acc.len()
                    invariant
                        0 <= k <= acc.len(),
                        m == self.model(),
                        self.wf(),
                        outs_view(out@) == new_realm_requests(m.realms, acc@.take(k as int), origin),
                    decreases acc.len() - k,
                {
                    proof {
                        assert(acc@.take(k + 1).drop_last() =~= acc@.take(k as int));
                    }
                    let rid = acc[k];
                    if self.realm_index(&rid).is_none() {
                        let ghost o0 = out@;
                        let one = vec![rid];
                        out.push(
                            InternOut::MessageNeighbour(origin, MessageNeighbour::RequestFlos(rid, one)),
                        );
                        proof {
                            assert(one@ =~= seq![rid]);
                            assert(outs_view(out@) =~= outs_view(o0).push(
                                InternOutView::MessageNeighbour(
                                    origin,
                                    MessageNeighbourView::RequestFlos(rid, seq![rid]),
                                ),
                            ));
                        }
                    }
                    k = k + 1;
                }
                proof {
                    assert(acc@.take(acc.len() as int) =~= acc@);
                }
                let ghost o1 = outs_view(out@);
                let mut k: usize = 0;
                while k < acc.len()
                    invariant
                        0 <= k <= acc.len(),
                        m == self.model(),
                        outs_view(out@) == o1 + meta_requests(acc@.take(k as int), origin),
                    decreases acc.len() - k,
                {
                    let ghost o0 = out@;
                    out.push(
                        InternOut::MessageNeighbour(origin, MessageNeighbour::RequestFloMetas(acc[k])),
                    );
                    proof {
                        assert(outs_view(out@) =~= outs_view(o0).push(
                            InternOutView::MessageNeighbour(
                                origin,
                                MessageNeighbourView::RequestFloMetas(acc@[k as int]),
                            ),
                        ));
                        assert(meta_requests(acc@.take(k + 1), origin) =~= meta_requests(
                            acc@.take(k as int),
                            origin,
                        ).push(
                            InternOutView::MessageNeighbour(
                                origin,
                                MessageNeighbourView::RequestFloMetas(acc@[k as int]),
                            ),
                        ));
                    }
                    k = k + 1;
                }
                proof {
                    assert(acc@.take(acc.len() as int) =~= acc@);
                }
                out
            },
            MessageNeighbour::RequestFloMetas(rid) => {
                if !self.no_forward {
                    self.experiment_stats.available_flos_sent_total =
                    bump_exec(self.experiment_stats.available_flos_sent_total);
                    match self.realm_index(&rid) {
                        Some(i) => {
                            let metas = self.realms[i].get_flo_metas();
                            proof {
                                assert(metas@ =~= metas_of(m.realms[i as int].3));
                            }
                            opt_vec(MessageNeighbour::AvailableFlos(rid, metas).to_neighbour(origin))
                        },
                        None => opt_vec(None),
                    }
                } else {
                    self.experiment_stats.available_flos_sent_blocked_total =
                    bump_exec(self.experiment_stats.available_flos_sent_blocked_total);
                    opt_vec(None)
                }
            },
            MessageNeighbour::AvailableFlos(rid, metas) => {
                self.experiment_stats.max_flo_metas_received_in_available_flos =
                raise_exec(
                    self.experiment_stats.max_flo_metas_received_in_available_flos,
                    metas.len() as u32,
                );
                match self.realm_index(&rid) {
                    Some(i) => {
                        match self.realms[i].sync_available(&metas) {
                            Some(needed) => {
                                self.experiment_stats.max_flo_metas_requested_in_request_flos =
                                raise_exec(
                                    self.experiment_stats.max_flo_metas_requested_in_request_flos,
                                    needed.len() as u32,
                                );
                                opt_vec(
                                    MessageNeighbour::RequestFlos(rid, needed).to_neighbour(origin),
                                )
                            },
                            None => opt_vec(None),
                        }
                    },
                    None => opt_vec(None),
                }
            },
            MessageNeighbour::RequestFlos(rid, ids) => {
                self.experiment_stats.max_flo_ids_received_in_request_flos =
                raise_exec(
                    self.experiment_stats.max_flo_ids_received_in_request_flos,
                    ids.len() as u32,
                );
                if !self.no_forward {
                    self.experiment_stats.flos_sent_total = bump_exec(
                        self.experiment_stats.flos_sent_total,
                    );
                    match self.realm_index(&rid) {
                        Some(i) => {
                            let flos = found_flos(&self.realms[i], &ids);
                            let sel = pick_flo(&flos);
                            self.experiment_stats.max_flos_sent_in_flos =
                            raise_exec(self.experiment_stats.max_flos_sent_in_flos, sel.len() as u32);
                            opt_vec(MessageNeighbour::Flos(sel).to_neighbour(origin))
                        },
                        None => opt_vec(None),
                    }
                } else {
                    self.experiment_stats.flos_sent_blocked_total =
                    bump_exec(self.experiment_stats.flos_sent_blocked_total);
                    opt_vec(None)
                }
            },
            MessageNeighbour::Flos(fcs) => {
                self.experiment_stats.max_flos_received_in_flos =
                raise_exec(self.experiment_stats.max_flos_received_in_flos, fcs.len() as u32);
                let ghost m1 = self.model();
                let ghost fv = fcs_view(fcs@);
                let mut k: usize = 0;
                while k < fcs.len()
                    invariant
                        0 <= k <= fcs.len(),
                        self.wf(),
                        fv == fcs_view(fcs@),
                        self.model() == receive_flos(m1, fv.take(k as int)),
                    decreases fcs.len() - k,
                {
                    proof {
                        assert(fv.take(k + 1).drop_last() =~= fv.take(k as int));
                    }
                    let fc = clone_fc(&fcs[k]);
                    self.receive_flo(fc);
                    k = k + 1;
                }
                proof {
                    assert(fv.take(fcs.len() as int) =~= fv);
                }
                opt_vec(None)
            },
        }
    }
}

impl Messages {
    /// Handles a message from the router.
    pub fn msg_dht_router(&mut self, msg: RouterOut) -> (r: Vec<InternOut>)
        requires
            old(self).wf(),
        ensures
            final(self).wf(),
            (final(self).model(), outs_view(r@)) == msg_dht_router_model(old(self).model(), msg@),
    {
        let ghost m = self.model();
        match msg {
            RouterOut::MessageRouting(origin, key, mc) => self.msg_routing(false, origin, key, mc),
            RouterOut::MessageClosest(origin, key, mc) => self.msg_routing(true, origin, key, mc),
            RouterOut::MessageDest(md) => self.msg_dest(md),
            RouterOut::NodeList(nodes) => {
                self.nodes = nodes;
                opt_vec(None)
            },
            RouterOut::MessageNeighbour(origin, mn) => self.msg_neighbour(origin, mn),
            RouterOut::SystemRealm(realm_id) => {
                if !ids_contain(&self.config.realms, &realm_id) {
                    self.config.realms.push(realm_id);
                }
                opt_vec(None)
            },
        }
    }

    /// Handles one incoming message.
    pub fn step(&mut self, msg: InternIn) -> (r: Vec<InternOut>)
        requires
            old(self).wf(),
        ensures
            final(self).wf(),
            (final(self).model(), outs_view(r@)) == step_model(old(self).model(), msg@),
    {
        match msg {
            InternIn::Routing(r) => self.msg_dht_router(r),
            InternIn::Storage(s) => self.msg_dht_storage(s),
            InternIn::PropagateFlos => {
                opt_vec(MessageNeighbour::AvailableRealmIDs(self.realm_id_list()).to_broadcast())
            },
        }
    }

    /// Handles the incoming messages in turn, and returns all outgoing messages.
    pub fn messages(&mut self, inputs: Vec<InternIn>) -> (r: Vec<InternOut>)
        requires
            old(self).wf(),
        ensures
            final(self).wf(),
            (final(self).model(), outs_view(r@)) == process_model(
                old(self).model(),
                inputs@.map_values(|i: InternIn| i@),
            ),
    {
        let ghost m0 = self.model();
        let ghost iv = inputs@.map_values(|i: InternIn| i@);
        let mut inputs = inputs;
        let ghost orig = inputs@;
        let mut out: Vec<InternOut> = Vec::new();
        let mut k: usize = 0;
        let n = inputs.len();
        while k < n
            invariant
                0 <= k <= n,
                n == iv.len(),
                n == orig.len(),
                iv == orig.map_values(|i: InternIn| i@),
                inputs@.len() == n - k,
                forall|j: int| 0 <= j < n - k ==> #[trigger] inputs@[j] == orig[k + j],
                self.wf(),
                (self.model(), outs_view(out@)) == process_model(m0, iv.take(k as int)),
            decreases n - k,
        {
            let msg = inputs.remove(0);
            proof {
                assert(msg == orig[k as int]);
                assert(msg@ == iv[k as int]);
                assert(iv.take(k + 1).drop_last() =~= iv.take(k as int));
                assert(iv.take(k + 1).last() == iv[k as int]);
            }
            let ghost o0 = outs_view(out@);
            let mut o = self.step(msg);
            let ghost ov = outs_view(o@);
            out.append(&mut o);
            proof {
                assert(outs_view(out@) =~= o0 + ov);
            }
            k = k + 1;
        }
        proof {
            assert(iv.take(n as int) =~= iv);
        }
        out
    }
}

/// No realm is stored twice, and no realm stores a Flo twice.
pub open spec fn model_wf(m: MessagesModel) -> bool {
    &&& unique_realms(m.realms)
    &&& forall|i: int|
        0 <= i < m.realms.len() ==> crate::dht_storage::realm_core::unique_ids(
            #[trigger] m.realms[i].3,
        )
}

impl Messages {
    /// The message handling's own invariant holds of its model.
    pub proof fn lemma_wf_model(&self)
        requires
            self.wf(),
        ensures
            model_wf(self.model()),
    {
        assert forall|i: int| 0 <= i < self.model().realms.len() implies crate::dht_storage::realm_core::unique_ids(
            #[trigger] self.model().realms[i].3,
        ) by {
            assert(self.model().realms[i] == self.realms@[i].model());
            crate::dht_storage::realm_core::lemma_wf_unique(&self.realms@[i]);
        }
    }
}

/// A Flo that a store request stores is what a read request for it then gives
/// back, without cuckoos.
pub proof fn lemma_store_then_read(m: MessagesModel, f: FloView)
    requires
        model_wf(m),
        upsert_model(
            with_stats(m, DsMetrics { store_flo_total: bump(m.stats.store_flo_total), ..m.stats }),
            f,
        ).1,
    ensures
        read_model(store_flo_model(m, f).0.realms, f.0.realm_id, f.0.id) == Some(
            (f, Seq::<U256>::empty()),
        ),
        msg_dht_storage_model(
            store_flo_model(m, f).0,
            DHTStorageInView::ReadFlo(GlobalID(f.0.realm_id, f.0.id)),
        ).1 == seq![InternOutView::Storage(DHTStorageOutView::FloValue((f, Seq::<U256>::empty())))],
{
    let m1 = with_stats(m, DsMetrics { store_flo_total: bump(m.stats.store_flo_total), ..m.stats });
    let m2 = store_flo_model(m, f).0;
    let rid = f.0.realm_id;
    let e = (f.0, Seq::<U256>::empty(), f.1);
    if has_realm(m1.realms, rid) {
        let i = realm_pos(m1.realms, rid);
        let r = m1.realms[i];
        let s2 = evict(upserted(r.3, f.0, f.1), r.1, f.0.id, r.2.max_space as int);
        crate::dht_storage::realm_core::lemma_upsert_keeps_flo(
            r.3,
            r.1,
            f.0,
            f.1,
            r.2.max_space as int,
        );
        crate::dht_storage::realm_core::lemma_unique_upsert_evict(
            r.3,
            f.0,
            f.1,
            r.1,
            r.2.max_space as int,
        );
        assert(m2.realms[i].3 == s2);
        assert(m2.realms[i].0 == rid);
        let c = realm_pos(m2.realms, rid);
        assert(m2.realms[c].0 == m2.realms[i].0);
        assert(m1.realms[c].0 == m2.realms[c].0 || c == i);
        if c != i {
            assert(m1.realms[c].0 == rid);
        }
        let j = choose|j: int| 0 <= j < s2.len() && s2[j] == e;
        assert(s2[j].0.id == f.0.id);
        let p = entry_pos(s2, f.0.id);
        assert(s2[p].0.id == s2[j].0.id);
    } else {
        let n = m1.realms.len();
        assert(m2.realms[n as int].0 == rid);
        let c = realm_pos(m2.realms, rid);
        if c != n {
            assert(m1.realms[c].0 == rid);
        }
        let s2 = m2.realms[n as int].3;
        assert(s2[0].0.id == f.0.id);
        let p = entry_pos(s2, f.0.id);
    }
}

/// Every message goes to `origin` as a neighbour message that carries something.
pub open spec fn answers_origin(o: Seq<InternOutView>, origin: NodeID) -> bool {
    forall|i: int|
        0 <= i < o.len() ==> match #[trigger] o[i] {
            InternOutView::MessageNeighbour(d, w) => d == origin && carries_something(w),
            _ => false,
        }
}

proof fn lemma_accepted_of_len(accepted: Seq<U256>, ids: Seq<U256>)
    ensures
        accepted_of(accepted, ids).len() <= ids.len(),
    decreases ids.len(),
{
    if ids.len() > 0 {
        lemma_accepted_of_len(accepted, ids.drop_last());
    }
}

proof fn lemma_new_realm_requests(rs: Seq<RealmModel>, acc: Seq<U256>, origin: NodeID)
    ensures
        new_realm_requests(rs, acc, origin).len() <= acc.len(),
        answers_origin(new_realm_requests(rs, acc, origin), origin),
    decreases acc.len(),
{
    if acc.len() > 0 {
        lemma_new_realm_requests(rs, acc.drop_last(), origin);
        let r = new_realm_requests(rs, acc.drop_last(), origin);
        let n = new_realm_requests(rs, acc, origin);
        assert forall|i: int| 0 <= i < n.len() implies match #[trigger] n[i] {
            InternOutView::MessageNeighbour(d, w) => d == origin && carries_something(w),
            _ => false,
        } by {
            if i < r.len() {
                assert(n[i] == r[i]);
            } else {
                assert(seq![acc.last()].len() > 0);
            }
        }
    }
}

/// A neighbour message is answered to the neighbour that sent it only, with messages
/// that carry something: at most two for each announced realm, at most one for any
/// other message. Received Flos get no answer, and a node that does not forward
/// answers no request for Flo metas or Flos.
pub proof fn lemma_neighbour_answers(m: MessagesModel, origin: NodeID, msg: MessageNeighbourView)
    ensures
        answers_origin(msg_neighbour_model(m, origin, msg).1, origin),
        msg matches MessageNeighbourView::AvailableRealmIDs(ids) ==> msg_neighbour_model(
            m,
            origin,
            msg,
        ).1.len() <= 2 * ids.len(),
        !(msg is AvailableRealmIDs) ==> msg_neighbour_model(m, origin, msg).1.len() <= 1,
        msg is Flos ==> msg_neighbour_model(m, origin, msg).1.len() == 0,
        m.no_forward && (msg is RequestFloMetas || msg is RequestFlos) ==> msg_neighbour_model(
            m,
            origin,
            msg,
        ).1.len() == 0,
{
    let o = msg_neighbour_model(m, origin, msg).1;
    match msg {
        MessageNeighbourView::AvailableRealmIDs(ids) => {
            let acc = accepted_of(m.accepted, ids);
            lemma_accepted_of_len(m.accepted, ids);
            lemma_new_realm_requests(m.realms, acc, origin);
            let a = new_realm_requests(m.realms, acc, origin);
            let b = meta_requests(acc, origin);
            assert(o == a + b);
            assert forall|i: int| 0 <= i < o.len() implies match #[trigger] o[i] {
                InternOutView::MessageNeighbour(d, w) => d == origin && carries_something(w),
                _ => false,
            } by {
                if i < a.len() {
                    assert(o[i] == a[i]);
                } else {
                    assert(o[i] == b[i - a.len()]);
                }
            }
        },
        _ => {},
    }
}

} // verus!
