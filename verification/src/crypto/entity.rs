use vstd::prelude::*;

use super::signer::SignerError;
use super::test::access::{le_bytes_usize, push_le_bytes_usize};
use crate::hash::{sha256, sha256_spec};
use crate::nodeid::{push_bytes, U256};

verus! {

/// Errors when creating, evolving or verifying an entity.
#[derive(Debug)]
pub enum EntityError {
    VerificationSignatureMissing,
    VerificationWrongSignatures,
    EvolveWrongSignature,
    WrongEntityID,
    SignatureWrongIdentity,
    SignatureWrongEntity,
    SignatureError(SignerError),
    ThresholdNotReached,
    ZeroThreshold,
    ThresholdAboveVerifiers,
    ZeroVerifiers,
    EvolutionState,
}

/// The text of an entity error.
pub open spec fn entity_error_text(e: EntityError) -> Seq<char> {
    match e {
        EntityError::VerificationSignatureMissing => "Verification error: not enough signatures"@,
        EntityError::VerificationWrongSignatures => "Verification error: wrong signatures present"@,
        EntityError::EvolveWrongSignature => "Cannot evolve with this signature"@,
        EntityError::WrongEntityID => "The EntityID doesn't match this entity"@,
        EntityError::SignatureWrongIdentity => "Signature error: identity not in Collection"@,
        EntityError::SignatureWrongEntity => "Signature error: wrong type of signature for this entity"@,
        EntityError::SignatureError(_) => "Signature error"@,
        EntityError::ThresholdNotReached => "Not enough signatures present"@,
        EntityError::ZeroThreshold => "Cannot have zero threshold"@,
        EntityError::ThresholdAboveVerifiers => "Not enough verifiers for this threshold"@,
        EntityError::ZeroVerifiers => "Need at least one verifier"@,
        EntityError::EvolutionState => "Not the same evolution state"@,
    }
}

impl EntityError {
    /// The message describing the error.
    pub fn message(&self) -> (r: &'static str)
        ensures
            r@ == entity_error_text(*self),
    {
        match self {
            EntityError::VerificationSignatureMissing => "Verification error: not enough signatures",
            EntityError::VerificationWrongSignatures => "Verification error: wrong signatures present",
            EntityError::EvolveWrongSignature => "Cannot evolve with this signature",
            EntityError::WrongEntityID => "The EntityID doesn't match this entity",
            EntityError::SignatureWrongIdentity => "Signature error: identity not in Collection",
            EntityError::SignatureWrongEntity => "Signature error: wrong type of signature for this entity",
            EntityError::SignatureError(_) => "Signature error",
            EntityError::ThresholdNotReached => "Not enough signatures present",
            EntityError::ZeroThreshold => "Cannot have zero threshold",
            EntityError::ThresholdAboveVerifiers => "Not enough verifiers for this threshold",
            EntityError::ZeroVerifiers => "Need at least one verifier",
            EntityError::EvolutionState => "Not the same evolution state",
        }
    }
}

/// The checks on the parameters of a new entity or of an evolution: a non-zero
/// threshold, no more than there are verifiers, and at least one verifier.
pub open spec fn spec_check_threshold(verifiers: usize, threshold: usize) -> Result<(), EntityError> {
    if threshold == 0 {
        Err(EntityError::ZeroThreshold)
    } else if threshold > verifiers {
        Err(EntityError::ThresholdAboveVerifiers)
    } else if verifiers == 0 {
        Err(EntityError::ZeroVerifiers)
    } else {
        Ok(())
    }
}

/// Checks the threshold of a new entity or evolution with `verifiers` verifiers.
pub fn check_threshold(verifiers: usize, threshold: usize) -> (r: Result<(), EntityError>)
    ensures
        r == spec_check_threshold(verifiers, threshold),
{
    if threshold == 0 {
        return Err(EntityError::ZeroThreshold);
    }
    if threshold > verifiers {
        return Err(EntityError::ThresholdAboveVerifiers);
    }
    if verifiers == 0 {
        return Err(EntityError::ZeroVerifiers);
    }
    Ok(())
}

// ---------------------------------------------------------------------------
// Entities
// ---------------------------------------------------------------------------

/// A member of an entity: a verifier, or another entity, each by its identifier.
/// The keys behind a verifier stay with the signature scheme; what an entity
/// reads of a member is its kind and its identifier.
#[derive(Debug, Clone, Copy)]
pub enum EntityVerifierV1 {
    Verifier(U256),
    Entity(U256),
}

impl EntityVerifierV1 {
    pub fn get_id(&self) -> (r: EntityID)
        ensures
            r == member_id(*self),
    {
        match self {
            EntityVerifierV1::Verifier(id) => *id,
            EntityVerifierV1::Entity(id) => *id,
        }
    }
}

pub type EntityID = U256;

/// The identifier of a member.
pub open spec fn member_id(m: EntityVerifierV1) -> U256 {
    match m {
        EntityVerifierV1::Verifier(id) => id,
        EntityVerifierV1::Entity(id) => id,
    }
}

/// The bytes of the identifiers of the members, one after the other.
pub open spec fn member_bytes(ms: Seq<EntityVerifierV1>) -> Seq<u8>
    decreases ms.len(),
{
    if ms.len() == 0 {
        Seq::empty()
    } else {
        member_bytes(ms.drop_last()) + member_id(ms.last()).bytes@
    }
}

/// A signature of an entity: one of a single verifier, or those of the members that
/// signed, by identifier.
#[derive(Debug)]
pub enum EntitySignature {
    Single(Vec<u8>),
    Entity(Vec<(EntityID, EntitySignature)>),
}

/// The contents of a signature.
pub enum SigView {
    Single(Seq<u8>),
    Entity(Seq<(EntityID, SigView)>),
}

/// The contents of a signature: its bytes, or the contents of the signatures of
/// the members, by member.
pub open spec fn sig_view(s: EntitySignature) -> SigView
    decreases s,
{
    match s {
        EntitySignature::Single(b) => SigView::Single(b@),
        EntitySignature::Entity(v) => SigView::Entity(
            Seq::new(
                v@.len(),
                |i: int|
                    if 0 <= i < v@.len() {
                        proof {
                            broadcast use vstd::std_specs::vec::axiom_vec_decreases_to_view;
                            assert(decreases_to!(v => v@));
                            assert(decreases_to!(v@ => v@[i]));
                        }
                        (v@[i].0, sig_view(v@[i].1))
                    } else {
                        (v@[i].0, SigView::Single(Seq::empty()))
                    },
            ),
        ),
    }
}

impl EntitySignature {
    /// A copy of the signature.
    pub fn copy(&self) -> (r: EntitySignature)
        ensures
            sig_view(r) == sig_view(*self),
        decreases self,
    {
        match self {
            EntitySignature::Single(s) => {
                let c = s.clone();
                proof {
                    assert(c@ =~= s@);
                }
                EntitySignature::Single(c)
            },
            EntitySignature::Entity(v) => {
                let mut r: Vec<(EntityID, EntitySignature)> = Vec::new();
                let mut i: usize = 0;
                while i < v.len()
                    invariant
                        0 <= i <= v.len(),
                        *self is Entity,
                        (*self)->Entity_0 == *v,
                        r@.len() == i,
                        forall|j: int| 0 <= j < i ==> (#[trigger] r@[j]).0 == v@[j].0 && sig_view(r@[j].1) == sig_view(v@[j].1),
                    decreases v.len() - i,
                {
                    proof {
                        broadcast use vstd::std_specs::vec::axiom_vec_decreases_to_view;
                        assert(*v == (*self)->Entity_0);
                        assert(decreases_to!(*self => (*self)->Entity_0));
                        assert(decreases_to!(*v => v@));
                        assert(decreases_to!(v@ => v@[i as int]));
                        assert(decreases_to!(v@[i as int] => v@[i as int].1));
                        assert(decreases_to!(*self => v@[i as int].1));
                    }
                    let s = v[i].1.copy();
                    r.push((v[i].0, s));
                    i = i + 1;
                }
                let out = EntitySignature::Entity(r);
                proof {
                    assert(sig_view(out) =~= sig_view(*self)) by {
                        if let (SigView::Entity(a), SigView::Entity(b)) = (sig_view(out), sig_view(*self)) {
                            assert(a =~= b);
                        }
                    }
                }
                out
            },
        }
    }
}

/// One state of an entity: its members, how many of them must sign, and the
/// signature that evolved it to the next state, once there is one.
#[derive(Debug)]
pub struct EntityHistoryV1 {
    pub entities: Vec<EntityVerifierV1>,
    pub threshold: usize,
    pub sigs: Option<EntitySignature>,
}

/// The view of a state: members, threshold and evolving signature.
pub struct HistoryView {
    pub entities: Seq<EntityVerifierV1>,
    pub threshold: usize,
    pub sigs: Option<EntitySignature>,
}

impl EntityHistoryV1 {
    pub open spec fn view(&self) -> HistoryView {
        HistoryView { entities: self.entities@, threshold: self.threshold, sigs: self.sigs }
    }
}

/// An entity: its first state and the states it evolved to.
#[derive(Debug)]
pub struct EntityV1 {
    pub initial: EntityHistoryV1,
    pub updates: Vec<EntityHistoryV1>,
}

#[derive(Debug)]
pub enum Entity {
    V1(EntityV1),
}

/// The states of an entity, the first one first.
pub open spec fn entity_states(e: Entity) -> Seq<HistoryView> {
    match e {
        Entity::V1(v) => seq![v.initial@] + v.updates@.map_values(|h: EntityHistoryV1| h@),
    }
}

/// The bytes of the identifier of an entity: the digest of the identifiers of its
/// first members.
pub open spec fn entity_id_spec(e: Entity) -> Seq<u8> {
    sha256_spec(member_bytes(entity_states(e)[0].entities))
}

/// The message that the members sign for an entity at a version: the digest of
/// the version, the entity's identifier and the message.
pub open spec fn entity_msg_spec(id: Seq<u8>, version: usize, msg: Seq<u8>) -> Seq<u8> {
    sha256_spec(le_bytes_usize(version) + id + msg)
}

/// The message proposing an evolution to new members with a threshold.
pub open spec fn propose_msg_spec(entities_new: Seq<EntityVerifierV1>, threshold: usize) -> Seq<u8> {
    sha256_spec(le_bytes_usize(threshold) + member_bytes(entities_new))
}

/// Checks a single signature against a state: it needs a threshold of one, one
/// member, and that member a verifier; `valid` is what that verifier said of the
/// signature.
pub open spec fn verify_single(h: HistoryView, valid: Result<(), SignerError>) -> Result<(), EntityError> {
    if h.threshold > 1 {
        Err(EntityError::ThresholdNotReached)
    } else if h.entities.len() > 1 {
        Err(EntityError::SignatureWrongEntity)
    } else if h.entities.len() == 1 && h.entities[0] is Verifier {
        match valid {
            Ok(()) => Ok(()),
            Err(e) => Err(EntityError::SignatureError(e)),
        }
    } else {
        Err(EntityError::SignatureWrongEntity)
    }
}

/// `id` is the identifier of one of the members.
pub open spec fn has_member(ms: Seq<EntityVerifierV1>, id: EntityID) -> bool {
    exists|i: int| 0 <= i < ms.len() && member_id(#[trigger] ms[i]) == id
}

/// The identifiers that the signatures are by.
pub open spec fn sig_ids(v: Seq<(EntityID, EntitySignature)>) -> Seq<EntityID> {
    v.map_values(|p: (EntityID, EntitySignature)| p.0)
}

/// Checks the signatures of members, `verdicts[i]` being what checking the
/// signature `v[i]` against its member gave: each must be by a member and check,
/// and the result is the number of distinct members that signed.
pub open spec fn members_check(
    ms: Seq<EntityVerifierV1>,
    v: Seq<(EntityID, EntitySignature)>,
    verdicts: Seq<Result<(), SignerError>>,
) -> Result<nat, EntityError>
    decreases v.len(),
{
    if v.len() == 0 {
        Ok(0)
    } else {
        match members_check(ms, v.drop_last(), verdicts) {
            Err(e) => Err(e),
            Ok(n) => if !has_member(ms, v.last().0) {
                Err(EntityError::SignatureWrongIdentity)
            } else if verdicts[v.len() - 1] is Err {
                Err(EntityError::VerificationWrongSignatures)
            } else if sig_ids(v.drop_last()).contains(v.last().0) {
                Ok(n)
            } else {
                Ok(n + 1)
            },
        }
    }
}

proof fn lemma_members_err(
    ms: Seq<EntityVerifierV1>,
    v: Seq<(EntityID, EntitySignature)>,
    verdicts: Seq<Result<(), SignerError>>,
    k: int,
)
    requires
        0 <= k <= v.len(),
        members_check(ms, v.take(k), verdicts) is Err,
    ensures
        members_check(ms, v, verdicts) == members_check(ms, v.take(k), verdicts),
    decreases v.len() - k,
{
    if k == v.len() {
        assert(v.take(k) =~= v);
    } else {
        assert(v.take(k + 1).drop_last() =~= v.take(k));
        lemma_members_err(ms, v, verdicts, k + 1);
    }
}

/// The verdicts fit the signature: one for a single signature, one per member
/// signature otherwise.
pub open spec fn verdicts_fit(sig: EntitySignature, verdicts: Seq<Result<(), SignerError>>) -> bool {
    match sig {
        EntitySignature::Single(_) => verdicts.len() == 1,
        EntitySignature::Entity(v) => verdicts.len() == v@.len(),
    }
}

/// Checks a signature against a state: a single one as `verify_single` does; the
/// signatures of members must all check and come from at least `threshold`
/// distinct members.
pub open spec fn check_sig_state(
    h: HistoryView,
    sig: EntitySignature,
    verdicts: Seq<Result<(), SignerError>>,
) -> Result<(), EntityError> {
    match sig {
        EntitySignature::Single(_) => verify_single(h, verdicts[0]),
        EntitySignature::Entity(v) => match members_check(h.entities, v@, verdicts) {
            Err(e) => Err(e),
            Ok(n) => if n < h.threshold {
                Err(EntityError::VerificationSignatureMissing)
            } else {
                Ok(())
            },
        },
    }
}

fn push_member_bytes(data: &mut Vec<u8>, ms: &Vec<EntityVerifierV1>)
    ensures
        final(data)@ == old(data)@ + member_bytes(ms@),
{
    let ghost start = data@;
    let mut i: usize = 0;
    while i < ms.len()
        invariant
            0 <= i <= ms.len(),
            data@ == start + member_bytes(ms@.take(i as int)),
        decreases ms.len() - i,
    {
        proof {
            assert(ms@.take(i + 1).drop_last() =~= ms@.take(i as int));
        }
        let id = ms[i].get_id();
        push_bytes(data, id.bytes.as_slice());
        proof {
            assert(data@ =~= start + member_bytes(ms@.take(i + 1)));
        }
        i = i + 1;
    }
    proof {
        assert(ms@.take(ms.len() as int) =~= ms@);
    }
}

fn copy_members(ms: &[EntityVerifierV1]) -> (r: Vec<EntityVerifierV1>)
    ensures
        r@ == ms@,
{
    let mut r: Vec<EntityVerifierV1> = Vec::new();
    let mut i: usize = 0;
    while i < ms.len()
        invariant
            0 <= i <= ms@.len(),
            r@ == ms@.take(i as int),
        decreases ms.len() - i,
    {
        proof {
            assert(ms@.take(i + 1) =~= ms@.take(i as int).push(ms@[i as int]));
        }
        r.push(ms[i]);
        i = i + 1;
    }
    proof {
        assert(ms@.take(ms@.len() as int) =~= ms@);
    }
    r
}

impl EntityHistoryV1 {
    /// The identifiers of the members.
    fn member_ids(&self) -> (r: Vec<EntityID>)
        ensures
            r@ == self.entities@.map_values(|m: EntityVerifierV1| member_id(m)),
    {
        let mut r: Vec<EntityID> = Vec::new();
        let mut i: usize = 0;
        while i < self.entities.len()
            invariant
                0 <= i <= self.entities@.len(),
                r@ == self.entities@.take(i as int).map_values(|m: EntityVerifierV1| member_id(m)),
            decreases self.entities.len() - i,
        {
            proof {
                assert(self.entities@.take(i + 1).map_values(|m: EntityVerifierV1| member_id(m))
                    =~= self.entities@.take(i as int).map_values(|m: EntityVerifierV1| member_id(m)).push(
                    member_id(self.entities@[i as int]),
                ));
            }
            r.push(self.entities[i].get_id());
            i = i + 1;
        }
        proof {
            assert(self.entities@.take(self.entities@.len() as int) =~= self.entities@);
        }
        r
    }

    /// The members of this state.
    pub fn get_entities(&self) -> (r: Vec<EntityVerifierV1>)
        ensures
            r@ == self.entities@,
    {
        copy_members(self.entities.as_slice())
    }

    /// Checks a single signature against this state, with `valid` what the only
    /// member's verifier said of it.
    fn verify_one(&self, valid: Result<(), SignerError>) -> (r: Result<(), EntityError>)
        ensures
            r == verify_single(self@, valid),
    {
        if self.threshold > 1 {
            return Err(EntityError::ThresholdNotReached);
        }
        if self.entities.len() > 1 {
            return Err(EntityError::SignatureWrongEntity);
        }
        if self.entities.len() == 1 {
            if let EntityVerifierV1::Verifier(_) = self.entities[0] {
                return match valid {
                    Ok(()) => Ok(()),
                    Err(e) => Err(EntityError::SignatureError(e)),
                };
            }
        }
        Err(EntityError::SignatureWrongEntity)
    }

    /// Whether `id` is one of the members.
    fn is_member(&self, id: &EntityID) -> (r: bool)
        ensures
            r == has_member(self.entities@, *id),
    {
        let mut i: usize = 0;
        while i < self.entities.len()
            invariant
                0 <= i <= self.entities@.len(),
                forall|j: int| 0 <= j < i ==> member_id(#[trigger] self.entities@[j]) != *id,
            decreases self.entities.len() - i,
        {
            if self.entities[i].get_id().same(id) {
                return true;
            }
            i = i + 1;
        }
        false
    }

    /// Checks a signature against this state; `verdicts` are what checking the
    /// signature, or each member's signature in turn, gave.
    fn verify(&self, sigs: &EntitySignature, verdicts: &Vec<Result<(), SignerError>>) -> (r: Result<(), EntityError>)
        requires
            verdicts_fit(*sigs, verdicts@),
        ensures
            r == check_sig_state(self@, *sigs, verdicts@),
    {
        match sigs {
            EntitySignature::Single(_) => self.verify_one(verdicts[0]),
            EntitySignature::Entity(v) => {
                let mut n: usize = 0;
                let mut i: usize = 0;
                while i < v.len()
                    invariant
                        0 <= i <= v@.len(),
                        *sigs is Entity,
                        (*sigs)->Entity_0 == *v,
                        verdicts@.len() == v@.len(),
                        n <= i,
                        members_check(self.entities@, v@.take(i as int), verdicts@) == Ok::<nat, EntityError>(n as nat),
                    decreases v.len() - i,
                {
                    proof {
                        assert(v@.take(i + 1).drop_last() =~= v@.take(i as int));
                    }
                    let id = v[i].0;
                    if !self.is_member(&id) {
                        proof {
                            assert(v@.take(i + 1).last() == v@[i as int]);
                            assert(members_check(self.entities@, v@.take(i + 1), verdicts@) == Err::<nat, EntityError>(
                                EntityError::SignatureWrongIdentity,
                            ));
                            lemma_members_err(self.entities@, v@, verdicts@, i + 1);
                        }
                        return Err(EntityError::SignatureWrongIdentity);
                    }
                    if verdicts[i].is_err() {
                        proof {
                            assert(v@.take(i + 1).last() == v@[i as int]);
                            assert(members_check(self.entities@, v@.take(i + 1), verdicts@) == Err::<nat, EntityError>(
                                EntityError::VerificationWrongSignatures,
                            ));
                            lemma_members_err(self.entities@, v@, verdicts@, i + 1);
                        }
                        return Err(EntityError::VerificationWrongSignatures);
                    }
                    let mut seen = false;
                    let mut j: usize = 0;
                    while j < i
                        invariant
                            0 <= j <= i,
                            i < v@.len(),
                            id == v@[i as int].0,
                            seen == sig_ids(v@.take(i as int)).take(j as int).contains(id),
                        decreases i - j,
                    {
                        proof {
                            assert(sig_ids(v@.take(i as int)).take(j + 1) =~= sig_ids(v@.take(i as int)).take(
                                j as int,
                            ).push(v@[j as int].0));
                        }
                        let ghost pre = sig_ids(v@.take(i as int)).take(j as int);
                        let same = v[j].0.same(&id);
                        if same {
                            seen = true;
                        }
                        proof {
                            let nxt = pre.push(v@[j as int].0);
                            if same {
                                assert(nxt[j as int] == id);
                            } else {
                                if nxt.contains(id) {
                                    let w = choose|w: int| 0 <= w < nxt.len() && nxt[w] == id;
                                    if w < j {
                                        assert(pre[w] == id);
                                    }
                                }
                            }
                        }
                        j = j + 1;
                    }
                    proof {
                        assert(sig_ids(v@.take(i as int)).take(i as int) =~= sig_ids(v@.take(i as int)));
                        assert(v@.take(i + 1).last() == v@[i as int]);
                    }
                    if !seen {
                        n = n + 1;
                    }
                    i = i + 1;
                }
                proof {
                    assert(v@.take(v@.len() as int) =~= v@);
                }
                if n < self.threshold {
                    Err(EntityError::VerificationSignatureMissing)
                } else {
                    Ok(())
                }
            },
        }
    }

    /// The message proposing to evolve to `entities_new` with `threshold`.
    fn propose_msg(&self, entities_new: &[EntityVerifierV1], threshold: usize) -> (r: Vec<u8>)
        ensures
            r@ == propose_msg_spec(entities_new@, threshold),
    {
        let mut data: Vec<u8> = Vec::new();
        push_le_bytes_usize(&mut data, threshold);
        let ms = copy_members(entities_new);
        push_member_bytes(&mut data, &ms);
        let h = sha256(data.as_slice());
        let mut r: Vec<u8> = Vec::new();
        push_bytes(&mut r, h.as_slice());
        proof {
            assert(r@ =~= h@);
        }
        r
    }
}

/// The signatures collected for a message, by member, and how many are needed.
#[derive(Debug)]
pub struct EntitySigCollect {
    msg: Vec<u8>,
    signed: Vec<(EntityID, Option<EntitySignature>)>,
    threshold: usize,
}

/// The view of a collection: message, signatures by member, threshold.
pub struct SigCollectView {
    pub msg: Seq<u8>,
    pub signed: Seq<(EntityID, Option<EntitySignature>)>,
    pub threshold: usize,
}

/// The position of member `id` among the signers.
pub open spec fn signer_pos(s: Seq<(EntityID, Option<EntitySignature>)>, id: EntityID) -> Option<int>
    decreases s.len(),
{
    if s.len() == 0 {
        None
    } else if s[0].0 == id {
        Some(0)
    } else {
        match signer_pos(s.drop_first(), id) {
            Some(i) => Some(i + 1),
            None => None,
        }
    }
}

/// The number of members that signed.
pub open spec fn signed_count(s: Seq<(EntityID, Option<EntitySignature>)>) -> nat
    decreases s.len(),
{
    if s.len() == 0 {
        0
    } else {
        signed_count(s.drop_last()) + if s.last().1 is Some {
            1nat
        } else {
            0nat
        }
    }
}

/// The contents of the signatures, by member.
pub open spec fn sigs_views(s: Seq<(EntityID, EntitySignature)>) -> Seq<(EntityID, SigView)> {
    s.map_values(|p: (EntityID, EntitySignature)| (p.0, sig_view(p.1)))
}

/// The signatures that are there, by member, in order.
pub open spec fn present_sigs(s: Seq<(EntityID, Option<EntitySignature>)>) -> Seq<(EntityID, EntitySignature)>
    decreases s.len(),
{
    if s.len() == 0 {
        Seq::empty()
    } else {
        let p = present_sigs(s.drop_last());
        match s.last().1 {
            Some(sig) => p.push((s.last().0, sig)),
            None => p,
        }
    }
}

impl EntitySigCollect {
    pub closed spec fn view(&self) -> SigCollectView {
        SigCollectView { msg: self.msg@, signed: self.signed@, threshold: self.threshold }
    }

    /// A collection for `msg`, with no signature yet from the members `ids`.
    pub fn new(msg: Vec<u8>, ids: Vec<EntityID>, threshold: usize) -> (r: Self)
        ensures
            r.view().msg == msg@,
            r.view().threshold == threshold,
            r.view().signed == ids@.map_values(|id: EntityID| (id, None::<EntitySignature>)),
    {
        let mut signed: Vec<(EntityID, Option<EntitySignature>)> = Vec::new();
        let mut i: usize = 0;
        while i < ids.len()
            invariant
                0 <= i <= ids@.len(),
                signed@ == ids@.take(i as int).map_values(|id: EntityID| (id, None::<EntitySignature>)),
            decreases ids.len() - i,
        {
            proof {
                assert(ids@.take(i + 1).map_values(|id: EntityID| (id, None::<EntitySignature>))
                    =~= ids@.take(i as int).map_values(|id: EntityID| (id, None::<EntitySignature>)).push(
                    (ids@[i as int], None::<EntitySignature>),
                ));
            }
            signed.push((ids[i], None));
            i = i + 1;
        }
        proof {
            assert(ids@.take(ids@.len() as int) =~= ids@);
        }
        EntitySigCollect { msg, signed, threshold }
    }

    fn find(&self, id: &EntityID) -> (r: Option<usize>)
        ensures
            r matches Some(i) ==> i < self.signed@.len() && signer_pos(self.signed@, *id) == Some(i as int),
            r is None ==> signer_pos(self.signed@, *id) is None,
    {
        let mut i: usize = 0;
        proof {
            assert(self.signed@.skip(0) =~= self.signed@);
        }
        while i < self.signed.len()
            invariant
                0 <= i <= self.signed@.len(),
                signer_pos(self.signed@, *id) == (match signer_pos(self.signed@.skip(i as int), *id) {
                    Some(k) => Some(k + i),
                    None => None,
                }),
            decreases self.signed.len() - i,
        {
            let ghost rest = self.signed@.skip(i as int);
            proof {
                assert(rest[0] == self.signed@[i as int]);
                assert(rest.drop_first() =~= self.signed@.skip(i + 1));
            }
            if self.signed[i].0.same(id) {
                return Some(i);
            }
            i = i + 1;
        }
        proof {
            assert(self.signed@.skip(i as int) =~= Seq::<(EntityID, Option<EntitySignature>)>::empty());
        }
        None
    }

    /// Records the signature `esig` of member `id`; an error if `id` is not a member.
    pub fn add_sig(&mut self, id: EntityID, esig: EntitySignature) -> (r: Result<(), EntityError>)
        ensures
            signer_pos(old(self).view().signed, id) is None ==> r == Err::<(), EntityError>(EntityError::WrongEntityID)
                && final(self).view() == old(self).view(),
            signer_pos(old(self).view().signed, id) matches Some(i) ==> r is Ok && final(self).view() == (SigCollectView {
                signed: old(self).view().signed.update(i, (id, Some(esig))),
                ..old(self).view()
            }),
    {
        match self.find(&id) {
            Some(i) => {
                self.signed.set(i, (id, Some(esig)));
                Ok(())
            },
            None => Err(EntityError::WrongEntityID),
        }
    }

    /// Records the signature that the signer `signer_id` made of the message, given as
    /// `signature`; an error if `signer_id` is not a member, or if signing failed.
    pub fn sign(&mut self, signer_id: EntityID, signature: Result<Vec<u8>, SignerError>) -> (r: Result<(), EntityError>)
        ensures
            signer_pos(old(self).view().signed, signer_id) is None ==> r == Err::<(), EntityError>(
                EntityError::WrongEntityID,
            ) && final(self).view() == old(self).view(),
            signer_pos(old(self).view().signed, signer_id) is Some && signature is Err ==> r == Err::<(), EntityError>(
                EntityError::SignatureError(signature->Err_0),
            ) && final(self).view() == old(self).view(),
            signer_pos(old(self).view().signed, signer_id) matches Some(i) ==> (signature matches Ok(s) ==> r is Ok
                && final(self).view() == (SigCollectView {
                signed: old(self).view().signed.update(i, (signer_id, Some(EntitySignature::Single(s)))),
                ..old(self).view()
            })),
    {
        match self.find(&signer_id) {
            Some(i) => match signature {
                Ok(s) => {
                    self.signed.set(i, (signer_id, Some(EntitySignature::Single(s))));
                    Ok(())
                },
                Err(e) => Err(EntityError::SignatureError(e)),
            },
            None => Err(EntityError::WrongEntityID),
        }
    }

    /// The signature of the collection: an error with fewer signatures than the
    /// threshold; a single member's single signature as it is; else the signatures
    /// there, by member, in order.
    pub fn finalize(&self) -> (r: Result<EntitySignature, EntityError>)
        ensures
            signed_count(self.view().signed) < self.view().threshold ==> r == Err::<EntitySignature, EntityError>(
                EntityError::ThresholdNotReached,
            ),
            signed_count(self.view().signed) >= self.view().threshold && self.view().signed.len() == 1
                && (self.view().signed[0].1 matches Some(EntitySignature::Single(_))) ==> (r matches Ok(sig)
                && sig_view(sig) == sig_view(self.view().signed[0].1->Some_0)),
            signed_count(self.view().signed) >= self.view().threshold && !(self.view().signed.len() == 1
                && (self.view().signed[0].1 matches Some(EntitySignature::Single(_)))) ==> (r matches Ok(
                EntitySignature::Entity(v),
            ) && sigs_views(v@) == sigs_views(present_sigs(self.view().signed))),
    {
        let mut count: usize = 0;
        let mut sigs: Vec<(EntityID, EntitySignature)> = Vec::new();
        let mut i: usize = 0;
        while i < self.signed.len()
            invariant
                0 <= i <= self.signed@.len(),
                count == signed_count(self.signed@.take(i as int)),
                count <= i,
                sigs_views(sigs@) == sigs_views(present_sigs(self.signed@.take(i as int))),
            decreases self.signed.len() - i,
        {
            proof {
                assert(self.signed@.take(i + 1).drop_last() =~= self.signed@.take(i as int));
            }
            match &self.signed[i].1 {
                Some(s) => {
                    count = count + 1;
                    let c = s.copy();
                    let ghost before = sigs@;
                    sigs.push((self.signed[i].0, c));
                    proof {
                        assert(sigs_views(sigs@) =~= sigs_views(before).push((self.signed@[i as int].0, sig_view(c))));
                        assert(sigs_views(present_sigs(self.signed@.take(i + 1))) =~= sigs_views(
                            present_sigs(self.signed@.take(i as int)),
                        ).push((self.signed@[i as int].0, sig_view(*s))));
                    }
                },
                None => {},
            }
            i = i + 1;
        }
        proof {
            assert(self.signed@.take(self.signed@.len() as int) =~= self.signed@);
        }
        if count < self.threshold {
            return Err(EntityError::ThresholdNotReached);
        }
        if self.signed.len() == 1 {
            if let Some(EntitySignature::Single(sig)) = &self.signed[0].1 {
                let c = sig.clone();
                proof {
                    assert(c@ =~= sig@);
                }
                return Ok(EntitySignature::Single(c));
            }
        }
        Ok(EntitySignature::Entity(sigs))
    }

    /// The message to sign.
    pub fn get_msg(&self) -> (r: Vec<u8>)
        ensures
            r@ == self.view().msg,
    {
        let r = self.msg.clone();
        proof {
            assert(r@ =~= self.msg@);
        }
        r
    }
}

/// The verdicts, list by list.
pub open spec fn valids_views(v: Seq<Vec<Result<(), SignerError>>>) -> Seq<Seq<Result<(), SignerError>>> {
    v.map_values(|x: Vec<Result<(), SignerError>>| x@)
}

/// Checks the evolutions of an entity from state `k` on: each state but the last
/// must carry the signature that evolved it, and that signature must check
/// against it; `valids[k]` are what checking the signature of state `k` gave.
pub open spec fn verify_states(states: Seq<HistoryView>, valids: Seq<Seq<Result<(), SignerError>>>, k: int) -> Result<(), EntityError>
    decreases states.len() - k,
{
    if k < 0 || k + 1 >= states.len() {
        Ok(())
    } else {
        match states[k].sigs {
            None => Err(EntityError::EvolveWrongSignature),
            Some(sig) => match check_sig_state(states[k], sig, valids[k]) {
                Err(e) => Err(e),
                Ok(()) => verify_states(states, valids, k + 1),
            },
        }
    }
}

impl Entity {
    /// The first state and the later ones.
    fn parts(&self) -> (r: (&EntityHistoryV1, &Vec<EntityHistoryV1>))
        ensures
            seq![r.0@] + r.1@.map_values(|h: EntityHistoryV1| h@) == entity_states(*self),
    {
        match self {
            Entity::V1(v) => (&v.initial, &v.updates),
        }
    }

    /// A new entity of `entities`, `threshold` of which must sign.
    pub fn new(entities: &[EntityVerifierV1], threshold: usize) -> (r: Result<Self, EntityError>)
        ensures
            spec_check_threshold(entities@.len() as usize, threshold) matches Err(e) ==> r == Err::<Entity, EntityError>(e),
            spec_check_threshold(entities@.len() as usize, threshold) is Ok ==> (r matches Ok(e) && entity_states(e)
                == seq![HistoryView { entities: entities@, threshold, sigs: None }]),
    {
        match check_threshold(entities.len(), threshold) {
            Err(e) => Err(e),
            Ok(()) => {
                let ms = copy_members(entities);
                let e = Entity::V1(EntityV1 {
                    initial: EntityHistoryV1 { entities: ms, threshold, sigs: None },
                    updates: Vec::new(),
                });
                proof {
                    assert(entity_states(e) =~= seq![HistoryView { entities: entities@, threshold, sigs: None }]);
                }
                Ok(e)
            },
        }
    }

    /// The identifier of the entity: the digest of the identifiers of its first
    /// members. It stays the same over all evolutions.
    pub fn get_id(&self) -> (r: EntityID)
        ensures
            r.bytes@ == entity_id_spec(*self),
    {
        let (initial, _) = self.parts();
        let mut data: Vec<u8> = Vec::new();
        push_member_bytes(&mut data, &initial.entities);
        proof {
            assert(entity_states(*self)[0] == initial@);
            assert(data@ =~= member_bytes(entity_states(*self)[0].entities));
        }
        let bytes = sha256(data.as_slice());
        U256 { bytes }
    }

    /// The number of evolutions.
    pub fn version(&self) -> (r: usize)
        ensures
            r == entity_states(*self).len() - 1,
    {
        let (_, updates) = self.parts();
        updates.len()
    }

    /// The latest state.
    fn latest(&self) -> (r: &EntityHistoryV1)
        ensures
            r@ == entity_states(*self).last(),
    {
        let (initial, updates) = self.parts();
        if updates.len() > 0 {
            &updates[updates.len() - 1]
        } else {
            initial
        }
    }

    /// The members of the latest state.
    pub fn get_entities(&self) -> (r: Vec<EntityVerifierV1>)
        ensures
            r@ == entity_states(*self).last().entities,
    {
        self.latest().get_entities()
    }

    /// The message that the members sign for `msg` at `version`.
    fn entity_msg(&self, version: usize, msg: &Vec<u8>) -> (r: Vec<u8>)
        ensures
            r@ == entity_msg_spec(entity_id_spec(*self), version, msg@),
    {
        let mut data: Vec<u8> = Vec::new();
        push_le_bytes_usize(&mut data, version);
        let id = self.get_id();
        push_bytes(&mut data, id.bytes.as_slice());
        push_bytes(&mut data, msg.as_slice());
        let h = sha256(data.as_slice());
        let mut r: Vec<u8> = Vec::new();
        push_bytes(&mut r, h.as_slice());
        proof {
            assert(data@ =~= le_bytes_usize(version) + id.bytes@ + msg@);
            assert(r@ =~= h@);
        }
        r
    }

    /// A collection of the signatures of the latest members for `msg`.
    pub fn propose_signature(&self, msg: &Vec<u8>) -> (r: EntitySigCollect)
        ensures
            r.view().msg == entity_msg_spec(entity_id_spec(*self), (entity_states(*self).len() - 1) as usize, msg@),
            r.view().threshold == entity_states(*self).last().threshold,
            r.view().signed == entity_states(*self).last().entities.map_values(
                |m: EntityVerifierV1| (member_id(m), None::<EntitySignature>),
            ),
    {
        let latest = self.latest();
        let m = self.entity_msg(self.version(), msg);
        let ids = latest.member_ids();
        let r = EntitySigCollect::new(m, ids, latest.threshold);
        proof {
            assert(r.view().signed =~= entity_states(*self).last().entities.map_values(
                |m: EntityVerifierV1| (member_id(m), None::<EntitySignature>),
            ));
        }
        r
    }

    /// Checks a signature of `msg` against the latest state: a single signature by
    /// the only member, or the signatures of at least `threshold` distinct members.
    /// `verdicts` are what checking the signature, or each member's signature in
    /// turn, of the entity's message for `msg` gave.
    pub fn verify(&self, sig: &EntitySignature, msg: &Vec<u8>, verdicts: &Vec<Result<(), SignerError>>) -> (r: Result<(), EntityError>)
        requires
            verdicts_fit(*sig, verdicts@),
        ensures
            r == check_sig_state(entity_states(*self).last(), *sig, verdicts@),
    {
        self.latest().verify(sig, verdicts)
    }

    /// A collection of the signatures of the latest members for evolving to
    /// `entities_new` with `threshold`; the threshold is checked first.
    pub fn propose_evolve(&self, entities_new: &[EntityVerifierV1], threshold: usize) -> (r: Result<EntitySigCollect, EntityError>)
        ensures
            spec_check_threshold(entities_new@.len() as usize, threshold) matches Err(e) ==> r
                == Err::<EntitySigCollect, EntityError>(e),
            spec_check_threshold(entities_new@.len() as usize, threshold) is Ok ==> (r matches Ok(c) && c.view().msg
                == entity_msg_spec(
                entity_id_spec(*self),
                (entity_states(*self).len() - 1) as usize,
                propose_msg_spec(entities_new@, threshold),
            ) && c.view().threshold == entity_states(*self).last().threshold),
    {
        match check_threshold(entities_new.len(), threshold) {
            Err(e) => Err(e),
            Ok(()) => {
                let pm = self.latest().propose_msg(entities_new, threshold);
                Ok(self.propose_signature(&pm))
            },
        }
    }

    /// State `k`, the first one being 0.
    fn state(&self, k: usize) -> (r: &EntityHistoryV1)
        requires
            k < entity_states(*self).len(),
        ensures
            r@ == entity_states(*self)[k as int],
    {
        let (initial, updates) = self.parts();
        if k == 0 {
            initial
        } else {
            &updates[k - 1]
        }
    }

    /// Checks that `id` is the identifier of the entity and that each evolution
    /// was signed by the state before it; `valids[k]` are what checking the
    /// signature that state `k` carries gave.
    pub fn verify_entity(&self, id: EntityID, valids: &Vec<Vec<Result<(), SignerError>>>) -> (r: Result<(), EntityError>)
        requires
            valids@.len() + 1 == entity_states(*self).len(),
            forall|i: int|
                0 <= i < valids@.len() ==> ((#[trigger] entity_states(*self)[i]).sigs is Some
                    ==> verdicts_fit(entity_states(*self)[i].sigs->Some_0, valids@[i]@)),
        ensures
            id.bytes@ != entity_id_spec(*self) ==> r == Err::<(), EntityError>(EntityError::WrongEntityID),
            id.bytes@ == entity_id_spec(*self) ==> r == verify_states(entity_states(*self), valids_views(valids@), 0),
    {
        let own = self.get_id();
        if !id.same(&own) {
            proof {
                broadcast use vstd::array::group_array_axioms;

                if id.bytes@ == own.bytes@ {
                    assert(id.bytes =~= own.bytes);
                }
            }
            return Err(EntityError::WrongEntityID);
        }
        let n = self.version();
        let mut k: usize = 0;
        while k < n
            invariant
                0 <= k <= n,
                n + 1 == entity_states(*self).len(),
                valids@.len() == n,
                id.bytes@ == entity_id_spec(*self),
                forall|i: int|
                    0 <= i < valids@.len() ==> ((#[trigger] entity_states(*self)[i]).sigs is Some
                        ==> verdicts_fit(entity_states(*self)[i].sigs->Some_0, valids@[i]@)),
                verify_states(entity_states(*self), valids_views(valids@), 0) == verify_states(
                    entity_states(*self),
                    valids_views(valids@),
                    k as int,
                ),
            decreases n - k,
        {
            let h = self.state(k);
            match &h.sigs {
                None => return Err(EntityError::EvolveWrongSignature),
                Some(sigs) => {
                    proof {
                        assert(entity_states(*self)[k as int].sigs == h.sigs);
                    }
                    match h.verify(sigs, &valids[k]) {
                        Err(e) => return Err(e),
                        Ok(()) => {},
                    }
                },
            }
            k = k + 1;
        }
        Ok(())
    }

    /// Evolves the entity to `entities_new`, with the signature `sig` of the
    /// proposal; `verdicts` are what checking that signature, or each member's
    /// signature in turn, gave. The signature is kept with the latest state, and the
    /// new state has the new members and threshold. The identifier does not change.
    pub fn evolve(
        &mut self,
        sig: EntitySignature,
        entities_new: &[EntityVerifierV1],
        threshold: usize,
        verdicts: &Vec<Result<(), SignerError>>,
    ) -> (r: Result<(), EntityError>)
        requires
            verdicts_fit(sig, verdicts@),
        ensures
            entity_id_spec(*final(self)) == entity_id_spec(*old(self)),
            spec_check_threshold(entities_new@.len() as usize, threshold) matches Err(e) ==> r == Err::<(), EntityError>(e)
                && *final(self) == *old(self),
            spec_check_threshold(entities_new@.len() as usize, threshold) is Ok && check_sig_state(
                entity_states(*old(self)).last(),
                sig,
                verdicts@,
            ) is Err ==> r == Err::<(), EntityError>(
                check_sig_state(entity_states(*old(self)).last(), sig, verdicts@)->Err_0,
            ) && *final(self) == *old(self),
            spec_check_threshold(entities_new@.len() as usize, threshold) is Ok && check_sig_state(
                entity_states(*old(self)).last(),
                sig,
                verdicts@,
            ) is Ok ==> r is Ok && entity_states(*final(self)) == entity_states(*old(self)).update(
                entity_states(*old(self)).len() - 1,
                HistoryView { sigs: Some(sig), ..entity_states(*old(self)).last() },
            ).push(HistoryView { entities: entities_new@, threshold, sigs: None }),
    {
        match self.propose_evolve(entities_new, threshold) {
            Err(e) => return Err(e),
            Ok(_) => {},
        }
        match self.latest().verify(&sig, verdicts) {
            Err(e) => return Err(e),
            Ok(()) => {},
        }
        let ghost old_states = entity_states(*self);
        let ms = copy_members(entities_new);
        match self {
            Entity::V1(v) => {
                let ghost n = v.updates@.len();
                if v.updates.len() > 0 {
                    let last = v.updates.len() - 1;
                    let mut h = v.updates.remove(last);
                    h.sigs = Some(sig);
                    v.updates.push(h);
                } else {
                    v.initial.sigs = Some(sig);
                }
                v.updates.push(EntityHistoryV1 { entities: ms, threshold, sigs: None });
            },
        }
        proof {
            assert(entity_states(*self) =~= old_states.update(
                old_states.len() - 1,
                HistoryView { sigs: Some(sig), ..old_states.last() },
            ).push(HistoryView { entities: entities_new@, threshold, sigs: None }));
            assert(entity_states(*self)[0].entities == old_states[0].entities);
        }
        Ok(())
    }
}

/// Every state but the last carries its signature, and that signature checks
/// against it with the verdicts `valids[k]`.
pub open spec fn well_signed(states: Seq<HistoryView>, valids: Seq<Seq<Result<(), SignerError>>>) -> bool {
    &&& valids.len() + 1 == states.len()
    &&& forall|k: int|
        0 <= k < valids.len() ==> (#[trigger] states[k]).sigs is Some && check_sig_state(
            states[k],
            states[k].sigs->Some_0,
            valids[k],
        ) is Ok
}

/// The evolutions of a well-signed entity verify.
pub proof fn lemma_well_signed_verifies(states: Seq<HistoryView>, valids: Seq<Seq<Result<(), SignerError>>>, k: int)
    requires
        well_signed(states, valids),
        0 <= k,
    ensures
        verify_states(states, valids, k) is Ok,
    decreases states.len() - k,
{
    if k + 1 < states.len() {
        lemma_well_signed_verifies(states, valids, k + 1);
    }
}

/// A new entity is well signed, and an evolution that succeeded keeps it so, with
/// the verdicts on its signature added: after any number of evolutions, the
/// entity verifies under the identifier it started with.
pub proof fn lemma_evolve_well_signed(
    before: Seq<HistoryView>,
    valids: Seq<Seq<Result<(), SignerError>>>,
    sig: EntitySignature,
    verdicts: Seq<Result<(), SignerError>>,
    entities_new: Seq<EntityVerifierV1>,
    threshold: usize,
)
    requires
        well_signed(before, valids),
        check_sig_state(before.last(), sig, verdicts) is Ok,
    ensures
        well_signed(
            before.update(before.len() - 1, HistoryView { sigs: Some(sig), ..before.last() }).push(
                HistoryView { entities: entities_new, threshold, sigs: None },
            ),
            valids.push(verdicts),
        ),
        well_signed(seq![HistoryView { entities: entities_new, threshold, sigs: None }], Seq::empty()),
{
    let after = before.update(before.len() - 1, HistoryView { sigs: Some(sig), ..before.last() }).push(
        HistoryView { entities: entities_new, threshold, sigs: None },
    );
    let vs = valids.push(verdicts);
    assert forall|k: int| 0 <= k < vs.len() implies (#[trigger] after[k]).sigs is Some && check_sig_state(
        after[k],
        after[k].sigs->Some_0,
        vs[k],
    ) is Ok by {
        if k < valids.len() {
            assert(after[k] == before[k]);
            assert(vs[k] == valids[k]);
        } else {
            assert(vs[k] == verdicts);
        }
    }
}

} // verus!
