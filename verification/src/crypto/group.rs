use vstd::prelude::*;

use super::entity::{entity_id_spec, Entity};
use crate::hash::{sha256, sha256_spec};
use crate::nodeid::{push_bytes, U256};

verus! {

/// Errors when verifying or evolving a group.
#[derive(Debug, Clone, Copy)]
pub enum GroupError {
    VerificationSignatureMissing,
    VerificationWrongSignatures,
    EvolveWrongSignature,
    WrongGroupID,
    SignatureWrongIdentity,
}

/// The text of a group error.
pub open spec fn group_error_text(e: GroupError) -> Seq<char> {
    match e {
        GroupError::VerificationSignatureMissing => "Verification error: not enough signatures"@,
        GroupError::VerificationWrongSignatures => "Verification error: wrong signatures present"@,
        GroupError::EvolveWrongSignature => "Cannot evolve with this signature"@,
        GroupError::WrongGroupID => "The GroupID doesn't match this group"@,
        GroupError::SignatureWrongIdentity => "Signature error: identity not in Collection"@,
    }
}

impl GroupError {
    /// The message describing the error.
    pub fn message(&self) -> (r: &'static str)
        ensures
            r@ == group_error_text(*self),
    {
        match self {
            GroupError::VerificationSignatureMissing => "Verification error: not enough signatures",
            GroupError::VerificationWrongSignatures => "Verification error: wrong signatures present",
            GroupError::EvolveWrongSignature => "Cannot evolve with this signature",
            GroupError::WrongGroupID => "The GroupID doesn't match this group",
            GroupError::SignatureWrongIdentity => "Signature error: identity not in Collection",
        }
    }
}

pub type GroupID = U256;

/// One state of a group: its entities, how many must sign, and the signature that
/// evolved it, once there is one.
pub struct GroupHistory {
    pub entities: Vec<Entity>,
    pub threshold: usize,
    pub sigs: Option<Vec<u8>>,
}

/// A group of entities and the states it evolved to.
pub struct GroupVerifier {
    initial: GroupHistory,
    updates: Vec<GroupHistory>,
}

/// The identifiers of entities, one after the other.
pub open spec fn entity_ids_bytes(es: Seq<Entity>) -> Seq<u8>
    decreases es.len(),
{
    if es.len() == 0 {
        Seq::empty()
    } else {
        entity_ids_bytes(es.drop_last()) + entity_id_spec(es.last())
    }
}

impl GroupVerifier {
    /// The entities of the first state.
    pub closed spec fn first_entities(&self) -> Seq<Entity> {
        self.initial.entities@
    }

    pub closed spec fn first_threshold(&self) -> usize {
        self.initial.threshold
    }

    /// The number of evolutions.
    pub closed spec fn evolutions(&self) -> nat {
        self.updates@.len()
    }

    /// A group of `entities`, `threshold` of which must sign.
    pub fn new(entities: Vec<Entity>, threshold: usize) -> (r: Self)
        ensures
            r.first_entities() == entities@,
            r.first_threshold() == threshold,
            r.evolutions() == 0,
            r.wf(),
    {
        GroupVerifier {
            initial: GroupHistory { entities, threshold, sigs: None },
            updates: Vec::new(),
        }
    }

    /// The identifier of the group: the digest of the identifiers of its first
    /// entities.
    pub fn get_id(&self) -> (r: GroupID)
        ensures
            r.bytes@ == sha256_spec(entity_ids_bytes(self.first_entities())),
    {
        let mut data: Vec<u8> = Vec::new();
        let mut i: usize = 0;
        while i < self.initial.entities.len()
            invariant
                0 <= i <= self.initial.entities@.len(),
                data@ == entity_ids_bytes(self.initial.entities@.take(i as int)),
            decreases self.initial.entities.len() - i,
        {
            proof {
                assert(self.initial.entities@.take(i + 1).drop_last() =~= self.initial.entities@.take(i as int));
            }
            let id = self.initial.entities[i].get_id();
            push_bytes(&mut data, id.bytes.as_slice());
            i = i + 1;
        }
        proof {
            assert(self.initial.entities@.take(self.initial.entities@.len() as int) =~= self.initial.entities@);
        }
        U256 { bytes: sha256(data.as_slice()) }
    }

    /// Each state but the last carries the signature that evolved it.
    pub closed spec fn wf(&self) -> bool {
        if self.updates@.len() == 0 {
            true
        } else {
            &&& self.initial.sigs is Some
            &&& forall|k: int| 0 <= k < self.updates@.len() - 1 ==> (#[trigger] self.updates@[k]).sigs is Some
        }
    }

    /// Whether state `k` carries a signature, the first state being 0.
    pub closed spec fn signed_at(&self, k: int) -> bool {
        if k == 0 {
            self.initial.sigs is Some
        } else {
            self.updates@[k - 1].sigs is Some
        }
    }

    /// The threshold and the entities of the latest state.
    pub closed spec fn latest_state(&self) -> (usize, Seq<Entity>) {
        if self.updates@.len() > 0 {
            (self.updates@.last().threshold, self.updates@.last().entities@)
        } else {
            (self.initial.threshold, self.initial.entities@)
        }
    }

    /// Evolves the group to `entities_new` with `threshold`; `verdict` is what
    /// checking the signature `sig` of the proposal against the latest state gave.
    /// The signature is kept with the latest state. The identifier does not change.
    pub fn evolve(&mut self, sig: Vec<u8>, entities_new: Vec<Entity>, threshold: usize, verdict: Result<(), GroupError>) -> (r:
        Result<(), GroupError>)
        requires
            old(self).wf(),
        ensures
            final(self).wf(),
            final(self).first_entities() == old(self).first_entities(),
            r == verdict,
            verdict is Err ==> final(self).evolutions() == old(self).evolutions()
                && final(self).latest_state() == old(self).latest_state(),
            verdict is Ok ==> final(self).evolutions() == old(self).evolutions() + 1
                && final(self).latest_state() == (threshold, entities_new@),
    {
        if verdict.is_err() {
            return verdict;
        }
        {
            {
                let ghost n = self.updates@.len();
                if self.updates.len() == 0 {
                    self.initial.sigs = Some(sig);
                } else {
                    let last = self.updates.len() - 1;
                    let mut h = self.updates.remove(last);
                    h.sigs = Some(sig);
                    self.updates.push(h);
                }
                self.updates.push(GroupHistory { entities: entities_new, threshold, sigs: None });
                proof {
                    assert forall|k: int| 0 <= k < self.updates@.len() - 1 implies (#[trigger] self.updates@[k]).sigs is Some by {
                        if k < n - 1 {
                            assert(self.updates@[k] == old(self).updates@[k]);
                        }
                    }
                }
                verdict
            }
        }
    }

    /// Checks that `id` is the identifier of the group and that each evolution
    /// was signed; `verdicts[k]` is what checking the signature that state `k`
    /// carries gave.
    pub fn verify_group(&self, id: GroupID, verdicts: &Vec<Result<(), GroupError>>) -> (r: Result<(), GroupError>)
        requires
            verdicts@.len() == self.evolutions(),
        ensures
            id.bytes@ != sha256_spec(entity_ids_bytes(self.first_entities())) ==> r == Err::<(), GroupError>(
                GroupError::WrongGroupID,
            ),
            id.bytes@ == sha256_spec(entity_ids_bytes(self.first_entities())) ==> r == group_check(self, verdicts@, 0),
    {
        let own = self.get_id();
        if !id.same(&own) {
            proof {
                broadcast use vstd::array::group_array_axioms;

                if id.bytes@ == own.bytes@ {
                    assert(id.bytes =~= own.bytes);
                }
            }
            return Err(GroupError::WrongGroupID);
        }
        let mut k: usize = 0;
        while k < self.updates.len()
            invariant
                0 <= k <= self.updates@.len(),
                verdicts@.len() == self.updates@.len(),
                id.bytes@ == sha256_spec(entity_ids_bytes(self.first_entities())),
                group_check(self, verdicts@, 0) == group_check(self, verdicts@, k as int),
            decreases self.updates.len() - k,
        {
            let signed = if k == 0 {
                self.initial.sigs.is_some()
            } else {
                self.updates[k - 1].sigs.is_some()
            };
            if !signed {
                return Err(GroupError::EvolveWrongSignature);
            }
            match verdicts[k] {
                Err(e) => return Err(e),
                Ok(()) => {},
            }
            k = k + 1;
        }
        Ok(())
    }
}

/// Checks the evolutions from state `k` on: each must carry its signature, and
/// the check of that signature must pass.
pub open spec fn group_check(g: &GroupVerifier, verdicts: Seq<Result<(), GroupError>>, k: int) -> Result<(), GroupError>
    decreases g.evolutions() - k,
{
    if k < 0 || k >= g.evolutions() {
        Ok(())
    } else if !g.signed_at(k) {
        Err(GroupError::EvolveWrongSignature)
    } else {
        match verdicts[k] {
            Err(e) => Err(e),
            Ok(()) => group_check(g, verdicts, k + 1),
        }
    }
}

/// A group that only evolved through `evolve` verifies under its identifier when
/// the checks of all its signatures pass, after any number of evolutions.
pub proof fn lemma_group_verifies(g: &GroupVerifier, verdicts: Seq<Result<(), GroupError>>, k: int)
    requires
        g.wf(),
        0 <= k <= g.evolutions(),
        verdicts.len() == g.evolutions(),
        forall|i: int| 0 <= i < verdicts.len() ==> #[trigger] verdicts[i] is Ok,
    ensures
        group_check(g, verdicts, k) is Ok,
    decreases g.evolutions() - k,
{
    if k < g.evolutions() {
        assert(g.signed_at(k));
        lemma_group_verifies(g, verdicts, k + 1);
    }
}

/// The signatures collected for a group.
pub struct GroupSigCollect {}

} // verus!
