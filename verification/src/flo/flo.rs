use vstd::prelude::*;

use crate::crypto::signer::SignerError;
use crate::nodeid::U256;

verus! {

/// One version of the condition of a Flo: the link of the new condition, and the
/// link of the condition whose signers signed it.
#[derive(Debug, Clone, Copy)]
pub struct CondVersion {
    pub cond: U256,
    pub signed_by: U256,
}

/// What the verification of a Flo reads of it: its first condition, signed by
/// itself, the updates of the condition, each signed by the one before, and the
/// condition that signed the current data. Conditions are taken by their links.
#[derive(Debug)]
pub struct Flo {
    pub cond_genesis: CondVersion,
    pub cond_update: Vec<CondVersion>,
    pub data_signed_by: U256,
    pub data_version: u32,
}

/// The link of the latest condition of a Flo.
pub open spec fn latest_cond(f: Flo) -> U256 {
    if f.cond_update@.len() > 0 {
        f.cond_update@.last().cond
    } else {
        f.cond_genesis.cond
    }
}

/// A signature check: it failed with an error, it did not match, or it matched.
pub open spec fn sig_check(sig: Result<bool, SignerError>) -> Result<(), SignerError> {
    match sig {
        Err(e) => Err(e),
        Ok(false) => Err(SignerError::SignatureMessageMismatch),
        Ok(true) => Ok(()),
    }
}

/// Checks the updates from `k` on: each must be signed by the condition before it
/// (a mismatch is found before the signature is checked), and its signature
/// (`sigs[k]`) must match.
pub open spec fn updates_check(
    updates: Seq<CondVersion>,
    sigs: Seq<Result<bool, SignerError>>,
    prev: U256,
    k: int,
) -> (Result<(), SignerError>, U256)
    decreases updates.len() - k,
{
    if k < 0 || k >= updates.len() {
        (Ok(()), prev)
    } else if updates[k].signed_by != prev {
        (Err(SignerError::SignatureMessageMismatch), prev)
    } else {
        match sig_check(sigs[k]) {
            Err(e) => (Err(e), prev),
            Ok(()) => updates_check(updates, sigs, updates[k].cond, k + 1),
        }
    }
}

/// The verification of a Flo: the genesis signature is checked first and must be
/// by the genesis condition itself; then each update of the condition; finally the
/// data must be signed by the latest condition, and that signature must match.
pub open spec fn verify_spec(
    f: Flo,
    genesis: Result<bool, SignerError>,
    updates: Seq<Result<bool, SignerError>>,
    data: Result<bool, SignerError>,
) -> Result<bool, SignerError> {
    match sig_check(genesis) {
        Err(e) => Err(e),
        Ok(()) => if f.cond_genesis.signed_by != f.cond_genesis.cond {
            Err(SignerError::SignatureMessageMismatch)
        } else {
            let (u, last) = updates_check(f.cond_update@, updates, f.cond_genesis.cond, 0);
            match u {
                Err(e) => Err(e),
                Ok(()) => if f.data_signed_by != last {
                    Err(SignerError::SignatureMessageMismatch)
                } else {
                    match sig_check(data) {
                        Err(e) => Err(e),
                        Ok(()) => Ok(true),
                    }
                },
            }
        },
    }
}

fn check_sig(sig: Result<bool, SignerError>) -> (r: Result<(), SignerError>)
    ensures
        r == sig_check(sig),
{
    match sig {
        Err(e) => Err(e),
        Ok(false) => Err(SignerError::SignatureMessageMismatch),
        Ok(true) => Ok(()),
    }
}

impl Flo {
    /// The condition that signs the data now: that of the latest update, or the
    /// genesis condition.
    pub fn latest_cond_version(&self) -> (r: &CondVersion)
        ensures
            *r == if self.cond_update@.len() > 0 {
                self.cond_update@.last()
            } else {
                self.cond_genesis
            },
    {
        if self.cond_update.len() > 0 {
            &self.cond_update[self.cond_update.len() - 1]
        } else {
            &self.cond_genesis
        }
    }

    /// Verifies the chain of conditions and the data signature. `genesis`,
    /// `updates[k]` and `data` are what checking the signature of the genesis
    /// digest, of the digest of update `k` and of the data digest gave.
    pub fn verify(
        &self,
        genesis: Result<bool, SignerError>,
        updates: &Vec<Result<bool, SignerError>>,
        data: Result<bool, SignerError>,
    ) -> (r: Result<bool, SignerError>)
        requires
            updates@.len() == self.cond_update@.len(),
        ensures
            r == verify_spec(*self, genesis, updates@, data),
            r is Ok ==> r == Ok::<bool, SignerError>(true),
    {
        match check_sig(genesis) {
            Err(e) => return Err(e),
            Ok(()) => {},
        }
        if !self.cond_genesis.signed_by.same(&self.cond_genesis.cond) {
            return Err(SignerError::SignatureMessageMismatch);
        }
        let mut prev = self.cond_genesis.cond;
        let mut k: usize = 0;
        while k < self.cond_update.len()
            invariant
                0 <= k <= self.cond_update@.len(),
                updates@.len() == self.cond_update@.len(),
                updates_check(self.cond_update@, updates@, self.cond_genesis.cond, 0) == updates_check(
                    self.cond_update@,
                    updates@,
                    prev,
                    k as int,
                ),
            decreases self.cond_update.len() - k,
        {
            let cv = self.cond_update[k];
            if !cv.signed_by.same(&prev) {
                return Err(SignerError::SignatureMessageMismatch);
            }
            match check_sig(updates[k]) {
                Err(e) => return Err(e),
                Ok(()) => {},
            }
            prev = cv.cond;
            k = k + 1;
        }
        if !self.data_signed_by.same(&prev) {
            return Err(SignerError::SignatureMessageMismatch);
        }
        match check_sig(data) {
            Err(e) => Err(e),
            Ok(()) => Ok(true),
        }
    }
}

proof fn lemma_updates_check(updates: Seq<CondVersion>, sigs: Seq<Result<bool, SignerError>>, prev: U256, k: int)
    requires
        0 <= k <= updates.len(),
        updates_check(updates, sigs, prev, k).0 is Ok,
    ensures
        forall|j: int|
            k <= j < updates.len() ==> (#[trigger] updates[j]).signed_by == (if j == k {
                prev
            } else {
                updates[j - 1].cond
            }),
        updates_check(updates, sigs, prev, k).1 == (if k < updates.len() {
            updates.last().cond
        } else {
            prev
        }),
    decreases updates.len() - k,
{
    if k < updates.len() {
        lemma_updates_check(updates, sigs, updates[k].cond, k + 1);
    }
}

/// A Flo that verifies has a chain of conditions: the genesis condition signed
/// itself, each update was signed by the condition before it, and the data was
/// signed by the latest condition.
pub proof fn lemma_verified_chain(
    f: Flo,
    genesis: Result<bool, SignerError>,
    updates: Seq<Result<bool, SignerError>>,
    data: Result<bool, SignerError>,
)
    requires
        verify_spec(f, genesis, updates, data) is Ok,
    ensures
        f.cond_genesis.signed_by == f.cond_genesis.cond,
        forall|k: int|
            0 <= k < f.cond_update@.len() ==> (#[trigger] f.cond_update@[k]).signed_by == (if k == 0 {
                f.cond_genesis.cond
            } else {
                f.cond_update@[k - 1].cond
            }),
        f.data_signed_by == (if f.cond_update@.len() > 0 {
            f.cond_update@.last().cond
        } else {
            f.cond_genesis.cond
        }),
        genesis == Ok::<bool, SignerError>(true),
        data == Ok::<bool, SignerError>(true),
{
    lemma_updates_check(f.cond_update@, updates, f.cond_genesis.cond, 0);
}

fn copy_updates(v: &Vec<CondVersion>) -> (r: Vec<CondVersion>)
    ensures
        r@ == v@,
{
    let mut r: Vec<CondVersion> = Vec::new();
    let mut i: usize = 0;
    while i < v.len()
        invariant
            0 <= i <= v@.len(),
            r@ == v@.take(i as int),
        decreases v.len() - i,
    {
        proof {
            assert(v@.take(i + 1) =~= v@.take(i as int).push(v@[i as int]));
        }
        r.push(v[i]);
        i = i + 1;
    }
    proof {
        assert(v@.take(v@.len() as int) =~= v@);
    }
    r
}

impl Flo {
    /// The Flo with its condition updated to `cond_new`, the update signed by
    /// `cond_old` and the data by the new condition.
    pub fn update_cond(&self, cond_old: U256, cond_new: U256) -> (r: Flo)
        ensures
            r.cond_genesis == self.cond_genesis,
            r.cond_update@ == self.cond_update@.push(CondVersion { cond: cond_new, signed_by: cond_old }),
            r.data_signed_by == cond_new,
            r.data_version == self.data_version,
    {
        let mut updates = copy_updates(&self.cond_update);
        updates.push(CondVersion { cond: cond_new, signed_by: cond_old });
        Flo { cond_genesis: self.cond_genesis, cond_update: updates, data_signed_by: cond_new, data_version: self.data_version }
    }

    /// The Flo with new data signed under `cond`, if the signature of the new
    /// data's digest matches (`verdict`): the data version goes up by one.
    pub fn update_data(&self, cond: U256, verdict: Result<bool, SignerError>) -> (r: Result<Flo, SignerError>)
        requires
            self.data_version < u32::MAX,
        ensures
            sig_check(verdict) matches Err(e) ==> r == Err::<Flo, SignerError>(e),
            sig_check(verdict) is Ok ==> (r matches Ok(f) && f.cond_genesis == self.cond_genesis
                && f.cond_update@ == self.cond_update@ && f.data_signed_by == cond && f.data_version
                == self.data_version + 1),
    {
        match check_sig(verdict) {
            Err(e) => Err(e),
            Ok(()) => Ok(Flo {
                cond_genesis: self.cond_genesis,
                cond_update: copy_updates(&self.cond_update),
                data_signed_by: cond,
                data_version: self.data_version + 1,
            }),
        }
    }
}

proof fn lemma_updates_check_push(
    updates: Seq<CondVersion>,
    sigs: Seq<Result<bool, SignerError>>,
    prev: U256,
    k: int,
    c: CondVersion,
    s: Result<bool, SignerError>,
)
    requires
        0 <= k <= updates.len(),
        sigs.len() == updates.len(),
        updates_check(updates, sigs, prev, k).0 is Ok,
        c.signed_by == updates_check(updates, sigs, prev, k).1,
        sig_check(s) is Ok,
    ensures
        updates_check(updates.push(c), sigs.push(s), prev, k) == (Ok::<(), SignerError>(()), c.cond),
    decreases updates.len() - k,
{
    let u2 = updates.push(c);
    let s2 = sigs.push(s);
    if k < updates.len() {
        assert(u2[k] == updates[k] && s2[k] == sigs[k]);
        assert(updates[k].signed_by == prev);
        assert(sig_check(sigs[k]) is Ok);
        assert(updates_check(updates, sigs, prev, k) == updates_check(updates, sigs, updates[k].cond, k + 1));
        lemma_updates_check_push(updates, sigs, updates[k].cond, k + 1, c, s);
        assert(updates_check(u2, s2, prev, k) == updates_check(u2, s2, updates[k].cond, k + 1));
    } else {
        assert(u2[k] == c && s2[k] == s);
        assert(updates_check(u2, s2, c.cond, k + 1) == (Ok::<(), SignerError>(()), c.cond));
    }
}

/// Updating the condition of a Flo that verifies, with the update signed by its
/// latest condition and both new signatures matching, gives a Flo that verifies.
pub proof fn lemma_update_cond_verifies(
    f: Flo,
    f2: Flo,
    genesis: Result<bool, SignerError>,
    updates: Seq<Result<bool, SignerError>>,
    data: Result<bool, SignerError>,
    cond_new: U256,
)
    requires
        updates.len() == f.cond_update@.len(),
        verify_spec(f, genesis, updates, data) is Ok,
        f2.cond_genesis == f.cond_genesis,
        f2.cond_update@ == f.cond_update@.push(CondVersion { cond: cond_new, signed_by: latest_cond(f) }),
        f2.data_signed_by == cond_new,
    ensures
        verify_spec(f2, genesis, updates.push(Ok(true)), Ok(true)) is Ok,
{
    lemma_verified_chain(f, genesis, updates, data);
    lemma_updates_check(f.cond_update@, updates, f.cond_genesis.cond, 0);
    lemma_updates_check_push(
        f.cond_update@,
        updates,
        f.cond_genesis.cond,
        0,
        CondVersion { cond: cond_new, signed_by: latest_cond(f) },
        Ok(true),
    );
}

} // verus!
