use flmodules::crypto::signer::SignerError;
use flmodules::flo::flo::{CondVersion, Flo};
use flmodules::nodeid::U256;

fn c(b: u8) -> U256 {
    U256::from_bytes([b; 32])
}

fn chain() -> Flo {
    Flo {
        cond_genesis: CondVersion { cond: c(1), signed_by: c(1) },
        cond_update: vec![
            CondVersion { cond: c(2), signed_by: c(1) },
            CondVersion { cond: c(3), signed_by: c(2) },
        ],
        data_signed_by: c(3),
        data_version: 0,
    }
}

#[test]
fn flo_verify_chain() {
    let f = chain();
    assert_eq!(c(3), f.latest_cond_version().cond);
    assert!(matches!(f.verify(Ok(true), &vec![Ok(true), Ok(true)], Ok(true)), Ok(true)));
    // A signature that does not match anywhere fails the verification.
    assert!(f.verify(Ok(false), &vec![Ok(true), Ok(true)], Ok(true)).is_err());
    assert!(f.verify(Ok(true), &vec![Ok(true), Ok(false)], Ok(true)).is_err());
    assert!(f.verify(Ok(true), &vec![Ok(true), Ok(true)], Ok(false)).is_err());
    assert!(matches!(
        f.verify(Ok(true), &vec![Err(SignerError::SignatureMessageMismatch), Ok(true)], Ok(true)),
        Err(SignerError::SignatureMessageMismatch)
    ));
}

#[test]
fn flo_verify_broken_links() {
    // The data must be signed by the latest condition.
    let mut f = chain();
    f.data_signed_by = c(2);
    assert!(f.verify(Ok(true), &vec![Ok(true), Ok(true)], Ok(true)).is_err());
    // An update must be signed by the condition before it.
    let mut f = chain();
    f.cond_update[1].signed_by = c(1);
    assert!(f.verify(Ok(true), &vec![Ok(true), Ok(true)], Ok(true)).is_err());
    // The genesis condition signs itself.
    let mut f = chain();
    f.cond_genesis.signed_by = c(9);
    assert!(f.verify(Ok(true), &vec![Ok(true), Ok(true)], Ok(true)).is_err());
    // Without updates, the genesis condition signs the data.
    let f = Flo {
        cond_genesis: CondVersion { cond: c(1), signed_by: c(1) },
        cond_update: vec![],
        data_signed_by: c(1),
        data_version: 0,
    };
    assert_eq!(c(1), f.latest_cond_version().cond);
    assert!(matches!(f.verify(Ok(true), &vec![], Ok(true)), Ok(true)));
}

#[test]
fn flo_updates_keep_the_chain() {
    let f = chain();
    // A new condition, signed by the latest one, keeps the chain valid.
    let f2 = f.update_cond(c(3), c(4));
    assert_eq!(3, f2.cond_update.len());
    assert_eq!(c(4), f2.latest_cond_version().cond);
    assert!(matches!(f2.verify(Ok(true), &vec![Ok(true), Ok(true), Ok(true)], Ok(true)), Ok(true)));
    // Signed by an older condition, it breaks the chain.
    let f3 = f.update_cond(c(2), c(4));
    assert!(f3.verify(Ok(true), &vec![Ok(true), Ok(true), Ok(true)], Ok(true)).is_err());
    // New data needs a matching signature, and counts up the data version.
    assert!(f2.update_data(c(4), Ok(false)).is_err());
    let f4 = f2.update_data(c(4), Ok(true)).unwrap();
    assert_eq!(1, f4.data_version);
    assert!(matches!(f4.verify(Ok(true), &vec![Ok(true), Ok(true), Ok(true)], Ok(true)), Ok(true)));
    // Data signed under an old condition does not verify.
    let f5 = f2.update_data(c(3), Ok(true)).unwrap();
    assert!(f5.verify(Ok(true), &vec![Ok(true), Ok(true), Ok(true)], Ok(true)).is_err());
}
