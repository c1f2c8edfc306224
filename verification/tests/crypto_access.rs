use flmodules::crypto::test::access::{Expression, Rule};
use flmodules::nodeid::U256;
use sha2::{Digest, Sha256};

fn digest(parts: &[&[u8]]) -> [u8; 32] {
    let mut h = Sha256::new();
    for p in parts {
        h.update(p);
    }
    h.finalize().into()
}

#[test]
fn rule_ids_hash_kind_and_contents() {
    let u = U256::from_bytes([7; 32]);
    assert_eq!(digest(&[b"verifier", &u.bytes]), Rule::Verifier(u).get_id().bytes);
    assert_eq!(digest(&[b"expression", &u.bytes]), Rule::Expression(u).get_id().bytes);
    assert_eq!(digest(&[b"none"]), Rule::NoRule.get_id().bytes);
    let e = Expression::new_signer_updater(Rule::NoRule, Rule::Verifier(u));
    let noft = Rule::NofT(2, vec![e]);
    let e_id = Expression::new_signer_updater(Rule::NoRule, Rule::Verifier(u)).get_id();
    assert_eq!(digest(&[b"noft", &2usize.to_le_bytes(), &e_id.bytes]), noft.get_id().bytes);
}

#[test]
fn expression_id_and_required_rules() {
    let u = U256::from_bytes([1; 32]);
    let e = Expression::new_signer_updater(Rule::Verifier(u), Rule::NoRule);
    assert!(e.has_sign());
    assert!(e.has_update());
    assert_eq!(0, e.get_version());
    let expected = digest(&[
        &4usize.to_le_bytes(),
        &Rule::Verifier(u).get_id().bytes,
        &6usize.to_le_bytes(),
        &Rule::NoRule.get_id().bytes,
    ]);
    assert_eq!(expected, e.get_id().bytes);

    // A later rule replaces an earlier one of the same name.
    let e2 = Expression::new(vec![
        ("sign".to_string(), Rule::NoRule),
        ("other".to_string(), Rule::NoRule),
        ("sign".to_string(), Rule::Verifier(u)),
    ])
    .unwrap();
    assert!(e2.has_sign());
    assert!(!e2.has_update());
    let expected = digest(&[
        &4usize.to_le_bytes(),
        &Rule::Verifier(u).get_id().bytes,
        &5usize.to_le_bytes(),
        &Rule::NoRule.get_id().bytes,
    ]);
    assert_eq!(expected, e2.get_id().bytes);
    let e3 = Expression::new(vec![("update".to_string(), Rule::NoRule)]).unwrap();
    assert!(!e3.has_sign());
    assert!(e3.has_update());
}
