use flmodules::crypto::entity::{Entity, EntityError, EntitySignature, EntityVerifierV1};
use flmodules::crypto::group::{GroupError, GroupVerifier};
use flmodules::crypto::signer::SignerError;
use flmodules::nodeid::U256;

fn member(b: u8) -> EntityVerifierV1 {
    EntityVerifierV1::Verifier(U256::from_bytes([b; 32]))
}

fn vid(b: u8) -> U256 {
    U256::from_bytes([b; 32])
}

const MISMATCH: Result<(), SignerError> = Err(SignerError::SignatureMessageMismatch);

#[test]
fn test_sig_single() {
    assert!(matches!(Entity::new(&[], 1), Err(EntityError::ThresholdAboveVerifiers)));
    assert!(matches!(Entity::new(&[member(1)], 0), Err(EntityError::ZeroThreshold)));
    assert!(matches!(Entity::new(&[member(1)], 2), Err(EntityError::ThresholdAboveVerifiers)));
    let ent = Entity::new(&[member(1)], 1).unwrap();
    let msg = b"signature message".to_vec();
    let mut sig_ent = ent.propose_signature(&msg);
    // Each message gives its own message to sign.
    assert_ne!(sig_ent.get_msg(), ent.propose_signature(&b"message2".to_vec()).get_msg());
    assert!(sig_ent.finalize().is_err());
    sig_ent.sign(vid(1), Ok(b"sig".to_vec())).unwrap();
    let sig_ent_final = sig_ent.finalize().unwrap();
    assert!(matches!(&sig_ent_final, EntitySignature::Single(s) if s == b"sig"));
    assert!(ent.verify(&sig_ent_final, &msg, &vec![Ok(())]).is_ok());
    assert!(matches!(
        ent.verify(&sig_ent_final, &b"message2".to_vec(), &vec![MISMATCH]),
        Err(EntityError::SignatureError(SignerError::SignatureMessageMismatch))
    ));
}

#[test]
fn test_sig_threshold_1() {
    let ent = Entity::new(&[member(1), member(2)], 1).unwrap();
    let msg = b"signature message".to_vec();
    let mut sig_ent = ent.propose_signature(&msg);
    sig_ent.sign(vid(1), Ok(b"s1".to_vec())).unwrap();
    let sig_ent_final = sig_ent.finalize().unwrap();
    assert!(ent.verify(&sig_ent_final, &msg, &vec![Ok(())]).is_ok());

    let mut sig_ent = ent.propose_signature(&msg);
    sig_ent.sign(vid(2), Ok(b"s2".to_vec())).unwrap();
    let sig_ent_final = sig_ent.finalize().unwrap();
    assert!(ent.verify(&sig_ent_final, &msg, &vec![Ok(())]).is_ok());
}

#[test]
fn entity_n_out_of_t() {
    let ent = Entity::new(&[member(1), member(2), member(3)], 2).unwrap();
    let msg = b"m".to_vec();
    let mut c = ent.propose_signature(&msg);
    c.sign(vid(1), Ok(b"s1".to_vec())).unwrap();
    // One signature of three, with a threshold of two, is not enough to finalize.
    assert!(matches!(c.finalize(), Err(EntityError::ThresholdNotReached)));
    c.sign(vid(3), Ok(b"s3".to_vec())).unwrap();
    let sig = c.finalize().unwrap();
    assert!(ent.verify(&sig, &msg, &vec![Ok(()), Ok(())]).is_ok());
    // A signature that does not check spoils the whole.
    assert!(matches!(ent.verify(&sig, &msg, &vec![Ok(()), MISMATCH]), Err(EntityError::VerificationWrongSignatures)));
    // Twice the same member counts once.
    let twice = EntitySignature::Entity(vec![
        (vid(1), EntitySignature::Single(b"a".to_vec())),
        (vid(1), EntitySignature::Single(b"a".to_vec())),
    ]);
    assert!(matches!(ent.verify(&twice, &msg, &vec![Ok(()), Ok(())]), Err(EntityError::VerificationSignatureMissing)));
    // A signature by someone who is not a member is refused.
    let stranger = EntitySignature::Entity(vec![
        (vid(1), EntitySignature::Single(b"a".to_vec())),
        (vid(9), EntitySignature::Single(b"b".to_vec())),
    ]);
    assert!(matches!(ent.verify(&stranger, &msg, &vec![Ok(()), Ok(())]), Err(EntityError::SignatureWrongIdentity)));
    // A single signature needs an entity of one member.
    let single = EntitySignature::Single(b"x".to_vec());
    assert!(matches!(ent.verify(&single, &msg, &vec![Ok(())]), Err(EntityError::ThresholdNotReached)));
}

#[test]
fn test_evolve_single() {
    let mut ent = Entity::new(&[member(1)], 1).unwrap();
    let id = ent.get_id();

    let mut sig_evolve_propose = ent.propose_evolve(&[member(2)], 1).unwrap();
    assert!(sig_evolve_propose.finalize().is_err());
    assert!(matches!(sig_evolve_propose.sign(vid(2), Ok(b"s2".to_vec())), Err(EntityError::WrongEntityID)));
    assert!(sig_evolve_propose.sign(vid(1), Ok(b"s1".to_vec())).is_ok());
    assert!(sig_evolve_propose.sign(vid(1), Ok(b"s1".to_vec())).is_ok());
    // The proposal depends on the new members and threshold.
    assert_ne!(sig_evolve_propose.get_msg(), ent.propose_evolve(&[member(1)], 1).unwrap().get_msg());

    let sig_evolve = sig_evolve_propose.finalize().unwrap();
    assert!(ent.evolve(sig_evolve_propose.finalize().unwrap(), &[member(1)], 1, &vec![MISMATCH]).is_err());
    assert!(matches!(
        ent.evolve(sig_evolve_propose.finalize().unwrap(), &[member(2)], 2, &vec![Ok(())]),
        Err(EntityError::ThresholdAboveVerifiers)
    ));
    assert_eq!(0, ent.version());
    ent.evolve(sig_evolve, &[member(2)], 1, &vec![Ok(())]).unwrap();
    assert_eq!(1, ent.version());
    assert_eq!(id, ent.get_id());
    assert_eq!(vid(2), ent.get_entities()[0].get_id());
    assert!(ent.verify_entity(id, &vec![vec![Ok(())]]).is_ok());
    assert!(matches!(ent.verify_entity(vid(9), &vec![vec![Ok(())]]), Err(EntityError::WrongEntityID)));
    assert!(ent.verify_entity(id, &vec![vec![MISMATCH]]).is_err());
}

#[test]
fn entity_evolve_keeps_new_threshold() {
    let mut ent = Entity::new(&[member(1)], 1).unwrap();
    let id = ent.get_id();
    let mut c = ent.propose_evolve(&[member(2), member(3)], 2).unwrap();
    c.sign(vid(1), Ok(b"s".to_vec())).unwrap();
    ent.evolve(c.finalize().unwrap(), &[member(2), member(3)], 2, &vec![Ok(())]).unwrap();
    // The new state needs two of its two members.
    let msg = b"m".to_vec();
    let mut c = ent.propose_signature(&msg);
    c.sign(vid(2), Ok(b"s2".to_vec())).unwrap();
    assert!(matches!(c.finalize(), Err(EntityError::ThresholdNotReached)));
    c.sign(vid(3), Ok(b"s3".to_vec())).unwrap();
    let sig = c.finalize().unwrap();
    assert!(ent.verify(&sig, &msg, &vec![Ok(()), Ok(())]).is_ok());
    // A second evolution, signed by both members.
    let mut c = ent.propose_evolve(&[member(4)], 1).unwrap();
    c.sign(vid(2), Ok(b"a".to_vec())).unwrap();
    c.sign(vid(3), Ok(b"b".to_vec())).unwrap();
    ent.evolve(c.finalize().unwrap(), &[member(4)], 1, &vec![Ok(()), Ok(())]).unwrap();
    assert_eq!(2, ent.version());
    assert_eq!(id, ent.get_id());
    assert!(ent.verify_entity(id, &vec![vec![Ok(())], vec![Ok(()), Ok(())]]).is_ok());
}

#[test]
fn group_id_and_verify() {
    let e1 = Entity::new(&[member(1)], 1).unwrap();
    let e2 = Entity::new(&[member(2)], 1).unwrap();
    let (i1, i2) = (e1.get_id(), e2.get_id());
    let mut g = GroupVerifier::new(vec![e1, e2], 2);
    let id = g.get_id();
    assert_ne!(id, i1);
    assert!(g.verify_group(id, &vec![]).is_ok());
    assert!(matches!(g.verify_group(i2, &vec![]), Err(GroupError::WrongGroupID)));
    // Evolutions keep the identifier, and each must check.
    assert!(g.evolve(b"no".to_vec(), vec![], 1, Err(GroupError::EvolveWrongSignature)).is_err());
    let e3 = Entity::new(&[member(3)], 1).unwrap();
    g.evolve(b"s1".to_vec(), vec![e3], 1, Ok(())).unwrap();
    g.evolve(b"s2".to_vec(), vec![], 1, Ok(())).unwrap();
    assert_eq!(id, g.get_id());
    assert!(g.verify_group(id, &vec![Ok(()), Ok(())]).is_ok());
    assert!(matches!(
        g.verify_group(id, &vec![Ok(()), Err(GroupError::VerificationWrongSignatures)]),
        Err(GroupError::VerificationWrongSignatures)
    ));
    // The identifier depends on the entities and their order.
    let e1 = Entity::new(&[member(1)], 1).unwrap();
    let e2 = Entity::new(&[member(2)], 1).unwrap();
    assert_ne!(id, GroupVerifier::new(vec![e2, e1], 2).get_id());
}
