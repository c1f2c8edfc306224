use flmodules::ledger::ledger::{LedgerInstance, DAG};
use flmodules::ledger::ledger_core::{LedgerStorage, LedgerStorageSave};

#[test]
fn test_new_events() -> Result<(), std::fmt::Error> {
    Ok(())
}

#[test]
fn core_test_increase() -> Result<(), Box<dyn std::error::Error>> {
    Ok(())
}

#[test]
fn messages_test_something() -> Result<(), Box<dyn std::error::Error>> {
    Ok(())
}

#[test]
fn ledger_storage_roundtrip() {
    let s = LedgerStorage { counter: 7 };
    assert_eq!(s.to_save().to_latest(), s);
    assert_eq!(LedgerStorageSave::V1(LedgerStorage::default()).to_latest().counter, 0);
    let _i = LedgerInstance::new();
    let _d = DAG::new();
}
