use pbs_datastore::api_types::{
    parse_tuning, ChunkOrder, DataStoreConfig, DatastoreTuning, MaintenanceType, Operation,
};
use pbs_datastore::datastore::DataStore;
use pbs_datastore::error::Error;
use pbs_datastore::registry::DatastoreRegistry;

fn config(name: &str) -> DataStoreConfig {
    DataStoreConfig::new(name.to_string(), format!("/data/{}", name))
}

#[test]
fn lookups_share_an_instance_while_it_is_fresh() {
    let mut registry = DatastoreRegistry::new();
    let cfg = config("store1");
    let first = registry
        .lookup_datastore("store1", Some(&cfg), 7, 1000, Some(Operation::Read))
        .unwrap();
    assert!(first.reopened);
    let second = registry
        .lookup_datastore("store1", Some(&cfg), 7, 1059, Some(Operation::Write))
        .unwrap();
    assert!(!second.reopened);
    assert_eq!(second.instance, first.instance);
    assert_eq!(second.operation, Some(Operation::Write));
    // sixty seconds after the instance was opened it is stale
    let third = registry
        .lookup_datastore("store1", Some(&cfg), 7, 1060, None)
        .unwrap();
    assert!(third.reopened);
    assert_ne!(third.instance, first.instance);
}

#[test]
fn generation_bump_opens_a_new_instance() {
    let mut registry = DatastoreRegistry::new();
    let cfg = config("store1");
    let first = registry
        .lookup_datastore("store1", Some(&cfg), 7, 1000, None)
        .unwrap();
    let second = registry
        .lookup_datastore("store1", Some(&cfg), 8, 1001, None)
        .unwrap();
    assert!(second.reopened);
    assert_ne!(second.instance, first.instance);
    let third = registry
        .lookup_datastore("store1", Some(&cfg), 8, 1002, None)
        .unwrap();
    assert_eq!(third.instance, second.instance);
    let other = registry
        .lookup_datastore("store2", Some(&config("store2")), 8, 1002, None)
        .unwrap();
    assert_ne!(other.instance, second.instance);
}

#[test]
fn lookup_of_unknown_store_fails() {
    let mut registry = DatastoreRegistry::new();
    assert_eq!(
        registry
            .lookup_datastore("nope", None, 1, 1, Some(Operation::Read))
            .err(),
        Some(Error::ConfigMissing)
    );
    assert_eq!(registry.active_operations("nope", Operation::Read), 0);
}

#[test]
fn maintenance_mode_rejects_operations() {
    let mut registry = DatastoreRegistry::new();
    let mut read_only = config("store1");
    read_only.maintenance_mode = Some(MaintenanceType::ReadOnly);
    assert!(registry
        .lookup_datastore("store1", Some(&read_only), 1, 1, Some(Operation::Read))
        .is_ok());
    assert!(registry
        .lookup_datastore("store1", Some(&read_only), 1, 1, None)
        .is_ok());
    assert_eq!(
        registry
            .lookup_datastore("store1", Some(&read_only), 1, 1, Some(Operation::Write))
            .err(),
        Some(Error::MaintenanceMode)
    );
    let mut offline = config("store1");
    offline.maintenance_mode = Some(MaintenanceType::Offline);
    for op in [None, Some(Operation::Read), Some(Operation::Write)] {
        assert_eq!(
            registry.lookup_datastore("store1", Some(&offline), 1, 1, op).err(),
            Some(Error::MaintenanceMode)
        );
    }
    assert_eq!(registry.active_operations("store1", Operation::Read), 1);
    assert_eq!(registry.active_operations("store1", Operation::Write), 0);
    assert_eq!(MaintenanceType::ReadOnly.check(Some(Operation::Write)), Err(Error::MaintenanceMode));
    assert_eq!(MaintenanceType::ReadOnly.check(None), Ok(()));
}

#[test]
fn operations_are_counted_for_each_live_handle() {
    let mut registry = DatastoreRegistry::new();
    let cfg = config("store1");
    let a = registry
        .lookup_datastore("store1", Some(&cfg), 1, 1, Some(Operation::Read))
        .unwrap();
    let b = registry
        .lookup_datastore("store1", Some(&cfg), 1, 2, Some(Operation::Write))
        .unwrap();
    let c = registry.clone_handle(&a);
    assert_eq!(c.instance, a.instance);
    assert_eq!(c.operation, Some(Operation::Read));
    assert_eq!(registry.active_operations("store1", Operation::Read), 2);
    assert_eq!(registry.active_operations("store1", Operation::Write), 1);
    registry.release(a);
    registry.release(b);
    assert_eq!(registry.active_operations("store1", Operation::Read), 1);
    assert_eq!(registry.active_operations("store1", Operation::Write), 0);
    registry.release(c);
    assert_eq!(registry.active_operations("store1", Operation::Read), 0);
    let plain = registry
        .lookup_datastore("store1", Some(&cfg), 1, 3, None)
        .unwrap();
    registry.release(plain);
    assert_eq!(registry.active_operations("store1", Operation::Read), 0);
}

#[test]
fn unused_stores_are_forgotten() {
    let mut registry = DatastoreRegistry::new();
    let a = registry
        .lookup_datastore("a", Some(&config("a")), 1, 1, None)
        .unwrap();
    let b = registry
        .lookup_datastore("b", Some(&config("b")), 1, 1, None)
        .unwrap();
    registry.remove_unused_datastores(&vec!["b".to_string(), "c".to_string()]);
    let b_again = registry
        .lookup_datastore("b", Some(&config("b")), 1, 2, None)
        .unwrap();
    assert_eq!(b_again.instance, b.instance);
    let a_again = registry
        .lookup_datastore("a", Some(&config("a")), 1, 2, None)
        .unwrap();
    assert!(a_again.reopened);
    assert_ne!(a_again.instance, a.instance);
}

#[test]
fn tuning_options_are_read() {
    assert_eq!(parse_tuning(""), Ok(DatastoreTuning { chunk_order: None }));
    assert_eq!(
        parse_tuning("chunk-order=none"),
        Ok(DatastoreTuning { chunk_order: Some(ChunkOrder::Unordered) })
    );
    assert_eq!(
        parse_tuning(" chunk-order=inode,"),
        Ok(DatastoreTuning { chunk_order: Some(ChunkOrder::Inode) })
    );
    for bad in [
        "chunk-order",
        "chunk-order=",
        "chunk-order=fast",
        "order=inode",
        "chunk-order=inode,chunk-order=none",
        "chunk-order=inode=x",
        "chunk-order=inode ",
    ] {
        assert_eq!(parse_tuning(bad), Err(Error::InvalidInput), "{:?}", bad);
    }
}

#[test]
fn store_is_set_up_as_configured() {
    let mut cfg = config("store1");
    let store = DataStore::open_from_config(config("store1"), Some(Operation::Read)).unwrap();
    assert!(!store.verify_new());
    assert_eq!(store.operation(), Some(Operation::Read));
    cfg.verify_new = Some(true);
    cfg.tuning = Some("chunk-order=none".to_string());
    let store = DataStore::open_from_config(cfg, None).unwrap();
    assert!(store.verify_new());
    assert!(store.last_gc_status().upid.is_none());
    let mut bad = config("store1");
    bad.tuning = Some("chunk-order=sideways".to_string());
    assert!(matches!(
        DataStore::open_from_config(bad, None),
        Err(Error::InvalidInput)
    ));
    let mut registry = DatastoreRegistry::new();
    let mut bad = config("store1");
    bad.tuning = Some("x=y".to_string());
    assert_eq!(
        registry
            .lookup_datastore("store1", Some(&bad), 1, 1, Some(Operation::Read))
            .err(),
        Some(Error::InvalidInput)
    );
    // the operation was counted before the store failed to open
    assert_eq!(registry.active_operations("store1", Operation::Read), 1);
}
