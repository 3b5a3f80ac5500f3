use stellar_events_api::ledger::path::StoreConfig;

#[test]
fn test_path_single_ledger_batch() {
    let config = StoreConfig {
        ledgers_per_batch: 1,
        batches_per_partition: 64000,
        ..Default::default()
    };

    let path = config.path_for_ledger(0);
    assert_eq!(path, "FFFFFFFF--0-63999/FFFFFFFF--0.xdr.zst");

    let path = config.path_for_ledger(1);
    assert_eq!(path, "FFFFFFFF--0-63999/FFFFFFFE--1.xdr.zst");

    let path = config.path_for_ledger(64000);
    assert_eq!(path, "FFFF05FF--64000-127999/FFFF05FF--64000.xdr.zst");
}

#[test]
fn test_path_multi_ledger_batch() {
    let config = StoreConfig {
        ledgers_per_batch: 2,
        batches_per_partition: 8,
        ..Default::default()
    };

    let path = config.path_for_ledger(0);
    assert_eq!(path, "FFFFFFFF--0-15/FFFFFFFF--0-1.xdr.zst");

    let path = config.path_for_ledger(3);
    assert_eq!(path, "FFFFFFFF--0-15/FFFFFFFD--2-3.xdr.zst");

    let path = config.path_for_ledger(16);
    assert_eq!(path, "FFFFFFEF--16-31/FFFFFFEF--16-17.xdr.zst");
}

#[test]
fn path_without_partition_directory() {
    let config = StoreConfig {
        ledgers_per_batch: 1,
        batches_per_partition: 1,
        ..Default::default()
    };
    assert_eq!(config.path_for_ledger(10), "FFFFFFF5--10.xdr.zst");
}

#[test]
fn default_config_is_the_public_layout() {
    let config = StoreConfig::default();
    assert_eq!(config.ledgers_per_batch, 1);
    assert_eq!(config.batches_per_partition, 64000);
    assert_eq!(config.compression, "zstd");
}
