use chain_node::kv::DbMode;
use chain_node::transaction::{OutPoint, TokenAmount};
use chain_node::upgrade::{
    db_spec_infos, dump_db, plan_all_upgrades, raft_for_spec, upgrade_compute_db,
    upgrade_db_for_type, upgrade_wallet_db, DbCfg, DbSpecInfo, UpgradeCfg, UpgradeError,
};
use chain_node::wallet::WalletDb;

fn upgrade_cfg(db_cfg: DbCfg) -> UpgradeCfg {
    UpgradeCfg {
        raft_len: 1,
        passphrase: String::new(),
        db_cfg,
    }
}

fn seeded_wallet_db() -> chain_node::kv::SimpleDb {
    let mut wallet = WalletDb::new(DbMode::InMemory);
    let (address, _keys) = wallet.generate_payment_address();
    wallet
        .save_transaction_to_wallet(OutPoint::new("aa".to_string(), 0), address)
        .expect("transaction record should save");
    wallet
        .save_payment_to_wallet(OutPoint::new("aa".to_string(), 0), TokenAmount(5))
        .expect("payment should save");
    wallet.db
}

#[test]
fn reading_a_database_twice_gives_identical_tables() {
    let db = seeded_wallet_db();
    let first = dump_db(&db);
    let second = dump_db(&db);
    assert_eq!(first, second);
    assert_eq!(first.len(), 3);
    for row in &first {
        assert_eq!(row.0, "wallet");
    }
}

#[test]
fn wallet_upgrade_accepts_canonical_stores_and_keeps_them_identical() {
    let mut db = seeded_wallet_db();
    let before = dump_db(&db);
    upgrade_wallet_db(&mut db, &upgrade_cfg(DbCfg::ComputeBlockToMine))
        .expect("a canonical wallet passes");
    assert_eq!(dump_db(&db), before);
}

#[test]
fn failed_wallet_upgrade_leaves_the_source_byte_identical() {
    let mut db = seeded_wallet_db();
    db.put(0, chain_node::wallet::fund_key(), vec![0xde, 0xad]);
    let before = dump_db(&db);
    let err = upgrade_wallet_db(&mut db, &upgrade_cfg(DbCfg::ComputeBlockToMine))
        .expect_err("garbage under the fund key fails the schema check");
    assert_eq!(err, UpgradeError::SchemaMismatch);
    assert_eq!(dump_db(&db), before);
}

#[test]
fn compute_upgrade_rehomes_the_pending_block() {
    let mut names: Vec<String> = Vec::new();
    names.push("default".to_string());
    let mut db = chain_node::kv::SimpleDb::new_in_memory(names);
    db.put(0, chain_node::upgrade::block_to_mine_key(), vec![7, 7, 7]);

    let mut kept = db;
    upgrade_compute_db(&mut kept, &upgrade_cfg(DbCfg::ComputeBlockToMine)).expect("never fails");
    assert_eq!(dump_db(&kept).len(), 1);

    upgrade_compute_db(&mut kept, &upgrade_cfg(DbCfg::ComputeBlockInStorage))
        .expect("never fails");
    assert_eq!(dump_db(&kept).len(), 0);
}

#[test]
fn unknown_node_type_is_a_config_error() {
    let mut db = seeded_wallet_db();
    let before = dump_db(&db);
    let err = upgrade_db_for_type(
        &"archive".to_string(),
        &mut db,
        &upgrade_cfg(DbCfg::ComputeBlockToMine),
    )
    .expect_err("the type does not exist");
    assert_eq!(err, UpgradeError::ConfigError);
    assert_eq!(dump_db(&db), before);

    upgrade_db_for_type(
        &"user".to_string(),
        &mut db,
        &upgrade_cfg(DbCfg::ComputeBlockToMine),
    )
    .expect("a wallet database upgrades as the user type");
}

#[test]
fn spec_list_covers_every_node_type() {
    let specs = db_spec_infos();
    assert_eq!(specs.len(), 6);
    assert_eq!(specs[0].node_type, "compute");
    assert_eq!(specs[1].suffix, ".compute_raft");
    assert_eq!(specs[2].node_type, "storage");
    assert_eq!(specs[4].node_type, "user");
    assert_eq!(specs[5].node_type, "miner");
}

#[test]
fn raft_suffixes_are_recognised() {
    let raft = DbSpecInfo {
        node_type: "storage".to_string(),
        suffix: ".storage_raft".to_string(),
        columns: Vec::new(),
    };
    assert_eq!(raft_for_spec(&raft), "_raft");
    let plain = DbSpecInfo {
        node_type: "storage".to_string(),
        suffix: ".storage".to_string(),
        columns: Vec::new(),
    };
    assert_eq!(raft_for_spec(&plain), "");
}

#[test]
fn upgrade_plan_offsets_test_indices_and_honours_ignores() {
    let infos = vec![
        ("compute".to_string(), DbMode::Test(0), 2),
        ("storage".to_string(), DbMode::Test(0), 2),
        ("user".to_string(), DbMode::Test(1000), 2),
        ("miner".to_string(), DbMode::Test(0), 2),
    ];
    let ignore = vec![
        ("miner".to_string(), 1usize),
        ("user".to_string(), 1usize),
    ];
    let plan = plan_all_upgrades(&infos, &ignore);
    let expected = vec![
        ("compute".to_string(), DbMode::Test(0)),
        ("compute".to_string(), DbMode::Test(1)),
        ("storage".to_string(), DbMode::Test(0)),
        ("storage".to_string(), DbMode::Test(1)),
        ("user".to_string(), DbMode::Test(1000)),
        ("miner".to_string(), DbMode::Test(0)),
    ];
    assert_eq!(plan, expected);
}

#[test]
fn live_databases_are_not_enumerated_in_test_plans() {
    let infos = vec![("compute".to_string(), DbMode::Live, 3)];
    let plan = plan_all_upgrades(&infos, &Vec::new());
    assert!(plan.is_empty());
}

#[test]
fn single_node_plans_add_the_index_to_the_test_offset() {
    let (t, mode) =
        chain_node::upgrade::plan_single("user".to_string(), DbMode::Test(1000), 1);
    assert_eq!(t, "user");
    assert_eq!(mode, DbMode::Test(1001));

    let (_t, live) = chain_node::upgrade::plan_single("user".to_string(), DbMode::Live, 1);
    assert_eq!(live, DbMode::Live);
}

#[test]
fn storage_upgrade_validates_the_index_layout() {
    let mut node = chain_node::storage::StorageNode::new(DbMode::InMemory);
    node.apply_committed_block(1, vec![1, 2], vec![7u8; 32]);
    let mut db = node.db;
    chain_node::upgrade::upgrade_db_for_type(
        &"storage".to_string(),
        &mut db,
        &UpgradeCfg {
            raft_len: 1,
            passphrase: String::new(),
            db_cfg: DbCfg::ComputeBlockToMine,
        },
    )
    .expect("a real block log passes");

    db.put(0, vec![1, 2, 3], vec![9]);
    let err = chain_node::upgrade::upgrade_db_for_type(
        &"storage".to_string(),
        &mut db,
        &UpgradeCfg {
            raft_len: 1,
            passphrase: String::new(),
            db_cfg: DbCfg::ComputeBlockToMine,
        },
    )
    .expect_err("a key that is no block index fails");
    assert_eq!(err, UpgradeError::SchemaMismatch);
}
