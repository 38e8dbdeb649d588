use chain_node::kv::DbMode;
use chain_node::transaction::{OutPoint, TokenAmount};
use chain_node::wallet::{construct_address, PaymentAddress, WalletDb, WalletError};

fn wallet_with_outputs(outputs: &[(&str, u32, u64)]) -> WalletDb {
    let mut wallet = WalletDb::new(DbMode::InMemory);
    for (hash, n, amount) in outputs {
        let (address, _keys) = wallet.generate_payment_address();
        let out_p = OutPoint::new(hash.to_string(), *n);
        wallet
            .save_transaction_to_wallet(out_p, address)
            .expect("transaction record should save");
        let out_p = OutPoint::new(hash.to_string(), *n);
        wallet
            .save_payment_to_wallet(out_p, TokenAmount(*amount))
            .expect("payment should save");
    }
    wallet
}

#[test]
fn should_construct_address_valid() {
    let pk = vec![
        196, 234, 50, 92, 76, 102, 62, 4, 231, 81, 211, 133, 33, 164, 134, 52, 44, 68, 174, 18,
        14, 59, 108, 187, 150, 190, 169, 229, 215, 130, 78, 78,
    ];
    let addr = construct_address(&pk, 0);

    assert_eq!(
        addr,
        PaymentAddress {
            address: "fd86f2230f4fd5bfd9cd882732792279".to_string(),
            net: 0
        }
    );
}

#[test]
fn should_construct_address_valid_length() {
    let pk = vec![
        196, 234, 50, 92, 76, 102, 62, 4, 231, 81, 211, 133, 33, 164, 134, 52, 44, 68, 174, 18,
        14, 59, 108, 187, 150, 190, 169, 229, 215, 130, 78, 78,
    ];
    let addr = construct_address(&pk, 0);

    assert_eq!(addr.address.len(), 32);
}

#[test]
fn payment_with_exact_funds_consumes_everything() {
    let mut wallet = wallet_with_outputs(&[("h1", 0, 3), ("h2", 0, 5)]);
    let (tx_ins, change) = wallet
        .fetch_inputs_for_payment(TokenAmount(8))
        .expect("funds suffice");

    assert_eq!(tx_ins.len(), 2);
    assert_eq!(tx_ins[0].previous_out, OutPoint::new("h1".to_string(), 0));
    assert_eq!(tx_ins[1].previous_out, OutPoint::new("h2".to_string(), 0));
    assert!(change.is_none());
    let fund = wallet.get_fund_store();
    assert_eq!(fund.running_total, TokenAmount(0));
    assert!(fund.transactions.is_empty());
}

#[test]
fn payment_with_change_returns_difference() {
    let mut wallet = wallet_with_outputs(&[("h1", 0, 10)]);
    let old_addresses = wallet.get_known_address();
    assert_eq!(old_addresses.len(), 1);

    let (tx_ins, change) = wallet
        .fetch_inputs_for_payment(TokenAmount(3))
        .expect("funds suffice");

    assert_eq!(tx_ins.len(), 1);
    let change = change.expect("overshoot produces change");
    assert_eq!(change.amount, TokenAmount(7));
    assert!(change.transaction.inputs.is_empty());
    let fund = wallet.get_fund_store();
    assert_eq!(fund.running_total, TokenAmount(0));
    assert!(fund.transactions.is_empty());

    // The consumed output's address entry is gone; a fresh address for the
    // pending change can be generated and is then present.
    assert!(wallet.get_known_address().is_empty());
    let (new_address, _keys) = wallet.generate_payment_address();
    let known = wallet.get_known_address();
    assert_eq!(known, vec![new_address.address.clone()]);
    assert!(!known.contains(&old_addresses[0]));
}

#[test]
fn payment_with_insufficient_funds_is_rejected() {
    let mut wallet = wallet_with_outputs(&[("h1", 0, 2)]);
    let err = wallet
        .fetch_inputs_for_payment(TokenAmount(5))
        .expect_err("funds do not suffice");

    assert_eq!(err, WalletError::InsufficientFunds);
    let fund = wallet.get_fund_store();
    assert_eq!(fund.running_total, TokenAmount(2));
    assert_eq!(fund.transactions.len(), 1);
    assert_eq!(
        fund.transactions[0].0,
        OutPoint::new("h1".to_string(), 0)
    );
}

#[test]
fn consumption_follows_ascending_output_order() {
    // Recorded out of order; consumed in ascending order.
    let mut wallet = wallet_with_outputs(&[("b", 0, 4), ("a", 1, 1), ("a", 0, 2)]);
    let fund = wallet.get_fund_store();
    assert_eq!(fund.transactions[0].0, OutPoint::new("a".to_string(), 0));
    assert_eq!(fund.transactions[1].0, OutPoint::new("a".to_string(), 1));
    assert_eq!(fund.transactions[2].0, OutPoint::new("b".to_string(), 0));

    let (tx_ins, change) = wallet
        .fetch_inputs_for_payment(TokenAmount(3))
        .expect("funds suffice");
    assert_eq!(tx_ins.len(), 2);
    assert_eq!(tx_ins[0].previous_out, OutPoint::new("a".to_string(), 0));
    assert_eq!(tx_ins[1].previous_out, OutPoint::new("a".to_string(), 1));
    assert!(change.is_none());
    assert_eq!(wallet.get_fund_store().running_total, TokenAmount(4));
}

#[test]
fn running_total_always_matches_recorded_sum() {
    let wallet = wallet_with_outputs(&[("h1", 0, 3), ("h2", 0, 5), ("h3", 0, 7)]);
    let fund = wallet.get_fund_store();
    let sum: u64 = fund.transactions.iter().map(|e| e.1 .0).sum();
    assert_eq!(fund.running_total, TokenAmount(sum));
    assert_eq!(sum, 15);
}

#[test]
fn saving_same_output_again_replaces_its_amount() {
    let mut wallet = wallet_with_outputs(&[("h1", 0, 3)]);
    wallet
        .save_payment_to_wallet(OutPoint::new("h1".to_string(), 0), TokenAmount(9))
        .expect("payment should save");
    let fund = wallet.get_fund_store();
    assert_eq!(fund.transactions.len(), 1);
    assert_eq!(fund.running_total, TokenAmount(9));
}

#[test]
fn signed_inputs_verify_under_their_keys() {
    let mut wallet = wallet_with_outputs(&[("feed", 0, 4)]);
    let (tx_ins, _change) = wallet
        .fetch_inputs_for_payment(TokenAmount(4))
        .expect("funds suffice");
    let tx_in = &tx_ins[0];
    assert_eq!(tx_in.signatures.len(), 1);
    assert_eq!(tx_in.pub_keys.len(), 1);
    let msg = "feed".as_bytes().to_vec();
    assert!(chain_node::crypto::verify_signature(
        &tx_in.signatures[0],
        &msg,
        &tx_in.pub_keys[0]
    ));
    let wrong = "dead".as_bytes().to_vec();
    assert!(!chain_node::crypto::verify_signature(
        &tx_in.signatures[0],
        &wrong,
        &tx_in.pub_keys[0]
    ));
}

#[test]
fn delete_key_empties_the_fund_store() {
    let mut wallet = wallet_with_outputs(&[("h1", 0, 3)]);
    let key = chain_node::wallet::fund_key();
    wallet.delete_key(&key);
    let fund = wallet.get_fund_store();
    assert_eq!(fund.running_total, TokenAmount(0));
    assert!(fund.transactions.is_empty());
}

#[test]
fn transaction_store_round_trips_through_the_db() {
    let mut wallet = WalletDb::new(DbMode::InMemory);
    let (address, _keys) = wallet.generate_payment_address();
    let addr_string = address.address.clone();
    let out_p = OutPoint::new("cafe".to_string(), 2);
    wallet
        .save_transaction_to_wallet(out_p, address)
        .expect("transaction record should save");
    let out_p = OutPoint::new("cafe".to_string(), 2);
    let stored = wallet.get_transaction_store(&out_p);
    assert_eq!(stored.address, addr_string);
    assert_eq!(stored.net, 0);
    assert_eq!(wallet.get_transaction_address(&out_p), addr_string);
}

#[test]
fn free_fund_store_functions_round_trip() {
    let mut db = WalletDb::new_db(DbMode::InMemory);
    let empty = chain_node::wallet::get_fund_store(&db).expect("missing store reads as empty");
    assert_eq!(empty.running_total, TokenAmount(0));

    let mut fund = chain_node::wallet::FundStore {
        running_total: TokenAmount(0),
        transactions: Vec::new(),
    };
    fund.insert(OutPoint::new("aa".to_string(), 0), TokenAmount(4));
    fund.insert(OutPoint::new("ab".to_string(), 1), TokenAmount(6));
    assert_eq!(fund.running_total, TokenAmount(10));

    chain_node::wallet::set_fund_store(&mut db, fund);
    let read = chain_node::wallet::get_fund_store(&db).expect("stored encoding decodes");
    assert_eq!(read.running_total, TokenAmount(10));
    assert_eq!(read.transactions.len(), 2);
    assert_eq!(read.transactions[0].0, OutPoint::new("aa".to_string(), 0));
    assert_eq!(read.transactions[1].1, TokenAmount(6));
}

#[test]
fn corrupt_fund_store_is_reported() {
    let mut db = WalletDb::new_db(DbMode::InMemory);
    db.put(0, chain_node::wallet::fund_key(), vec![1, 2, 3]);
    let err = chain_node::wallet::get_fund_store(&db).expect_err("garbage should not decode");
    assert_eq!(err, WalletError::CorruptStore);
}

#[test]
fn with_seed_records_the_matching_seed() {
    let wallet = WalletDb::new(DbMode::InMemory);
    let seeds = vec![
        "0-aaaa-5".to_string(),
        "1-bbbb-7".to_string(),
        "2-cccc-9".to_string(),
    ];
    let wallet = wallet.with_seed(0, &seeds);
    let fund = wallet.get_fund_store();
    assert_eq!(fund.running_total, TokenAmount(5));
    assert_eq!(fund.transactions.len(), 1);
    assert_eq!(fund.transactions[0].0, OutPoint::new("aaaa".to_string(), 0));
    let known = wallet.get_known_address();
    assert_eq!(known.len(), 1);
}

#[test]
fn payment_transaction_pays_the_destination_and_returns_change() {
    let mut wallet = wallet_with_outputs(&[("h1", 0, 10)]);
    let (tx, change) = chain_node::user::make_payment_transaction(
        &mut wallet,
        "destination".to_string(),
        TokenAmount(3),
    )
    .expect("funds suffice");

    assert_eq!(tx.inputs.len(), 1);
    assert_eq!(tx.outputs.len(), 2);
    assert_eq!(
        tx.outputs[0].value,
        chain_node::transaction::Asset::Token(3)
    );
    assert_eq!(tx.outputs[0].address, "destination");
    assert_eq!(
        tx.outputs[1].value,
        chain_node::transaction::Asset::Token(7)
    );
    // The change goes to a freshly generated wallet address.
    assert!(wallet.get_known_address().contains(&tx.outputs[1].address));
    assert_eq!(change.expect("overshoot").amount, TokenAmount(7));

    let err = chain_node::user::make_payment_transaction(
        &mut wallet,
        "destination".to_string(),
        TokenAmount(1),
    )
    .expect_err("nothing left to spend");
    assert_eq!(err, WalletError::InsufficientFunds);
}

#[test]
fn free_address_store_functions_round_trip() {
    let mut db = WalletDb::new_db(DbMode::InMemory);
    let empty =
        chain_node::wallet::get_address_stores(&db).expect("missing store reads as empty");
    assert!(empty.is_empty());

    let (pk, sk) = chain_node::crypto::new_keypair();
    let stores = vec![(
        "addr1".to_string(),
        chain_node::wallet::AddressStore {
            public_key: pk.clone(),
            secret_key: sk.clone(),
        },
    )];
    chain_node::wallet::set_address_stores(&mut db, stores);
    let read = chain_node::wallet::get_address_stores(&db).expect("stored encoding decodes");
    assert_eq!(read.len(), 1);
    assert_eq!(read[0].0, "addr1");
    assert_eq!(read[0].1.public_key, pk);
    assert_eq!(read[0].1.secret_key, sk);

    let out_p = OutPoint::new("aa".to_string(), 0);
    let err = chain_node::wallet::get_transaction_store(&db, &out_p)
        .expect_err("nothing is stored under the output");
    assert_eq!(err, WalletError::CorruptStore);
}

#[test]
fn wallet_method_and_free_function_views_agree() {
    let mut wallet = wallet_with_outputs(&[("h1", 0, 3)]);
    let via_method = wallet.get_fund_store();
    let via_db = chain_node::wallet::get_fund_store(&wallet.db).expect("persisted store decodes");
    assert_eq!(via_method, via_db);

    let method_addrs = wallet.get_address_stores();
    let db_addrs =
        chain_node::wallet::get_address_stores(&wallet.db).expect("persisted store decodes");
    assert_eq!(method_addrs, db_addrs);
}

#[test]
fn a_second_payment_still_signs_for_the_remaining_outputs() {
    let mut wallet = wallet_with_outputs(&[("h1", 0, 3), ("h2", 0, 5)]);
    let (first, change) = wallet
        .fetch_inputs_for_payment(TokenAmount(3))
        .expect("funds suffice");
    assert_eq!(first.len(), 1);
    assert!(change.is_none());

    // The surviving output's record and owning address survived with it.
    let (second, change) = wallet
        .fetch_inputs_for_payment(TokenAmount(5))
        .expect("the remaining output is still spendable");
    assert_eq!(second.len(), 1);
    assert_eq!(second[0].previous_out, OutPoint::new("h2".to_string(), 0));
    assert!(change.is_none());
    assert_eq!(wallet.get_fund_store().running_total, TokenAmount(0));
}

#[test]
fn known_addresses_come_out_in_ascending_order() {
    let mut wallet = WalletDb::new(DbMode::InMemory);
    let mut generated: Vec<String> = Vec::new();
    for _ in 0..6 {
        let (address, _keys) = wallet.generate_payment_address();
        generated.push(address.address);
    }
    let known = wallet.get_known_address();
    assert_eq!(known.len(), 6);
    for pair in known.windows(2) {
        assert!(pair[0] < pair[1]);
    }
    let mut expected = generated;
    expected.sort();
    assert_eq!(known, expected);
}
