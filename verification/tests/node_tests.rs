use chain_node::compute::{
    check_pow, compute_response_action, ComputeAction, ComputeNode, RoundState, PARTITION_SIZE,
};
use chain_node::crypto::{new_keypair, sign_message};
use chain_node::kv::DbMode;
use chain_node::storage::{storage_response_action, StorageAction, StorageNode};
use chain_node::transaction::{Asset, OutPoint, Transaction, TxIn, TxOut};
use chain_node::utxo::UtxoSet;
use chain_node::Response;

fn token_out(address: &str, amount: u64) -> TxOut {
    TxOut {
        value: Asset::Token(amount),
        locktime: None,
        drs_tag: None,
        address: address.to_string(),
    }
}

fn seed_tx(outputs: Vec<TxOut>) -> Transaction {
    Transaction {
        inputs: Vec::new(),
        outputs,
    }
}

fn signed_input(prev_hash: &str, prev_n: u32) -> (TxIn, Vec<u8>) {
    let (pk, sk) = new_keypair();
    let msg = prev_hash.as_bytes().to_vec();
    let signature = sign_message(&msg, &sk);
    (
        TxIn {
            previous_out: OutPoint::new(prev_hash.to_string(), prev_n),
            signatures: vec![signature],
            pub_keys: vec![pk.clone()],
        },
        pk,
    )
}

#[test]
fn partition_fills_once_and_is_cleared_per_round() {
    let mut node = ComputeNode::new(vec![0xffu8; 33]);
    node.start_block_round();
    assert!(node.current_partition().is_empty());

    let mut last = None;
    for i in 0..PARTITION_SIZE {
        let response = node.receive_partition_request(format!("miner{}", i));
        assert!(response.success);
        last = Some(response);
    }
    assert_eq!(last.unwrap().reason, "Partition list is full");

    let members = node.current_partition();
    assert_eq!(members.len(), PARTITION_SIZE);
    for i in 0..PARTITION_SIZE {
        assert_eq!(members[i], format!("miner{}", i));
    }

    // A sixth request and a duplicate are both turned away.
    let overflow = node.receive_partition_request("miner9".to_string());
    assert!(!overflow.success);
    assert_eq!(node.current_partition().len(), PARTITION_SIZE);

    // The next round starts with an empty partition.
    node.start_block_round();
    assert!(node.current_partition().is_empty());
}

#[test]
fn duplicate_partition_request_is_turned_away() {
    let mut node = ComputeNode::new(vec![0xffu8; 33]);
    node.start_block_round();
    assert!(node.receive_partition_request("m1".to_string()).success);
    let dup = node.receive_partition_request("m1".to_string());
    assert!(!dup.success);
    assert_eq!(node.current_partition().len(), 1);
}

#[test]
fn mempool_admits_only_spendable_signed_transactions() {
    let mut node = ComputeNode::new(vec![0xffu8; 33]);
    let (tx_in, _pk) = signed_input("aa", 0);
    node.seed_uxto_set(vec![(
        "aa".to_string(),
        seed_tx(vec![token_out("dest", 4)]),
    )]);

    let tx = Transaction {
        inputs: vec![tx_in.clone()],
        outputs: vec![token_out("dest2", 4)],
    };
    let response = node.receive_transactions(vec![("t1".to_string(), tx.clone())]);
    assert!(response.success);
    assert_eq!(
        response.reason,
        "All transactions successfully added to tx pool"
    );
    assert_eq!(node.mempool.len(), 1);

    // A second transaction spending the same output conflicts and is
    // rejected; the response reports the partial outcome.
    let conflicting = Transaction {
        inputs: vec![tx_in],
        outputs: vec![token_out("dest3", 4)],
    };
    let response = node.receive_transactions(vec![("t2".to_string(), conflicting)]);
    assert!(!response.success);
    assert_eq!(
        response.reason,
        "Some transactions were not added to the tx pool; admitted: 0"
    );
    assert_eq!(node.mempool.len(), 1);
}

#[test]
fn mempool_rejects_unknown_outputs_and_bad_signatures() {
    let mut node = ComputeNode::new(vec![0xffu8; 33]);
    let (tx_in, _pk) = signed_input("aa", 0);

    // The referenced output is not in the UTXO set.
    let tx = Transaction {
        inputs: vec![tx_in],
        outputs: vec![token_out("dest", 4)],
    };
    let response = node.receive_transactions(vec![("t1".to_string(), tx)]);
    assert!(!response.success);
    assert!(node.mempool.is_empty());

    // The signature covers a different hash than the referenced output.
    node.seed_uxto_set(vec![(
        "bb".to_string(),
        seed_tx(vec![token_out("dest", 4)]),
    )]);
    let (mis_signed, _pk) = signed_input("aa", 0);
    let mut bad = mis_signed;
    bad.previous_out = OutPoint::new("bb".to_string(), 0);
    let tx = Transaction {
        inputs: vec![bad],
        outputs: vec![token_out("dest", 4)],
    };
    let response = node.receive_transactions(vec![("t2".to_string(), tx)]);
    assert!(!response.success);
    assert!(node.mempool.is_empty());
}

#[test]
fn applying_a_block_spends_and_produces_outputs() {
    let mut utxo = UtxoSet::new();
    utxo.insert(OutPoint::new("aa".to_string(), 0), token_out("old", 4));
    assert!(utxo.contains(&OutPoint::new("aa".to_string(), 0)));

    let (tx_in, _pk) = signed_input("aa", 0);
    let tx = Transaction {
        inputs: vec![tx_in],
        outputs: vec![token_out("new1", 3), token_out("new2", 1)],
    };
    let produced_hash = chain_node::transaction::construct_tx_hash(&tx);
    utxo.apply_block(vec![tx]);

    assert!(!utxo.contains(&OutPoint::new("aa".to_string(), 0)));
    assert!(utxo.contains(&OutPoint::new(produced_hash.clone(), 0)));
    assert!(utxo.contains(&OutPoint::new(produced_hash, 1)));
    assert_eq!(utxo.len(), 2);
}

#[test]
fn pow_is_accepted_once_from_a_partition_member() {
    let mut node = ComputeNode::new(vec![0xffu8; 33]);
    node.start_block_round();
    assert!(node.receive_partition_request("m1".to_string()).success);
    node.state = RoundState::Challenging;

    let header = vec![1u8, 2, 3];
    let nonce = vec![9u8];

    // A non-member's solution is discarded.
    let response = node.receive_pow(&"outsider".to_string(), &header, &nonce);
    assert!(!response.success);

    // The member's first valid solution is accepted and closes the round's
    // challenge, so a second submission is discarded.
    let response = node.receive_pow(&"m1".to_string(), &header, &nonce);
    assert!(response.success);
    assert_eq!(response.reason, "Received PoW successfully");
    let response = node.receive_pow(&"m1".to_string(), &header, &nonce);
    assert!(!response.success);
}

#[test]
fn pow_check_respects_the_target() {
    let header = vec![1u8, 2, 3];
    let nonce = vec![4u8];
    // Thirty-three 0xff bytes are above every 32-byte digest.
    assert!(check_pow(&header, &nonce, &vec![0xffu8; 33]));
    // Nothing beats an empty target.
    assert!(!check_pow(&header, &nonce, &Vec::new()));
}

#[test]
fn stored_block_is_acknowledged_and_retrievable() {
    let mut node = StorageNode::new(DbMode::InMemory);
    let block_bytes = vec![1u8, 2, 3, 4];
    let block_hash = vec![9u8; 32];
    let response = node.apply_committed_block(7, block_bytes.clone(), block_hash.clone());
    assert!(response.success);
    assert_eq!(response.reason, "Block complete stored");
    assert_eq!(node.last_applied, 7);

    let stored = node.get_stored_block(7).expect("block must be stored");
    assert_eq!(stored, block_bytes);
    let index = node
        .get_block_index_by_hash(&block_hash)
        .expect("index must be stored");
    assert_eq!(index, vec![0, 0, 0, 0, 0, 0, 0, 7]);
    assert!(node.get_stored_block(8).is_none());
}

#[test]
fn response_dispatch_matches_the_event_reasons() {
    let stored = Response {
        success: true,
        reason: "Block complete stored".to_string(),
    };
    assert_eq!(
        storage_response_action(&stored),
        StorageAction::SendStoredBlock
    );
    let other = Response {
        success: true,
        reason: "Snapshot applied".to_string(),
    };
    assert_eq!(storage_response_action(&other), StorageAction::NoAction);
    let failed = Response {
        success: false,
        reason: "Block complete stored".to_string(),
    };
    assert_eq!(storage_response_action(&failed), StorageAction::NoAction);

    let partition = Response {
        success: true,
        reason: "Partition request received successfully".to_string(),
    };
    assert_eq!(
        compute_response_action(&partition),
        ComputeAction::FloodRandNumToRequesters
    );
    let full = Response {
        success: true,
        reason: "Partition list is full".to_string(),
    };
    assert_eq!(
        compute_response_action(&full),
        ComputeAction::FloodListThenBlockToPartition
    );
    let pow = Response {
        success: true,
        reason: "Received PoW successfully".to_string(),
    };
    assert_eq!(
        compute_response_action(&pow),
        ComputeAction::SendBlockToStorageAndNotify
    );
    let failure = Response {
        success: false,
        reason: "Partition list is full".to_string(),
    };
    assert_eq!(compute_response_action(&failure), ComputeAction::NoAction);
}

#[test]
fn asset_addition_stays_within_a_variant() {
    assert_eq!(
        Asset::Token(2).checked_add(Asset::Token(3)),
        Some(Asset::Token(5))
    );
    assert_eq!(Asset::Token(u64::MAX).checked_add(Asset::Token(1)), None);
    assert_eq!(
        Asset::Data(vec![1, 2]).checked_add(Asset::Data(vec![3])),
        Some(Asset::Data(vec![1, 2, 3]))
    );
    assert_eq!(Asset::Token(1).checked_add(Asset::Data(vec![1])), None);
}

#[test]
fn merkle_root_pairs_digests_and_duplicates_the_odd_one() {
    let a = vec![1u8; 32];
    let b = vec![2u8; 32];
    let c = vec![3u8; 32];

    // A single digest is its own root.
    assert_eq!(
        chain_node::compute::merkle_root(vec![a.clone()]),
        a.clone()
    );

    // Two digests hash pairwise.
    let mut ab = a.clone();
    ab.extend_from_slice(&b);
    let hab = chain_node::crypto::sha3_256(&ab);
    assert_eq!(
        chain_node::compute::merkle_root(vec![a.clone(), b.clone()]),
        hab
    );

    // An odd last digest is paired with itself before the levels combine.
    let mut cc = c.clone();
    cc.extend_from_slice(&c);
    let hcc = chain_node::crypto::sha3_256(&cc);
    let mut top = hab.clone();
    top.extend_from_slice(&hcc);
    let root = chain_node::crypto::sha3_256(&top);
    assert_eq!(chain_node::compute::merkle_root(vec![a, b, c]), root);
}

#[test]
fn assembled_blocks_carry_the_merkle_root_in_hex() {
    let tx = seed_tx(vec![token_out("dest", 4)]);
    let block = chain_node::compute::assemble_block(
        "prev".to_string(),
        3,
        1234,
        vec![tx.clone()],
    );
    assert_eq!(block.header.height, 3);
    assert_eq!(block.header.timestamp, 1234);
    assert_eq!(block.header.prev_hash, "prev");
    assert!(block.header.nonce.is_empty());
    assert_eq!(block.transactions, vec![tx.clone()]);

    // One transaction: the root is that transaction's digest, which the
    // transaction identifier is the hex form of.
    assert_eq!(
        block.header.merkle_root,
        chain_node::transaction::construct_tx_hash(&tx)
    );
}

#[test]
fn reconnect_backoff_doubles_to_the_cap() {
    assert_eq!(chain_node::transport::reconnect_backoff_ms(0), 1000);
    assert_eq!(chain_node::transport::reconnect_backoff_ms(1), 2000);
    assert_eq!(chain_node::transport::reconnect_backoff_ms(4), 16000);
    assert_eq!(chain_node::transport::reconnect_backoff_ms(5), 30000);
    assert_eq!(chain_node::transport::reconnect_backoff_ms(100), 30000);
}

#[test]
fn malformed_signatures_are_rejected_not_fatal() {
    // Sixty-four bytes whose scalar half is far out of the reduced range:
    // verification reports failure instead of tearing the node down.
    let sig = vec![0xffu8; 64];
    let msg = b"aa".to_vec();
    let pk = vec![1u8; 32];
    assert!(!chain_node::crypto::verify_signature(&sig, &msg, &pk));

    // The same malformed signature inside a submitted transaction is a
    // rejected transaction, not a crash.
    let mut node = ComputeNode::new(vec![0xffu8; 33]);
    node.seed_uxto_set(vec![(
        "aa".to_string(),
        seed_tx(vec![token_out("dest", 4)]),
    )]);
    let tx = Transaction {
        inputs: vec![TxIn {
            previous_out: OutPoint::new("aa".to_string(), 0),
            signatures: vec![sig],
            pub_keys: vec![pk],
        }],
        outputs: vec![token_out("dest2", 4)],
    };
    let response = node.receive_transactions(vec![("t1".to_string(), tx)]);
    assert!(!response.success);
    assert!(node.mempool.is_empty());
}
