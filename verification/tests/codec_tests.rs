use chain_node::codec::{
    emit_bytes, emit_u32, emit_u64, emit_u64_be, read_bytes, read_u32, read_u64,
};
use chain_node::transaction::{construct_payment_tx_ins, OutPoint, TxConstructor};

#[test]
fn integers_round_trip_through_the_framing() {
    let mut out = Vec::new();
    emit_u64(&mut out, 0x0102030405060708);
    emit_u32(&mut out, 77);
    assert_eq!(out.len(), 12);
    assert_eq!(&out[..8], &[8, 7, 6, 5, 4, 3, 2, 1]);

    let (v, pos) = read_u64(&out, 0).expect("eight bytes are there");
    assert_eq!(v, 0x0102030405060708);
    let (w, pos) = read_u32(&out, pos).expect("four bytes are there");
    assert_eq!(w, 77);
    assert_eq!(pos, out.len());
    assert!(read_u64(&out, pos).is_none());
}

#[test]
fn block_indices_are_big_endian() {
    let mut out = Vec::new();
    emit_u64_be(&mut out, 7);
    assert_eq!(out, vec![0, 0, 0, 0, 0, 0, 0, 7]);
}

#[test]
fn byte_strings_round_trip_length_prefixed() {
    let mut out = Vec::new();
    emit_bytes(&mut out, &vec![9, 8, 7]);
    assert_eq!(out.len(), 11);
    assert_eq!(out[0], 3);
    let (b, pos) = read_bytes(&out, 0).expect("framed bytes are there");
    assert_eq!(b, vec![9, 8, 7]);
    assert_eq!(pos, 11);

    // A length prefix running past the end is rejected.
    let mut short = Vec::new();
    emit_u64(&mut short, 100);
    short.push(1);
    assert!(read_bytes(&short, 0).is_none());
}

#[test]
fn outpoint_keys_are_injective_and_ordered() {
    let a = OutPoint::new("aa".to_string(), 0);
    let b = OutPoint::new("aa".to_string(), 1);
    let c = OutPoint::new("ab".to_string(), 0);
    assert_ne!(a.to_key(), b.to_key());
    assert_ne!(a.to_key(), c.to_key());
    assert_eq!(a.to_key(), OutPoint::new("aa".to_string(), 0).to_key());
}

#[test]
fn payment_inputs_carry_their_constructors() {
    let constructors = vec![
        TxConstructor {
            t_hash: "aa".to_string(),
            prev_n: 4,
            signatures: vec![vec![1u8; 64]],
            pub_keys: vec![vec![2u8; 32]],
        },
        TxConstructor {
            t_hash: "bb".to_string(),
            prev_n: 0,
            signatures: vec![vec![3u8; 64]],
            pub_keys: vec![vec![4u8; 32]],
        },
    ];
    let tx_ins = construct_payment_tx_ins(constructors);
    assert_eq!(tx_ins.len(), 2);
    assert_eq!(tx_ins[0].previous_out, OutPoint::new("aa".to_string(), 4));
    assert_eq!(tx_ins[0].signatures, vec![vec![1u8; 64]]);
    assert_eq!(tx_ins[1].previous_out, OutPoint::new("bb".to_string(), 0));
    assert_eq!(tx_ins[1].pub_keys, vec![vec![4u8; 32]]);
}

#[test]
fn transaction_hashes_are_stable_and_signature_independent() {
    let tx = chain_node::transaction::Transaction {
        inputs: vec![chain_node::transaction::TxIn {
            previous_out: OutPoint::new("aa".to_string(), 0),
            signatures: vec![vec![1u8; 64]],
            pub_keys: vec![vec![2u8; 32]],
        }],
        outputs: Vec::new(),
    };
    let mut stripped = tx.clone();
    stripped.inputs[0].signatures = vec![vec![9u8; 64]];
    let h1 = chain_node::transaction::construct_tx_hash(&tx);
    let h2 = chain_node::transaction::construct_tx_hash(&stripped);
    assert_eq!(h1, h2);
    assert_eq!(h1.len(), 64);

    let mut other = tx.clone();
    other.inputs[0].previous_out = OutPoint::new("ab".to_string(), 0);
    let h3 = chain_node::transaction::construct_tx_hash(&other);
    assert_ne!(h1, h3);
}
