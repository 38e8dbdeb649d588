//! The compute node: the mempool and its admission rules, the partition
//! round that elects miners, proof-of-work acceptance, and the block it
//! assembles for storage.

use vstd::prelude::*;
use crate::codec::{enc_str, enc_u64, emit_u64, emit_bytes, emit_raw};
use crate::crypto::{sha3_256, sha3_256_of, verify_signature, PUBLIC_KEY_LEN, SIGNATURE_LEN};
use crate::order::{bytes_cmp, bytes_lt, ByteOrd};
use crate::transaction::{hash_bytes, OutPoint, Transaction, TxIn, TxOut};
use crate::utxo::{op_key, map_insert_all, UtxoSet};
use crate::Response;

verus! {

/// Number of miners elected into each round's partition.
pub const PARTITION_SIZE: usize = 5;

/// The header of a block: what the proof-of-work covers.
#[derive(Debug, Clone, PartialEq, Eq)]
pub struct BlockHeader {
    pub prev_hash: String,
    pub merkle_root: String,
    pub nonce: Vec<u8>,
    pub timestamp: u64,
    pub height: u64,
}

/// A block: a header over an ordered list of transactions.
#[derive(Debug, Clone, PartialEq, Eq)]
pub struct Block {
    pub header: BlockHeader,
    pub transactions: Vec<Transaction>,
}

/// Canonical encoding of a block header.
pub open spec fn enc_block_header(h: BlockHeader) -> Seq<u8> {
    enc_str(h.prev_hash@) + enc_str(h.merkle_root@) + crate::codec::enc_bytes(h.nonce@) + enc_u64(
        h.timestamp,
    ) + enc_u64(h.height)
}

/// Serializes a block header.
pub fn serialize_block_header(h: &BlockHeader) -> (r: Vec<u8>)
    ensures
        r@ == enc_block_header(*h),
{
    let mut out: Vec<u8> = Vec::new();
    let pb = h.prev_hash.as_str().as_bytes_vec();
    emit_bytes(&mut out, &pb);
    let mb = h.merkle_root.as_str().as_bytes_vec();
    emit_bytes(&mut out, &mb);
    emit_bytes(&mut out, &h.nonce);
    emit_u64(&mut out, h.timestamp);
    emit_u64(&mut out, h.height);
    proof {
        assert(out@ =~= enc_block_header(*h));
    }
    out
}

/// A solution is acceptable when the digest of the header bytes followed by
/// the nonce falls below the target.
pub open spec fn pow_acceptable(header: Seq<u8>, nonce: Seq<u8>, target: Seq<u8>) -> bool {
    bytes_lt(sha3_256_of(header + nonce), target)
}

/// Checks a proof-of-work solution against a target.
pub fn check_pow(header: &Vec<u8>, nonce: &Vec<u8>, target: &Vec<u8>) -> (r: bool)
    ensures
        r == pow_acceptable(header@, nonce@, target@),
{
    let mut tagged: Vec<u8> = Vec::new();
    emit_raw(&mut tagged, header);
    emit_raw(&mut tagged, nonce);
    proof {
        assert(tagged@ =~= header@ + nonce@);
    }
    let digest = sha3_256(&tagged);
    let c = bytes_cmp(&digest, target);
    match c {
        ByteOrd::Lt => true,
        ByteOrd::Eq => {
            proof {
                crate::order::lemma_bytes_lt_irrefl(digest@);
            }
            false
        },
        ByteOrd::Gt => {
            proof {
                if bytes_lt(digest@, target@) {
                    crate::order::lemma_bytes_lt_trans(digest@, target@, digest@);
                    crate::order::lemma_bytes_lt_irrefl(digest@);
                }
            }
            false
        },
    }
}

/// The decimal digits a number is written with, highest first.
pub open spec fn dec_chars(v: u64) -> Seq<char>
    decreases v,
{
    if v < 10 {
        seq![crate::crypto::hex_digit((v % 10) as u8)]
    } else {
        dec_chars(v / 10) + seq![crate::crypto::hex_digit((v % 10) as u8)]
    }
}

/// Appends a number's decimal form to a string.
fn append_decimal(out: &mut String, v: u64)
    ensures
        final(out)@ == old(out)@ + dec_chars(v),
    decreases v,
{
    if v >= 10 {
        append_decimal(out, v / 10);
    }
    let d = (v % 10) as u8;
    let ds: &'static str = if d == 0 {
        "0"
    } else if d == 1 {
        "1"
    } else if d == 2 {
        "2"
    } else if d == 3 {
        "3"
    } else if d == 4 {
        "4"
    } else if d == 5 {
        "5"
    } else if d == 6 {
        "6"
    } else if d == 7 {
        "7"
    } else if d == 8 {
        "8"
    } else {
        "9"
    };
    proof {
        reveal_strlit("0");
        reveal_strlit("1");
        reveal_strlit("2");
        reveal_strlit("3");
        reveal_strlit("4");
        reveal_strlit("5");
        reveal_strlit("6");
        reveal_strlit("7");
        reveal_strlit("8");
        reveal_strlit("9");
        assert(ds@ =~= seq![crate::crypto::hex_digit(d)]);
    }
    out.append(ds);
    proof {
        assert(out@ =~= old(out)@ + dec_chars(v));
    }
}

/// Whether some mempool transaction already spends the output under `k`.
pub open spec fn pool_spends(pool: Seq<(String, Transaction)>, k: (Seq<char>, u32)) -> bool {
    exists|i: int, j: int|
        0 <= i < pool.len() && 0 <= j < pool[i].1.inputs@.len() && op_key(
            (#[trigger] pool[i].1.inputs@[j]).previous_out,
        ) == k
}

/// Every input of the transaction refers to an output in the map.
pub open spec fn tx_inputs_present(tx: Transaction, u: Map<(Seq<char>, u32), TxOut>) -> bool {
    forall|i: int|
        0 <= i < tx.inputs@.len() ==> u.dom().contains(
            op_key((#[trigger] tx.inputs@[i]).previous_out),
        )
}

/// A transaction the mempool accepts: it has inputs, each signed validly,
/// each spending an output the node still holds, and none already spent by
/// an admitted transaction.
pub open spec fn tx_admissible(
    tx: Transaction,
    u: Map<(Seq<char>, u32), TxOut>,
    pool: Seq<(String, Transaction)>,
) -> bool {
    &&& tx.inputs@.len() >= 1
    &&& forall|i: int| 0 <= i < tx.inputs@.len() ==> (#[trigger] tx.inputs@[i]).sigs_valid()
    &&& tx_inputs_present(tx, u)
    &&& forall|i: int|
        0 <= i < tx.inputs@.len() ==> !pool_spends(
            pool,
            op_key((#[trigger] tx.inputs@[i]).previous_out),
        )
}

/// The mempool after offering it each transaction in turn; first-in wins on
/// conflicts.
pub open spec fn admit_all(
    pool: Seq<(String, Transaction)>,
    u: Map<(Seq<char>, u32), TxOut>,
    txs: Seq<(String, Transaction)>,
) -> Seq<(String, Transaction)>
    decreases txs.len(),
{
    if txs.len() == 0 {
        pool
    } else {
        admit_all(
            if tx_admissible(txs[0].1, u, pool) {
                pool.push(txs[0])
            } else {
                pool
            },
            u,
            txs.drop_first(),
        )
    }
}

/// Two transactions spending no common output.
pub open spec fn no_shared_input(t1: Transaction, t2: Transaction) -> bool {
    forall|a: int, b: int|
        0 <= a < t1.inputs@.len() && 0 <= b < t2.inputs@.len() ==> op_key(
            (#[trigger] t1.inputs@[a]).previous_out,
        ) != op_key((#[trigger] t2.inputs@[b]).previous_out)
}

/// No two admitted transactions share an input.
pub open spec fn pool_no_conflicts(pool: Seq<(String, Transaction)>) -> bool {
    forall|i: int, j: int|
        0 <= i < j < pool.len() ==> no_shared_input((#[trigger] pool[i]).1, (#[trigger] pool[j]).1)
}

/// Admission keeps whatever was already in the pool, in place.
pub proof fn lemma_admit_all_prefix(
    pool: Seq<(String, Transaction)>,
    u: Map<(Seq<char>, u32), TxOut>,
    txs: Seq<(String, Transaction)>,
)
    ensures
        admit_all(pool, u, txs).len() >= pool.len(),
        forall|j: int| 0 <= j < pool.len() ==> admit_all(pool, u, txs)[j] == pool[j],
    decreases txs.len(),
{
    if txs.len() > 0 {
        if tx_admissible(txs[0].1, u, pool) {
            lemma_admit_all_prefix(pool.push(txs[0]), u, txs.drop_first());
            assert(forall|j: int| 0 <= j < pool.len() ==> pool.push(txs[0])[j] == pool[j]);
        } else {
            lemma_admit_all_prefix(pool, u, txs.drop_first());
        }
    }
}

/// Everything admission adds passed the admission rules against the same
/// unspent-output map: in particular, each of its inputs referred to an
/// output present at admission time.
pub proof fn lemma_admit_all_inputs_present(
    pool: Seq<(String, Transaction)>,
    u: Map<(Seq<char>, u32), TxOut>,
    txs: Seq<(String, Transaction)>,
)
    ensures
        forall|j: int|
            pool.len() <= j < admit_all(pool, u, txs).len() ==> tx_inputs_present(
                (#[trigger] admit_all(pool, u, txs)[j]).1,
                u,
            ),
    decreases txs.len(),
{
    if txs.len() > 0 {
        if tx_admissible(txs[0].1, u, pool) {
            lemma_admit_all_inputs_present(pool.push(txs[0]), u, txs.drop_first());
            lemma_admit_all_prefix(pool.push(txs[0]), u, txs.drop_first());
            assert forall|j: int|
                pool.len() <= j < admit_all(pool, u, txs).len() implies tx_inputs_present(
                (#[trigger] admit_all(pool, u, txs)[j]).1,
                u,
            ) by {
                assert(admit_all(pool, u, txs) == admit_all(pool.push(txs[0]), u, txs.drop_first()));
                if j == pool.len() {
                    assert(admit_all(pool.push(txs[0]), u, txs.drop_first())[j] == pool.push(
                        txs[0],
                    )[j]);
                    assert(pool.push(txs[0])[j] == txs[0]);
                } else {
                    assert(tx_inputs_present(
                        admit_all(pool.push(txs[0]), u, txs.drop_first())[j].1,
                        u,
                    ));
                }
            }
        } else {
            lemma_admit_all_inputs_present(pool, u, txs.drop_first());
            assert(admit_all(pool, u, txs) == admit_all(pool, u, txs.drop_first()));
            assert forall|j: int|
                pool.len() <= j < admit_all(pool, u, txs).len() implies tx_inputs_present(
                (#[trigger] admit_all(pool, u, txs)[j]).1,
                u,
            ) by {
                assert(tx_inputs_present(admit_all(pool, u, txs.drop_first())[j].1, u));
            }
        }
    }
}

/// Adding an admissible transaction keeps the pool conflict-free.
pub proof fn lemma_pool_push_no_conflicts(
    pool: Seq<(String, Transaction)>,
    u: Map<(Seq<char>, u32), TxOut>,
    e: (String, Transaction),
)
    requires
        pool_no_conflicts(pool),
        tx_admissible(e.1, u, pool),
    ensures
        pool_no_conflicts(pool.push(e)),
{
    let p2 = pool.push(e);
    assert forall|i: int, j: int| 0 <= i < j < p2.len() implies no_shared_input(
        (#[trigger] p2[i]).1,
        (#[trigger] p2[j]).1,
    ) by {
        if j < pool.len() {
            assert(p2[i] == pool[i] && p2[j] == pool[j]);
        } else {
            assert(p2[i] == pool[i] && p2[j] == e);
            assert forall|a: int, b: int|
                0 <= a < pool[i].1.inputs@.len() && 0 <= b < e.1.inputs@.len() implies op_key(
                (#[trigger] pool[i].1.inputs@[a]).previous_out,
            ) != op_key((#[trigger] e.1.inputs@[b]).previous_out) by {
                if op_key(pool[i].1.inputs@[a].previous_out) == op_key(
                    e.1.inputs@[b].previous_out,
                ) {
                    assert(pool_spends(pool, op_key(e.1.inputs@[b].previous_out)));
                }
            }
        }
    }
}

/// Admission never lets two pool transactions share an input.
pub proof fn lemma_admit_all_no_conflicts(
    pool: Seq<(String, Transaction)>,
    u: Map<(Seq<char>, u32), TxOut>,
    txs: Seq<(String, Transaction)>,
)
    requires
        pool_no_conflicts(pool),
    ensures
        pool_no_conflicts(admit_all(pool, u, txs)),
    decreases txs.len(),
{
    if txs.len() > 0 {
        if tx_admissible(txs[0].1, u, pool) {
            let p2 = pool.push(txs[0]);
            assert(pool_no_conflicts(p2)) by {
                assert forall|i: int, j: int| 0 <= i < j < p2.len() implies no_shared_input(
                    (#[trigger] p2[i]).1,
                    (#[trigger] p2[j]).1,
                ) by {
                    if j < pool.len() {
                        assert(p2[i] == pool[i] && p2[j] == pool[j]);
                    } else {
                        assert(p2[i] == pool[i] && p2[j] == txs[0]);
                        assert forall|a: int, b: int|
                            0 <= a < pool[i].1.inputs@.len() && 0 <= b
                                < txs[0].1.inputs@.len() implies op_key(
                            (#[trigger] pool[i].1.inputs@[a]).previous_out,
                        ) != op_key((#[trigger] txs[0].1.inputs@[b]).previous_out) by {
                            if op_key(pool[i].1.inputs@[a].previous_out) == op_key(
                                txs[0].1.inputs@[b].previous_out,
                            ) {
                                assert(pool_spends(
                                    pool,
                                    op_key(txs[0].1.inputs@[b].previous_out),
                                ));
                            }
                        }
                    }
                }
            }
            lemma_admit_all_no_conflicts(p2, u, txs.drop_first());
        } else {
            lemma_admit_all_no_conflicts(pool, u, txs.drop_first());
        }
    }
}

/// Checks one input's signatures against the hash it spends.
fn check_tx_in_sigs(tx_in: &TxIn) -> (r: bool)
    ensures
        r == tx_in.sigs_valid(),
{
    if tx_in.signatures.len() != tx_in.pub_keys.len() {
        return false;
    }
    if tx_in.signatures.len() == 0 {
        return false;
    }
    let msg = tx_in.previous_out.t_hash.as_str().as_bytes_vec();
    let mut i: usize = 0;
    let n = tx_in.signatures.len();
    while i < n
        invariant
            n == tx_in.signatures@.len() == tx_in.pub_keys@.len(),
            i <= n,
            msg@ == hash_bytes(tx_in.previous_out.t_hash@),
            forall|j: int|
                0 <= j < i ==> (#[trigger] tx_in.signatures@[j])@.len() == SIGNATURE_LEN
                    && tx_in.pub_keys@[j]@.len() == PUBLIC_KEY_LEN
                    && crate::crypto::signature_valid(
                    tx_in.signatures@[j]@,
                    hash_bytes(tx_in.previous_out.t_hash@),
                    tx_in.pub_keys@[j]@,
                ),
        decreases n - i,
    {
        if tx_in.signatures[i].len() != 64 {
            proof {
                assert((tx_in.signatures@[i as int])@.len() != 64);
            }
            return false;
        }
        if tx_in.pub_keys[i].len() != 32 {
            proof {
                assert((tx_in.signatures@[i as int])@.len() == 64);
            }
            return false;
        }
        if !verify_signature(&tx_in.signatures[i], &msg, &tx_in.pub_keys[i]) {
            proof {
                assert((tx_in.signatures@[i as int])@.len() == 64);
            }
            return false;
        }
        i = i + 1;
    }
    true
}

/// Checks whether the mempool already spends the output under `op`.
fn pool_spends_exec(pool: &Vec<(String, Transaction)>, op: &OutPoint) -> (r: bool)
    ensures
        r == pool_spends(pool@, op_key(*op)),
{
    let mut i: usize = 0;
    let n = pool.len();
    while i < n
        invariant
            n == pool@.len(),
            i <= n,
            forall|a: int, b: int|
                0 <= a < i && 0 <= b < pool@[a].1.inputs@.len() ==> op_key(
                    (#[trigger] pool@[a].1.inputs@[b]).previous_out,
                ) != op_key(*op),
        decreases n - i,
    {
        let mut j: usize = 0;
        let m = pool[i].1.inputs.len();
        while j < m
            invariant
                n == pool@.len(),
                i < n,
                m == pool@[i as int].1.inputs@.len(),
                j <= m,
                forall|b: int|
                    0 <= b < j ==> op_key((#[trigger] pool@[i as int].1.inputs@[b]).previous_out)
                        != op_key(*op),
        decreases m - j,
        {
            let c = pool[i].1.inputs[j].previous_out.cmp_order(op);
            let same = match c {
                ByteOrd::Eq => true,
                _ => false,
            };
            if same {
                return true;
            }
            proof {
                if op_key(pool@[i as int].1.inputs@[j as int].previous_out) == op_key(*op) {
                    crate::order::lemma_bytes_lt_irrefl(hash_bytes(op.t_hash@));
                }
            }
            j = j + 1;
        }
        i = i + 1;
    }
    proof {
        if pool_spends(pool@, op_key(*op)) {
            let (a, b) = choose|a: int, b: int|
                0 <= a < pool@.len() && 0 <= b < pool@[a].1.inputs@.len() && op_key(
                    (#[trigger] pool@[a].1.inputs@[b]).previous_out,
                ) == op_key(*op);
            assert(op_key(pool@[a].1.inputs@[b].previous_out) != op_key(*op));
        }
    }
    false
}

/// Checks all the admission rules for one transaction.
fn check_tx_admissible(tx: &Transaction, utxo: &UtxoSet, pool: &Vec<(String, Transaction)>) -> (r:
    bool)
    requires
        utxo.wf(),
    ensures
        r == tx_admissible(*tx, utxo@, pool@),
{
    if tx.inputs.len() == 0 {
        return false;
    }
    let mut i: usize = 0;
    let n = tx.inputs.len();
    while i < n
        invariant
            utxo.wf(),
            n == tx.inputs@.len(),
            i <= n,
            forall|j: int|
                0 <= j < i ==> (#[trigger] tx.inputs@[j]).sigs_valid() && utxo@.dom().contains(
                    op_key(tx.inputs@[j].previous_out),
                ) && !pool_spends(pool@, op_key(tx.inputs@[j].previous_out)),
        decreases n - i,
    {
        if !check_tx_in_sigs(&tx.inputs[i]) {
            return false;
        }
        if !utxo.contains(&tx.inputs[i].previous_out) {
            return false;
        }
        if pool_spends_exec(pool, &tx.inputs[i].previous_out) {
            return false;
        }
        i = i + 1;
    }
    true
}

/// The state the compute node's block round is in.
#[derive(Debug, Clone, Copy, PartialEq, Eq, Structural)]
pub enum RoundState {
    Idle,
    Accumulating,
    PartitionOpen,
    Challenging,
    Assembling,
    Notifying,
}

/// The compute node: mempool, unspent outputs, the current partition and the
/// block round's state.
pub struct ComputeNode {
    pub utxo: UtxoSet,
    pub mempool: Vec<(String, Transaction)>,
    pub partition_list: Vec<String>,
    pub state: RoundState,
    pub current_block: Option<Block>,
    pub pow_target: Vec<u8>,
    pub block_sent: bool,
}

/// No miner endpoint appears in the partition twice.
pub open spec fn partition_distinct(s: Seq<String>) -> bool {
    forall|i: int, j: int| 0 <= i < j < s.len() ==> (#[trigger] s[i])@ != (#[trigger] s[j])@
}

/// Whether the partition already holds this miner endpoint.
pub open spec fn partition_has(s: Seq<String>, m: Seq<char>) -> bool {
    exists|i: int| 0 <= i < s.len() && (#[trigger] s[i])@ == m
}

impl ComputeNode {
    /// The node's invariant: well-formed outputs, a conflict-free mempool,
    /// and a partition of at most `PARTITION_SIZE` distinct miners.
    pub open spec fn wf(&self) -> bool {
        &&& self.utxo.wf()
        &&& pool_no_conflicts(self.mempool@)
        &&& self.partition_list@.len() <= PARTITION_SIZE
        &&& partition_distinct(self.partition_list@)
    }

    /// A fresh node with the given proof-of-work target.
    pub fn new(pow_target: Vec<u8>) -> (r: Self)
        ensures
            r.wf(),
            r.mempool@.len() == 0,
            r.partition_list@.len() == 0,
            r.state == RoundState::Idle,
            r.current_block is None,
            r.block_sent == false,
            r.utxo@ == Map::<(Seq<char>, u32), TxOut>::empty(),
            r.pow_target == pow_target,
    {
        ComputeNode {
            utxo: UtxoSet::new(),
            mempool: Vec::new(),
            partition_list: Vec::new(),
            state: RoundState::Idle,
            current_block: None,
            pow_target,
            block_sent: false,
        }
    }

    /// Seeds the unspent-output set with the outputs of the given
    /// transactions, keyed by the hashes they are given under.
    pub fn seed_uxto_set(&mut self, seed: Vec<(String, Transaction)>)
        requires
            old(self).wf(),
            forall|i: int|
                0 <= i < seed@.len() ==> (#[trigger] seed@[i]).1.outputs@.len() <= u32::MAX,
        ensures
            final(self).wf(),
            final(self).utxo@ == map_insert_all(old(self).utxo@, seed_entries(seed@)),
            final(self).mempool == old(self).mempool,
            final(self).partition_list == old(self).partition_list,
            final(self).state == old(self).state,
    {
        let ghost sd = seed@;
        let mut rest = seed;
        let total = rest.len();
        proof {
            assert(sd.len() == total);
        }
        let mut i: usize = 0;
        while rest.len() > 0
            invariant
                self.utxo.wf(),
                i + rest@.len() == sd.len() <= usize::MAX,
                rest@ == sd.skip(i as int),
                self.utxo@ == map_insert_all(old(self).utxo@, seed_entries(sd.take(i as int))),
                forall|m: int| 0 <= m < sd.len() ==> (#[trigger] sd[m]).1.outputs@.len() <= u32::MAX,
                self.mempool == old(self).mempool,
                self.partition_list == old(self).partition_list,
                self.state == old(self).state,
                self.current_block == old(self).current_block,
                self.pow_target == old(self).pow_target,
                self.block_sent == old(self).block_sent,
            decreases rest@.len(),
    {
            let (hash, tx) = rest.remove(0);
            proof {
                assert(sd.skip(i as int)[0] == sd[i as int]);
                assert(rest@ =~= sd.skip(i + 1));
            }
            let ghost hg = hash;
            let ghost txg = tx;
            let mut outs = tx.outputs;
            let mut j: usize = 0;
            proof {
                assert(outs@ =~= txg.outputs@.skip(0));
                assert(seed_entries(sd.take(i as int)) + hash_entries(hg@, txg).take(0) =~=
                    seed_entries(sd.take(i as int)));
            }
            while outs.len() > 0
                invariant
                    self.utxo.wf(),
                    j + outs@.len() == txg.outputs@.len() <= u32::MAX,
                    outs@ == txg.outputs@.skip(j as int),
                    hg@ == hash@,
                    self.utxo@ == map_insert_all(
                        old(self).utxo@,
                        seed_entries(sd.take(i as int)) + hash_entries(hg@, txg).take(j as int),
                    ),
                    self.mempool == old(self).mempool,
                    self.partition_list == old(self).partition_list,
                    self.state == old(self).state,
                    self.current_block == old(self).current_block,
                    self.pow_target == old(self).pow_target,
                    self.block_sent == old(self).block_sent,
                decreases outs@.len(),
            {
                let out = outs.remove(0);
                proof {
                    assert(txg.outputs@.skip(j as int)[0] == txg.outputs@[j as int]);
                    assert(outs@ =~= txg.outputs@.skip(j + 1));
                }
                let op = OutPoint { t_hash: hash.clone(), n: j as u32 };
                self.utxo.insert(op, out);
                proof {
                    let es0 = seed_entries(sd.take(i as int)) + hash_entries(hg@, txg).take(
                        j as int,
                    );
                    let es1 = seed_entries(sd.take(i as int)) + hash_entries(hg@, txg).take(j + 1);
                    assert(es1.drop_last() =~= es0);
                    assert(es1.last() == ((hg@, j as u32), txg.outputs@[j as int]));
                    assert(self.utxo@ =~= map_insert_all(old(self).utxo@, es1));
                }
                j = j + 1;
            }
            i = i + 1;
            proof {
                assert(hash_entries(hg@, txg).take(txg.outputs@.len() as int) =~= hash_entries(
                    hg@,
                    txg,
                ));
                assert(sd.take(i as int).drop_last() =~= sd.take(i - 1));
                assert(sd.take(i as int).last() == (hg, txg));
                assert(seed_entries(sd.take(i as int)) =~= seed_entries(sd.take(i - 1))
                    + hash_entries(hg@, txg));
                crate::utxo::lemma_map_insert_all_append(
                    old(self).utxo@,
                    seed_entries(sd.take(i - 1)),
                    hash_entries(hg@, txg),
                );
            }
        }
        proof {
            assert(sd.take(sd.len() as int) =~= sd);
        }
    }

    /// Offers a batch of transactions to the mempool, first to last. Each is
    /// admitted exactly when it passes the admission rules against the
    /// node's unspent outputs and the pool as admitted so far; the response
    /// reports success exactly when every one was admitted. Every admitted
    /// transaction spends only outputs present at admission time.
    pub fn receive_transactions(&mut self, transactions: Vec<(String, Transaction)>) -> (r:
        Response)
        requires
            old(self).wf(),
        ensures
            final(self).wf(),
            final(self).mempool@ == admit_all(
                old(self).mempool@,
                old(self).utxo@,
                transactions@,
            ),
            final(self).utxo == old(self).utxo,
            final(self).partition_list == old(self).partition_list,
            final(self).state == old(self).state,
            r.success == (final(self).mempool@.len() == old(self).mempool@.len()
                + transactions@.len()),
            r.success ==> r.reason@ == "All transactions successfully added to tx pool"@,
            !r.success ==> r.reason@
                == "Some transactions were not added to the tx pool; admitted: "@ + dec_chars(
                (final(self).mempool@.len() - old(self).mempool@.len()) as u64,
            ),
            forall|j: int|
                old(self).mempool@.len() <= j < final(self).mempool@.len() ==> tx_inputs_present(
                    (#[trigger] final(self).mempool@[j]).1,
                    old(self).utxo@,
                ),
    {
        let ghost txs = transactions@;
        let ghost pool0 = self.mempool@;
        let ghost u = self.utxo@;
        let pool0_len = self.mempool.len();
        let txs_len = transactions.len();
        let mut rest = transactions;
        while rest.len() > 0
            invariant
                self.utxo.wf(),
                pool_no_conflicts(self.mempool@),
                u == self.utxo@,
                admit_all(pool0, u, txs) == admit_all(self.mempool@, u, rest@),
                self.mempool@.len() + rest@.len() <= pool0.len() + txs.len(),
                self.utxo == old(self).utxo,
                self.partition_list == old(self).partition_list,
                self.state == old(self).state,
                self.current_block == old(self).current_block,
                self.pow_target == old(self).pow_target,
                self.block_sent == old(self).block_sent,
                self.partition_list@.len() <= PARTITION_SIZE,
                partition_distinct(self.partition_list@),
            decreases rest@.len(),
        {
            let ghost pre = rest@;
            let entry = rest.remove(0);
            proof {
                assert(pre.drop_first() =~= rest@);
                assert(pre[0] == entry);
                assert(admit_all(self.mempool@, u, pre) == admit_all(
                    if tx_admissible(entry.1, u, self.mempool@) {
                        self.mempool@.push(entry)
                    } else {
                        self.mempool@
                    },
                    u,
                    rest@,
                ));
            }
            let accepted = check_tx_admissible(&entry.1, &self.utxo, &self.mempool);
            if accepted {
                proof {
                    lemma_pool_push_no_conflicts(self.mempool@, u, entry);
                }
                self.mempool.push(entry);
            }
        }
        proof {
            lemma_admit_all_prefix(pool0, u, txs);
            lemma_admit_all_inputs_present(pool0, u, txs);
            lemma_admit_all_len(pool0, u, txs);
        }
        let added = self.mempool.len() - pool0_len;
        if added == txs_len {
            Response {
                success: true,
                reason: "All transactions successfully added to tx pool".to_owned(),
            }
        } else {
            let mut reason = "Some transactions were not added to the tx pool; admitted: "
                .to_owned();
            append_decimal(&mut reason, added as u64);
            Response { success: false, reason }
        }
    }

    /// Appends a miner to the round's partition. A duplicate request or a
    /// full partition leaves the list alone; the response says when the
    /// partition has just become full.
    pub fn receive_partition_request(&mut self, miner_endpoint: String) -> (r: Response)
        requires
            old(self).wf(),
        ensures
            final(self).wf(),
            final(self).utxo == old(self).utxo,
            final(self).mempool == old(self).mempool,
            final(self).state == old(self).state,
            (old(self).partition_list@.len() >= PARTITION_SIZE || partition_has(
                old(self).partition_list@,
                miner_endpoint@,
            )) ==> final(self).partition_list == old(self).partition_list && !r.success,
            (old(self).partition_list@.len() < PARTITION_SIZE && !partition_has(
                old(self).partition_list@,
                miner_endpoint@,
            )) ==> final(self).partition_list@ == old(self).partition_list@.push(miner_endpoint)
                && r.success && (r.reason@ == "Partition list is full"@
                <==> final(self).partition_list@.len() == PARTITION_SIZE),
    {
        let ghost orig = self.partition_list@;
        if self.partition_list.len() >= PARTITION_SIZE {
            return Response { success: false, reason: "Partition list is full".to_owned() };
        }
        let mkey = miner_endpoint.as_str().as_bytes_vec();
        let mut i: usize = 0;
        let n = self.partition_list.len();
        while i < n
            invariant
                *self == *old(self),
                old(self).wf(),
                old(self).partition_list@.len() < PARTITION_SIZE,
                n == self.partition_list@.len(),
                i <= n,
                mkey@ == hash_bytes(miner_endpoint@),
                forall|j: int| 0 <= j < i ==> (#[trigger] self.partition_list@[j])@
                    != miner_endpoint@,
            decreases n - i,
        {
            let ekey = self.partition_list[i].as_str().as_bytes_vec();
            let c = bytes_cmp(&ekey, &mkey);
            let same = match c {
                ByteOrd::Eq => true,
                _ => false,
            };
            if same {
                proof {
                    crate::transaction::lemma_hash_bytes_injective(
                        self.partition_list@[i as int]@,
                        miner_endpoint@,
                    );
                    assert(old(self).partition_list@[i as int]@ == miner_endpoint@);
                    assert(partition_has(old(self).partition_list@, miner_endpoint@));
                }
                return Response {
                    success: false,
                    reason: "Partition request already received".to_owned(),
                };
            }
            proof {
                if self.partition_list@[i as int]@ == miner_endpoint@ {
                    crate::order::lemma_bytes_lt_irrefl(mkey@);
                }
            }
            i = i + 1;
        }
        proof {
            assert forall|ii: int| 0 <= ii < old(self).partition_list@.len() implies (
            #[trigger] old(self).partition_list@[ii])@ != miner_endpoint@ by {
                assert(self.partition_list@[ii]@ != miner_endpoint@);
            }
            assert(!partition_has(old(self).partition_list@, miner_endpoint@));
        }
        self.partition_list.push(miner_endpoint);
        proof {
            assert forall|a: int, b: int| 0 <= a < b < self.partition_list@.len() implies (
            #[trigger] self.partition_list@[a])@ != (#[trigger] self.partition_list@[b])@ by {
                if b < self.partition_list@.len() - 1 {
                    assert(orig[a]@ != orig[b]@);
                } else {
                    assert(self.partition_list@[a] == orig[a]);
                }
            }
        }
        proof {
            assert(self.partition_list@ == old(self).partition_list@.push(miner_endpoint));
        }
        if self.partition_list.len() == PARTITION_SIZE {
            let r = Response { success: true, reason: "Partition list is full".to_owned() };
            proof {
                assert(r.reason@ == "Partition list is full"@);
                assert(self.partition_list@.len() == PARTITION_SIZE);
            }
            r
        } else {
            proof {
                reveal_strlit("Partition list is full");
                reveal_strlit("Partition request received successfully");
            }
            let r = Response {
                success: true,
                reason: "Partition request received successfully".to_owned(),
            };
            proof {
                assert(r.reason@ == "Partition request received successfully"@);
                assert(r.reason@ != "Partition list is full"@);
                assert(self.partition_list@.len() != PARTITION_SIZE);
            }
            r
        }
    }

    /// A copy of the current partition, in arrival order.
    pub fn current_partition(&self) -> (r: Vec<String>)
        ensures
            r@.len() == self.partition_list@.len(),
            forall|i: int| 0 <= i < r@.len() ==> (#[trigger] r@[i])@ == self.partition_list@[i]@,
    {
        let mut out: Vec<String> = Vec::new();
        let mut i: usize = 0;
        while i < self.partition_list.len()
            invariant
                i <= self.partition_list@.len(),
                out@.len() == i,
                forall|j: int| 0 <= j < i ==> (#[trigger] out@[j])@ == self.partition_list@[j]@,
            decreases self.partition_list@.len() - i,
        {
            out.push(self.partition_list[i].clone());
            i = i + 1;
        }
        out
    }

    /// Empties the partition once its round consumed it.
    pub fn clear_partition_list(&mut self)
        requires
            old(self).wf(),
        ensures
            final(self).wf(),
            final(self).partition_list@.len() == 0,
            final(self).utxo == old(self).utxo,
            final(self).mempool == old(self).mempool,
            final(self).state == old(self).state,
    {
        self.partition_list.clear();
    }

    /// Opens a new block round: the partition starts empty, nothing has been
    /// sent to storage, and partition requests are welcome.
    pub fn start_block_round(&mut self)
        requires
            old(self).wf(),
        ensures
            final(self).wf(),
            final(self).partition_list@.len() == 0,
            final(self).state == RoundState::PartitionOpen,
            final(self).block_sent == false,
            final(self).utxo == old(self).utxo,
            final(self).mempool == old(self).mempool,
    {
        self.partition_list.clear();
        self.block_sent = false;
        self.state = RoundState::PartitionOpen;
    }

    /// Whether a candidate block is waiting.
    pub fn has_current_block(&self) -> (r: bool)
        ensures
            r == (self.current_block is Some),
    {
        match &self.current_block {
            Some(_) => true,
            None => false,
        }
    }
}

/// The entries produced by one seeded transaction under a given hash.
pub open spec fn hash_entries(h: Seq<char>, tx: Transaction) -> Seq<((Seq<char>, u32), TxOut)> {
    Seq::new(tx.outputs@.len(), |j: int| ((h, j as u32), tx.outputs@[j]))
}

/// The entries a whole seed produces, in order.
pub open spec fn seed_entries(seed: Seq<(String, Transaction)>) -> Seq<((Seq<char>, u32), TxOut)>
    decreases seed.len(),
{
    if seed.len() == 0 {
        Seq::empty()
    } else {
        seed_entries(seed.drop_last()) + hash_entries(seed.last().0@, seed.last().1)
    }
}

/// Admission grows the pool by exactly the number of admissible
/// transactions, at most one per offered transaction.
pub proof fn lemma_admit_all_len(
    pool: Seq<(String, Transaction)>,
    u: Map<(Seq<char>, u32), TxOut>,
    txs: Seq<(String, Transaction)>,
)
    ensures
        pool.len() <= admit_all(pool, u, txs).len() <= pool.len() + txs.len(),
    decreases txs.len(),
{
    if txs.len() > 0 {
        if tx_admissible(txs[0].1, u, pool) {
            lemma_admit_all_len(pool.push(txs[0]), u, txs.drop_first());
        } else {
            lemma_admit_all_len(pool, u, txs.drop_first());
        }
    }
}

impl ComputeNode {
    /// Whether the current partition holds this miner.
    pub fn partition_contains(&self, miner_endpoint: &String) -> (r: bool)
        ensures
            r == partition_has(self.partition_list@, miner_endpoint@),
    {
        let mkey = miner_endpoint.as_str().as_bytes_vec();
        let mut i: usize = 0;
        let n = self.partition_list.len();
        while i < n
            invariant
                n == self.partition_list@.len(),
                i <= n,
                mkey@ == hash_bytes(miner_endpoint@),
                forall|j: int| 0 <= j < i ==> (#[trigger] self.partition_list@[j])@
                    != miner_endpoint@,
            decreases n - i,
        {
            let ekey = self.partition_list[i].as_str().as_bytes_vec();
            let c = bytes_cmp(&ekey, &mkey);
            let same = match c {
                ByteOrd::Eq => true,
                _ => false,
            };
            if same {
                proof {
                    crate::transaction::lemma_hash_bytes_injective(
                        self.partition_list@[i as int]@,
                        miner_endpoint@,
                    );
                    assert(partition_has(self.partition_list@, miner_endpoint@)) by {
                        assert((self.partition_list@[i as int])@ == miner_endpoint@);
                    }
                }
                return true;
            }
            proof {
                if self.partition_list@[i as int]@ == miner_endpoint@ {
                    crate::order::lemma_bytes_lt_irrefl(mkey@);
                }
            }
            i = i + 1;
        }
        proof {
            if partition_has(self.partition_list@, miner_endpoint@) {
                let w = choose|w: int|
                    0 <= w < self.partition_list@.len() && (#[trigger] self.partition_list@[w])@
                        == miner_endpoint@;
            }
        }
        false
    }

    /// Handles one proof-of-work submission: the first valid solution from a
    /// partition member while the challenge is open is accepted and closes
    /// the challenge, so every later submission in the round is discarded.
    pub fn receive_pow(&mut self, miner_endpoint: &String, header_bytes: &Vec<u8>, nonce: &Vec<u8>) -> (r:
        Response)
        requires
            old(self).wf(),
        ensures
            final(self).wf(),
            ({
                let accepted = old(self).state == RoundState::Challenging && partition_has(
                    old(self).partition_list@,
                    miner_endpoint@,
                ) && pow_acceptable(header_bytes@, nonce@, old(self).pow_target@);
                &&& r.success == accepted
                &&& (accepted ==> final(self).state == RoundState::Assembling && r.reason@
                    == "Received PoW successfully"@)
                &&& (!accepted ==> *final(self) == *old(self) && r.reason@
                    == "PoW received is invalid"@)
            }),
            final(self).utxo == old(self).utxo,
            final(self).mempool == old(self).mempool,
            final(self).partition_list == old(self).partition_list,
    {
        let open_challenge = match self.state {
            RoundState::Challenging => true,
            _ => false,
        };
        if !open_challenge {
            return Response { success: false, reason: "PoW received is invalid".to_owned() };
        }
        if !self.partition_contains(miner_endpoint) {
            return Response { success: false, reason: "PoW received is invalid".to_owned() };
        }
        if !check_pow(header_bytes, nonce, &self.pow_target) {
            return Response { success: false, reason: "PoW received is invalid".to_owned() };
        }
        self.state = RoundState::Assembling;
        Response { success: true, reason: "Received PoW successfully".to_owned() }
    }
}

/// The partition never holds more than `PARTITION_SIZE` miners, nor the
/// same miner twice; a fresh round starts it empty (see
/// `ComputeNode::start_block_round`).
pub proof fn lemma_partition_bounded(node: ComputeNode)
    requires
        node.wf(),
    ensures
        node.partition_list@.len() <= PARTITION_SIZE,
        partition_distinct(node.partition_list@),
{
}

/// What the compute node's request loop does next with one handled
/// response.
#[derive(Debug, Clone, Copy, PartialEq, Eq, Structural)]
pub enum ComputeAction {
    FloodRandNumToRequesters,
    FloodListThenBlockToPartition,
    SendBlockToStorageAndNotify,
    NoAction,
}

/// Compares a response reason against an expected reason.
fn reason_is(r: &Response, expected: &str) -> (b: bool)
    ensures
        b == (r.reason@ == expected@),
{
    let rb = r.reason.as_str().as_bytes_vec();
    let eb = expected.as_bytes_vec();
    let c = bytes_cmp(&rb, &eb);
    let same = match c {
        ByteOrd::Eq => true,
        _ => false,
    };
    proof {
        if same {
            crate::transaction::lemma_hash_bytes_injective(r.reason@, expected@);
        } else {
            if r.reason@ == expected@ {
                crate::order::lemma_bytes_lt_irrefl(rb@);
            }
        }
    }
    same
}

/// Decides the compute node's follow-up to one handled event, as its
/// request loop performs it: a partition request draws the random number
/// flood, a full partition draws the list flood and then the block
/// challenge, and an accepted proof of work sends the block to storage and
/// floods the found notification.
pub fn compute_response_action(r: &Response) -> (a: ComputeAction)
    ensures
        a == ComputeAction::FloodRandNumToRequesters <==> r.success && r.reason@
            == "Partition request received successfully"@,
        a == ComputeAction::FloodListThenBlockToPartition <==> r.success && r.reason@
            == "Partition list is full"@,
        a == ComputeAction::SendBlockToStorageAndNotify <==> r.success && r.reason@
            == "Received PoW successfully"@,
        a == ComputeAction::NoAction <==> !r.success || (r.reason@
            != "Partition request received successfully"@ && r.reason@
            != "Partition list is full"@ && r.reason@ != "Received PoW successfully"@),
{
    proof {
        reveal_strlit("Partition request received successfully");
        reveal_strlit("Partition list is full");
        reveal_strlit("Received PoW successfully");
        assert("Partition request received successfully"@.len() == 39);
        assert("Partition list is full"@.len() == 22);
        assert("Received PoW successfully"@.len() == 25);
    }
    if !r.success {
        return ComputeAction::NoAction;
    }
    if reason_is(r, "Partition request received successfully") {
        return ComputeAction::FloodRandNumToRequesters;
    }
    if reason_is(r, "Partition list is full") {
        return ComputeAction::FloodListThenBlockToPartition;
    }
    if reason_is(r, "Received PoW successfully") {
        return ComputeAction::SendBlockToStorageAndNotify;
    }
    ComputeAction::NoAction
}

/// One level of the merkle tree over digests: adjacent digests pairwise
/// hashed, an odd last one hashed with itself.
pub open spec fn merkle_level(ids: Seq<Seq<u8>>) -> Seq<Seq<u8>> {
    Seq::new(
        ((ids.len() + 1) / 2) as nat,
        |i: int|
            if 2 * i + 1 < ids.len() {
                sha3_256_of(ids[2 * i] + ids[2 * i + 1])
            } else {
                sha3_256_of(ids[2 * i] + ids[2 * i])
            },
    )
}

/// The merkle root of a list of digests: levels are hashed pairwise until
/// one digest remains. An empty list hashes to the digest of nothing.
pub open spec fn merkle_root_of(ids: Seq<Seq<u8>>) -> Seq<u8>
    decreases ids.len(),
{
    if ids.len() == 0 {
        sha3_256_of(Seq::empty())
    } else if ids.len() == 1 {
        ids[0]
    } else {
        merkle_root_of(merkle_level(ids))
    }
}

/// The digests a block's merkle tree is built over: one per transaction, of
/// its signature-stripped serialization.
pub open spec fn tx_digests(txs: Seq<Transaction>) -> Seq<Seq<u8>> {
    txs.map_values(|t: Transaction| sha3_256_of(crate::transaction::enc_transaction_stripped(t)))
}

/// Computes the merkle root of a list of digests.
pub fn merkle_root(ids: Vec<Vec<u8>>) -> (r: Vec<u8>)
    ensures
        r@ == merkle_root_of(ids.deep_view()),
{
    if ids.len() == 0 {
        let empty: Vec<u8> = Vec::new();
        proof {
            assert(empty@ =~= Seq::<u8>::empty());
        }
        return sha3_256(&empty);
    }
    let mut level = ids;
    while level.len() > 1
        invariant
            level@.len() >= 1,
            merkle_root_of(level.deep_view()) == merkle_root_of(ids.deep_view()),
        decreases level@.len(),
    {
        let ghost ld = level.deep_view();
        let mut next: Vec<Vec<u8>> = Vec::new();
        let mut i: usize = 0;
        proof {
            assert(next.deep_view() =~~= merkle_level(ld).take(0));
        }
        while i < level.len()
            invariant
                ld == level.deep_view(),
                level@.len() == ld.len() <= usize::MAX,
                i <= level@.len(),
                i % 2 == 0 || i == level@.len(),
                next.deep_view() == merkle_level(ld).take(((i + 1) / 2) as int),
            decreases level@.len() - i,
        {
            let mut pair = crate::kv::copy_bytes(&level[i]);
            let second = if i + 1 < level.len() {
                i + 1
            } else {
                i
            };
            emit_raw(&mut pair, &level[second]);
            proof {
                assert(pair@ =~= ld[i as int] + ld[second as int]);
            }
            let digest = sha3_256(&pair);
            next.push(digest);
            let ni = second + 1;
            proof {
                let k = ((ni + 1) / 2) as int;
                assert(merkle_level(ld).take(k).drop_last() =~~= merkle_level(ld).take(k - 1));
                assert(merkle_level(ld).take(k).last() == merkle_level(ld)[k - 1]);
                assert(next.deep_view() =~~= merkle_level(ld).take(k));
            }
            i = ni;
        }
        proof {
            assert(next.deep_view() =~~= merkle_level(ld)) by {
                assert(merkle_level(ld).take(merkle_level(ld).len() as int) =~~= merkle_level(ld));
            }
        }
        level = next;
    }
    proof {
        assert(level.deep_view()[0] == level@[0]@);
    }
    let r = crate::kv::copy_bytes(&level[0]);
    r
}

/// Assembles a candidate block: the header carries the merkle root of the
/// transactions' digests in hex, with an empty nonce for the proof-of-work
/// round to fill.
pub fn assemble_block(
    prev_hash: String,
    height: u64,
    timestamp: u64,
    transactions: Vec<Transaction>,
) -> (r: Block)
    ensures
        r.header.prev_hash@ == prev_hash@,
        r.header.height == height,
        r.header.timestamp == timestamp,
        r.header.nonce@.len() == 0,
        r.header.merkle_root@ == crate::crypto::hex_of(merkle_root_of(tx_digests(transactions@))),
        r.transactions == transactions,
    {
    let mut ids: Vec<Vec<u8>> = Vec::new();
    let mut i: usize = 0;
    while i < transactions.len()
        invariant
            i <= transactions@.len(),
            ids.deep_view() == tx_digests(transactions@).take(i as int),
        decreases transactions@.len() - i,
    {
        let stripped = crate::transaction::serialize_transaction_stripped(&transactions[i]);
        let digest = sha3_256(&stripped);
        ids.push(digest);
        i = i + 1;
        proof {
            assert(tx_digests(transactions@).take(i as int).drop_last() =~~= tx_digests(
                transactions@,
            ).take(i - 1));
            assert(ids.deep_view() =~~= tx_digests(transactions@).take(i as int));
        }
    }
    proof {
        assert(tx_digests(transactions@).take(transactions@.len() as int) =~~= tx_digests(
            transactions@,
        ));
    }
    let root = merkle_root(ids);
    let merkle_root_hex = crate::crypto::hex_encode(&root);
    Block {
        header: BlockHeader {
            prev_hash,
            merkle_root: merkle_root_hex,
            nonce: Vec::new(),
            timestamp,
            height,
        },
        transactions,
    }
}

} // verus!
