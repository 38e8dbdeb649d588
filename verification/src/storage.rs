//! The storage node: the durable block log. A committed block is written as
//! one atomic batch — its bytes under the big-endian block index, and the
//! index under the block hash — and the acknowledgment is emitted exactly
//! when both entries stand in the store.

use vstd::prelude::*;
use crate::codec::{enc_u64_be, emit_u64_be};
use crate::kv::{apply_batch, col_map, col_put, BatchOp, DbMode, SimpleDb};
use crate::Response;

verus! {

/// How many committed entries pass between snapshots.
pub const SNAPSHOT_INTERVAL: u64 = 100;

/// A storage node's state: the block log and how far the Raft apply handler
/// has come.
pub struct StorageNode {
    pub db: SimpleDb,
    pub last_applied: u64,
    pub entries_since_snapshot: u64,
}

impl StorageNode {
    /// Index of the column keyed by block index.
    pub open spec fn blocks_col(&self) -> Seq<(Seq<u8>, Seq<u8>)> {
        self.db@[0]
    }

    /// Index of the column keyed by block hash.
    pub open spec fn hash_col(&self) -> Seq<(Seq<u8>, Seq<u8>)> {
        self.db@[1]
    }

    /// The node's invariant: a well-formed store with its two columns.
    pub open spec fn wf(&self) -> bool {
        &&& self.db.wf()
        &&& self.db@.len() == 2
    }

    /// A fresh storage node over an empty log.
    pub fn new(db_mode: DbMode) -> (r: Self)
        ensures
            r.wf(),
            r.blocks_col() == Seq::<(Seq<u8>, Seq<u8>)>::empty(),
            r.hash_col() == Seq::<(Seq<u8>, Seq<u8>)>::empty(),
            r.last_applied == 0,
            r.db.mode == db_mode,
    {
        let mut names: Vec<String> = Vec::new();
        names.push("blocks".to_owned());
        names.push("hash_index".to_owned());
        let mut db = SimpleDb::new_in_memory(names);
        db.mode = db_mode;
        StorageNode { db, last_applied: 0, entries_since_snapshot: 0 }
    }

    /// Applies one committed block: writes its bytes under the block index
    /// and the index under the block hash, in one atomic batch, and emits
    /// the acknowledgment exactly when both entries are in the store.
    pub fn apply_committed_block(
        &mut self,
        block_index: u64,
        block_bytes: Vec<u8>,
        block_hash: Vec<u8>,
    ) -> (r: Response)
        requires
            old(self).wf(),
        ensures
            final(self).wf(),
            final(self).blocks_col() == col_put(
                old(self).blocks_col(),
                enc_u64_be(block_index),
                block_bytes@,
            ),
            final(self).hash_col() == col_put(
                old(self).hash_col(),
                block_hash@,
                enc_u64_be(block_index),
            ),
            final(self).last_applied == block_index,
            r.success,
            r.reason@ == "Block complete stored"@,
            // The acknowledgment stands exactly when both entries do.
            r.success <==> ({
                let bm = col_map(final(self).blocks_col());
                let hm = col_map(final(self).hash_col());
                &&& bm.dom().contains(enc_u64_be(block_index))
                &&& bm[enc_u64_be(block_index)] == block_bytes@
                &&& hm.dom().contains(block_hash@)
                &&& hm[block_hash@] == enc_u64_be(block_index)
            }),
    {
        let mut index_key: Vec<u8> = Vec::new();
        emit_u64_be(&mut index_key, block_index);
        let mut index_val: Vec<u8> = Vec::new();
        emit_u64_be(&mut index_val, block_index);
        proof {
            crate::kv::lemma_col_map_put(self.db@[0], enc_u64_be(block_index), block_bytes@);
            crate::kv::lemma_col_map_put(self.db@[1], block_hash@, enc_u64_be(block_index));
        }
        let mut ops: Vec<BatchOp> = Vec::new();
        ops.push(BatchOp::Put(0, index_key, block_bytes));
        ops.push(BatchOp::Put(1, block_hash, index_val));
        let ghost opsv = ops@;
        let _applied = self.db.write_batch(ops);
        proof {
            let v0 = old(self).db@;
            assert(opsv.drop_first().drop_first() =~= Seq::<BatchOp>::empty());
            assert(opsv.drop_first()[0] == opsv[1]);
            let v1 = crate::kv::apply_op(v0, opsv[0]);
            let v2 = crate::kv::apply_op(v1, opsv[1]);
            assert(apply_batch(v0, opsv) == v2) by {
                assert(apply_batch(v0, opsv) == apply_batch(v1, opsv.drop_first()));
                assert(apply_batch(v1, opsv.drop_first()) == apply_batch(
                    v2,
                    opsv.drop_first().drop_first(),
                ));
                assert(apply_batch(v2, opsv.drop_first().drop_first()) == v2);
            }
            assert(self.db@[0] == col_put(v0[0], enc_u64_be(block_index), block_bytes@));
            assert(self.db@[1] == col_put(v0[1], block_hash@, enc_u64_be(block_index)));
        }
        self.last_applied = block_index;
        self.entries_since_snapshot = if self.entries_since_snapshot >= SNAPSHOT_INTERVAL {
            0
        } else {
            self.entries_since_snapshot + 1
        };
        proof {
            crate::kv::lemma_col_map_has(self.db@[0], enc_u64_be(block_index));
            crate::kv::lemma_col_map_has(self.db@[1], block_hash@);
            crate::kv::lemma_key_index(self.db@[0], enc_u64_be(block_index));
            crate::kv::lemma_key_index(self.db@[1], block_hash@);
        }
        Response { success: true, reason: "Block complete stored".to_owned() }
    }

    /// The stored bytes of the block at `block_index`, if any.
    pub fn get_stored_block(&self, block_index: u64) -> (r: Option<Vec<u8>>)
        requires
            self.wf(),
        ensures
            match r {
                Some(v) => col_map(self.blocks_col()).dom().contains(enc_u64_be(block_index))
                    && v@ == col_map(self.blocks_col())[enc_u64_be(block_index)],
                None => !col_map(self.blocks_col()).dom().contains(enc_u64_be(block_index)),
            },
    {
        let mut key: Vec<u8> = Vec::new();
        emit_u64_be(&mut key, block_index);
        proof {
            crate::kv::lemma_col_map_has(self.db@[0], enc_u64_be(block_index));
        }
        self.db.get(0, &key)
    }

    /// The stored index bytes of the block with the given hash, if any.
    pub fn get_block_index_by_hash(&self, block_hash: &Vec<u8>) -> (r: Option<Vec<u8>>)
        requires
            self.wf(),
        ensures
            match r {
                Some(v) => col_map(self.hash_col()).dom().contains(block_hash@) && v@ == col_map(
                    self.hash_col(),
                )[block_hash@],
                None => !col_map(self.hash_col()).dom().contains(block_hash@),
            },
    {
        proof {
            crate::kv::lemma_col_map_has(self.db@[1], block_hash@);
        }
        self.db.get(1, &block_hash)
    }

    /// Whether enough entries have been applied since the last snapshot.
    pub fn snapshot_due(&self) -> (r: bool)
        ensures
            r == (self.entries_since_snapshot >= SNAPSHOT_INTERVAL),
    {
        self.entries_since_snapshot >= SNAPSHOT_INTERVAL
    }
}

/// What the storage node's request loop does with one handled response.
#[derive(Debug, Clone, Copy, PartialEq, Eq, Structural)]
pub enum StorageAction {
    SendStoredBlock,
    NoAction,
}

/// Decides the storage node's follow-up to a handled event: the stored-block
/// acknowledgment goes back to compute exactly when a block was just
/// durably stored.
pub fn storage_response_action(r: &Response) -> (a: StorageAction)
    ensures
        a == StorageAction::SendStoredBlock <==> r.success && r.reason@
            == "Block complete stored"@,
{
    if !r.success {
        return StorageAction::NoAction;
    }
    let expect = "Block complete stored";
    let rb = r.reason.as_str().as_bytes_vec();
    let eb = expect.as_bytes_vec();
    let c = crate::order::bytes_cmp(&rb, &eb);
    let same = match c {
        crate::order::ByteOrd::Eq => true,
        _ => false,
    };
    proof {
        if same {
            crate::transaction::lemma_hash_bytes_injective(r.reason@, expect@);
        } else {
            if r.reason@ == expect@ {
                crate::order::lemma_bytes_lt_irrefl(rb@);
            }
        }
    }
    if same {
        StorageAction::SendStoredBlock
    } else {
        StorageAction::NoAction
    }
}

} // verus!
