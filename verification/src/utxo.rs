//! The set of unspent transaction outputs: a map from output reference to
//! output, updated atomically per block — every spent reference removed,
//! every produced output inserted.

use vstd::prelude::*;
use crate::order::ByteOrd;
use crate::transaction::{same_out_point, OutPoint, Transaction, TxOut};

verus! {

/// The key a UTXO entry is addressed by: the hash characters and the output
/// index.
pub open spec fn op_key(op: OutPoint) -> (Seq<char>, u32) {
    (op.t_hash@, op.n)
}

/// No two entries name the same output.
pub open spec fn utxo_unique(s: Seq<(OutPoint, TxOut)>) -> bool {
    forall|i: int, j: int|
        0 <= i < j < s.len() ==> op_key((#[trigger] s[i]).0) != op_key((#[trigger] s[j]).0)
}

/// Index of the entry for `k`, or -1.
pub open spec fn utxo_index(s: Seq<(OutPoint, TxOut)>, k: (Seq<char>, u32)) -> int
    decreases s.len(),
{
    if s.len() == 0 {
        -1
    } else if op_key(s[0].0) == k {
        0
    } else {
        let r = utxo_index(s.drop_first(), k);
        if r < 0 {
            -1
        } else {
            r + 1
        }
    }
}

/// Whether the set holds an output under `k`.
pub open spec fn utxo_has(s: Seq<(OutPoint, TxOut)>, k: (Seq<char>, u32)) -> bool {
    utxo_index(s, k) >= 0
}

/// The set as a map from key to output.
pub open spec fn utxo_map(s: Seq<(OutPoint, TxOut)>) -> Map<(Seq<char>, u32), TxOut>
    decreases s.len(),
{
    if s.len() == 0 {
        Map::empty()
    } else {
        utxo_map(s.drop_last()).insert(op_key(s.last().0), s.last().1)
    }
}

/// `utxo_index` points at the entry for `k` whenever it is non-negative.
pub proof fn lemma_utxo_index(s: Seq<(OutPoint, TxOut)>, k: (Seq<char>, u32))
    ensures
        utxo_index(s, k) >= 0 ==> {
            &&& utxo_index(s, k) < s.len()
            &&& op_key(s[utxo_index(s, k)].0) == k
            &&& forall|j: int| 0 <= j < utxo_index(s, k) ==> op_key((#[trigger] s[j]).0) != k
        },
        utxo_index(s, k) < 0 ==> (forall|j: int|
            0 <= j < s.len() ==> op_key((#[trigger] s[j]).0) != k),
    decreases s.len(),
{
    if s.len() > 0 && op_key(s[0].0) != k {
        lemma_utxo_index(s.drop_first(), k);
        assert(forall|j: int| 0 < j < s.len() ==> s[j] == s.drop_first()[j - 1]);
    }
}

/// A scan that found `k` at `i`, with no earlier match, found `utxo_index`.
pub proof fn lemma_utxo_index_at(s: Seq<(OutPoint, TxOut)>, k: (Seq<char>, u32), i: int)
    requires
        0 <= i < s.len(),
        op_key(s[i].0) == k,
        forall|j: int| 0 <= j < i ==> op_key((#[trigger] s[j]).0) != k,
    ensures
        utxo_index(s, k) == i,
    decreases s.len(),
{
    if i > 0 {
        lemma_utxo_index_at(s.drop_first(), k, i - 1);
        assert(forall|j: int| 0 <= j < s.drop_first().len() ==> s.drop_first()[j] == s[j + 1]);
    }
}

/// Looking a key up in the entries is looking it up in the map.
pub proof fn lemma_utxo_map_has(s: Seq<(OutPoint, TxOut)>, k: (Seq<char>, u32))
    requires
        utxo_unique(s),
    ensures
        utxo_has(s, k) == utxo_map(s).dom().contains(k),
        utxo_has(s, k) ==> utxo_map(s)[k] == s[utxo_index(s, k)].1,
    decreases s.len(),
{
    lemma_utxo_index(s, k);
    if s.len() > 0 {
        let t = s.drop_last();
        assert(utxo_unique(t)) by {
            assert(forall|i: int| 0 <= i < t.len() ==> t[i] == s[i]);
        }
        lemma_utxo_map_has(t, k);
        lemma_utxo_index(t, k);
        if op_key(s.last().0) == k {
            lemma_utxo_index_at(s, k, s.len() - 1);
        } else {
            if utxo_has(t, k) {
                assert(s[utxo_index(t, k)] == t[utxo_index(t, k)]);
                lemma_utxo_index_at(s, k, utxo_index(t, k));
            }
            if utxo_has(s, k) {
                assert(utxo_index(s, k) < s.len() - 1);
                assert(t[utxo_index(s, k)] == s[utxo_index(s, k)]);
                lemma_utxo_index_at(t, k, utxo_index(s, k));
            }
        }
    }
}

/// Removing the entry for `k` removes `k` from the map.
pub proof fn lemma_utxo_map_remove(s: Seq<(OutPoint, TxOut)>, k: (Seq<char>, u32))
    requires
        utxo_unique(s),
        utxo_has(s, k),
    ensures
        utxo_map(s.remove(utxo_index(s, k))) == utxo_map(s).remove(k),
        utxo_unique(s.remove(utxo_index(s, k))),
    decreases s.len(),
{
    lemma_utxo_index(s, k);
    let i = utxo_index(s, k);
    let r = s.remove(i);
    s.remove_ensures(i);
    assert(utxo_unique(r)) by {
        assert forall|x: int, y: int| 0 <= x < y < r.len() implies op_key((#[trigger] r[x]).0)
            != op_key((#[trigger] r[y]).0) by {
            let ox = if x < i {
                x
            } else {
                x + 1
            };
            let oy = if y < i {
                y
            } else {
                y + 1
            };
            assert(r[x] == s[ox] && r[y] == s[oy]);
            assert(op_key(s[ox].0) != op_key(s[oy].0));
        }
    }
    if i == s.len() - 1 {
        assert(r =~= s.drop_last());
        assert(!utxo_has(s.drop_last(), k)) by {
            let t = s.drop_last();
            lemma_utxo_index(t, k);
            if utxo_has(t, k) {
                assert(t[utxo_index(t, k)] == s[utxo_index(t, k)]);
                assert(op_key(s[utxo_index(t, k)].0) == k && op_key(s[s.len() - 1].0) == k);
            }
        }
        assert(utxo_unique(s.drop_last())) by {
            assert(forall|j: int| 0 <= j < s.drop_last().len() ==> s.drop_last()[j] == s[j]);
        }
        lemma_utxo_map_has(s.drop_last(), k);
        assert(utxo_map(r) =~= utxo_map(s).remove(k));
    } else {
        let t = s.drop_last();
        assert(utxo_unique(t)) by {
            assert(forall|j: int| 0 <= j < t.len() ==> t[j] == s[j]);
        }
        assert(op_key(t[i].0) == k);
        assert(utxo_has(t, k)) by {
            lemma_utxo_index_at(t, k, i);
        }
        assert(utxo_index(t, k) == i) by {
            lemma_utxo_index_at(t, k, i);
        }
        lemma_utxo_map_remove(t, k);
        assert(r.drop_last() =~= t.remove(i));
        assert(r.last() == s.last());
        assert(op_key(s.last().0) != k);
        assert(utxo_map(r) == utxo_map(t.remove(i)).insert(op_key(s.last().0), s.last().1));
        assert(utxo_map(r) =~= utxo_map(s).remove(k));
    }
}

/// Appending a fresh entry inserts its key into the map.
pub proof fn lemma_utxo_map_push(s: Seq<(OutPoint, TxOut)>, e: (OutPoint, TxOut))
    requires
        utxo_unique(s),
        !utxo_has(s, op_key(e.0)),
    ensures
        utxo_map(s.push(e)) == utxo_map(s).insert(op_key(e.0), e.1),
        utxo_unique(s.push(e)),
{
    assert(s.push(e).drop_last() =~= s);
    lemma_utxo_index(s, op_key(e.0));
    assert forall|x: int, y: int| 0 <= x < y < s.push(e).len() implies op_key(
        (#[trigger] s.push(e)[x]).0,
    ) != op_key((#[trigger] s.push(e)[y]).0) by {
        if y < s.len() {
            assert(s.push(e)[x] == s[x] && s.push(e)[y] == s[y]);
        } else {
            assert(s.push(e)[x] == s[x]);
        }
    }
}

/// Replacing the entry for `k` overwrites `k` in the map.
pub proof fn lemma_utxo_map_update(s: Seq<(OutPoint, TxOut)>, e: (OutPoint, TxOut))
    requires
        utxo_unique(s),
        utxo_has(s, op_key(e.0)),
    ensures
        utxo_map(s.update(utxo_index(s, op_key(e.0)), e)) == utxo_map(s).insert(op_key(e.0), e.1),
        utxo_unique(s.update(utxo_index(s, op_key(e.0)), e)),
    decreases s.len(),
{
    lemma_utxo_index(s, op_key(e.0));
    let i = utxo_index(s, op_key(e.0));
    let r = s.update(i, e);
    assert(utxo_unique(r)) by {
        assert forall|x: int, y: int| 0 <= x < y < r.len() implies op_key((#[trigger] r[x]).0)
            != op_key((#[trigger] r[y]).0) by {
            assert(op_key(s[x].0) != op_key(s[y].0));
            assert(op_key(r[x].0) == op_key(s[x].0) && op_key(r[y].0) == op_key(s[y].0));
        }
    }
    if i == s.len() - 1 {
        assert(r.drop_last() =~= s.drop_last());
        assert(utxo_map(r) =~= utxo_map(s).insert(op_key(e.0), e.1));
    } else {
        let t = s.drop_last();
        assert(utxo_unique(t)) by {
            assert(forall|j: int| 0 <= j < t.len() ==> t[j] == s[j]);
        }
        assert(op_key(t[i].0) == op_key(e.0));
        lemma_utxo_index_at(t, op_key(e.0), i);
        lemma_utxo_map_update(t, e);
        assert(r.drop_last() =~= t.update(i, e));
        assert(r.last() == s.last());
        assert(op_key(s.last().0) != op_key(e.0));
        assert(utxo_map(r) == utxo_map(t.update(i, e)).insert(op_key(s.last().0), s.last().1));
        assert(utxo_map(r) =~= utxo_map(s).insert(op_key(e.0), e.1));
    }
}

/// The set of unspent outputs a node tracks.
pub struct UtxoSet {
    pub entries: Vec<(OutPoint, TxOut)>,
}

impl UtxoSet {
    /// The set as a map.
    pub open spec fn view(&self) -> Map<(Seq<char>, u32), TxOut> {
        utxo_map(self.entries@)
    }

    /// The set's invariant: one entry per output.
    pub open spec fn wf(&self) -> bool {
        utxo_unique(self.entries@)
    }

    /// An empty set.
    pub fn new() -> (r: Self)
        ensures
            r.wf(),
            r@ == Map::<(Seq<char>, u32), TxOut>::empty(),
    {
        let r = UtxoSet { entries: Vec::new() };
        proof {
            assert(r@ =~= Map::<(Seq<char>, u32), TxOut>::empty());
        }
        r
    }

    /// Index of the entry for `op`, if present.
    fn find(&self, op: &OutPoint) -> (r: Option<usize>)
        ensures
            match r {
                Some(i) => i < self.entries@.len() && op_key(self.entries@[i as int].0) == op_key(
                    *op,
                ) && utxo_index(self.entries@, op_key(*op)) == i,
                None => !utxo_has(self.entries@, op_key(*op)),
            },
    {
        let mut i: usize = 0;
        let n = self.entries.len();
        while i < n
            invariant
                n == self.entries@.len(),
                i <= n,
                forall|j: int| 0 <= j < i ==> op_key((#[trigger] self.entries@[j]).0) != op_key(*op),
            decreases n - i,
        {
            let c = self.entries[i].0.cmp_order(op);
            let same = match c {
                ByteOrd::Eq => true,
                _ => false,
            };
            if same {
                proof {
                    lemma_utxo_index_at(self.entries@, op_key(*op), i as int);
                }
                return Some(i);
            }
            proof {
                if op_key(self.entries@[i as int].0) == op_key(*op) {
                    crate::order::lemma_bytes_lt_irrefl(
                        crate::transaction::hash_bytes(op.t_hash@),
                    );
                }
            }
            i = i + 1;
        }
        proof {
            lemma_utxo_index(self.entries@, op_key(*op));
        }
        None
    }

    /// Whether the set holds the output `op` refers to.
    pub fn contains(&self, op: &OutPoint) -> (r: bool)
        requires
            self.wf(),
        ensures
            r == self@.dom().contains(op_key(*op)),
    {
        proof {
            lemma_utxo_map_has(self.entries@, op_key(*op));
        }
        match self.find(op) {
            Some(_) => true,
            None => false,
        }
    }

    /// Removes the output `op` refers to, if present.
    pub fn remove(&mut self, op: &OutPoint)
        requires
            old(self).wf(),
        ensures
            final(self).wf(),
            final(self)@ == old(self)@.remove(op_key(*op)),
    {
        proof {
            lemma_utxo_map_has(self.entries@, op_key(*op));
        }
        match self.find(op) {
            Some(i) => {
                proof {
                    lemma_utxo_map_remove(self.entries@, op_key(*op));
                }
                self.entries.remove(i);
            },
            None => {
                proof {
                    assert(self@.remove(op_key(*op)) =~= self@);
                }
            },
        }
    }

    /// Stores `out` under the reference `op`, replacing any previous output.
    pub fn insert(&mut self, op: OutPoint, out: TxOut)
        requires
            old(self).wf(),
        ensures
            final(self).wf(),
            final(self)@ == old(self)@.insert(op_key(op), out),
    {
        let ghost k = op_key(op);
        match self.find(&op) {
            Some(i) => {
                proof {
                    lemma_utxo_map_update(self.entries@, (op, out));
                }
                let _removed = self.entries.remove(i);
                self.entries.insert(i, (op, out));
                proof {
                    assert(self.entries@ =~= old(self).entries@.update(
                        utxo_index(old(self).entries@, k),
                        (op, out),
                    ));
                }
            },
            None => {
                proof {
                    lemma_utxo_map_push(self.entries@, (op, out));
                }
                self.entries.push((op, out));
            },
        }
    }

    /// Number of unspent outputs tracked.
    pub fn len(&self) -> (r: usize)
        ensures
            r == self.entries@.len(),
    {
        self.entries.len()
    }
}


/// The outputs one transaction produces, keyed by its identifier and output
/// index.
pub open spec fn tx_entries(tx: Transaction) -> Seq<((Seq<char>, u32), TxOut)> {
    Seq::new(
        tx.outputs@.len(),
        |j: int| ((crate::transaction::tx_hash_of(tx), j as u32), tx.outputs@[j]),
    )
}

/// Everything a block's transactions produce, in order.
pub open spec fn produced_entries(txs: Seq<Transaction>) -> Seq<((Seq<char>, u32), TxOut)>
    decreases txs.len(),
{
    if txs.len() == 0 {
        Seq::empty()
    } else {
        produced_entries(txs.drop_last()) + tx_entries(txs.last())
    }
}

/// A map after inserting each listed entry in turn; later entries win.
pub open spec fn map_insert_all(
    m: Map<(Seq<char>, u32), TxOut>,
    es: Seq<((Seq<char>, u32), TxOut)>,
) -> Map<(Seq<char>, u32), TxOut>
    decreases es.len(),
{
    if es.len() == 0 {
        m
    } else {
        map_insert_all(m, es.drop_last()).insert(es.last().0, es.last().1)
    }
}

/// The map a block's produced outputs form on their own.
pub open spec fn prod_map(txs: Seq<Transaction>) -> Map<(Seq<char>, u32), TxOut> {
    map_insert_all(Map::empty(), produced_entries(txs))
}

/// Inserting entries into a map is overlaying the map the entries form.
pub proof fn lemma_map_insert_all_union(
    m: Map<(Seq<char>, u32), TxOut>,
    es: Seq<((Seq<char>, u32), TxOut)>,
)
    ensures
        map_insert_all(m, es) == m.union_prefer_right(map_insert_all(Map::empty(), es)),
    decreases es.len(),
{
    if es.len() == 0 {
        assert(map_insert_all(m, es) =~= m.union_prefer_right(
            map_insert_all(Map::empty(), es),
        ));
    } else {
        lemma_map_insert_all_union(m, es.drop_last());
        assert(map_insert_all(m, es) =~= m.union_prefer_right(
            map_insert_all(Map::empty(), es),
        ));
    }
}

impl UtxoSet {
    /// Removes everything the transactions spend.
    fn remove_spent(&mut self, transactions: &Vec<Transaction>)
        requires
            old(self).wf(),
        ensures
            final(self).wf(),
            final(self)@ == old(self)@.remove_keys(spent_set(transactions@)),
    {
        let ghost txs = transactions@;
        let mut i: usize = 0;
        while i < transactions.len()
            invariant
                self.wf(),
                txs == transactions@,
                i <= txs.len(),
                self@ == old(self)@.remove_keys(spent_prefix(txs, i as int, 0)),
            decreases txs.len() - i,
        {
            let mut j: usize = 0;
            let n = transactions[i].inputs.len();
            while j < n
                invariant
                    self.wf(),
                    txs == transactions@,
                    i < txs.len(),
                    n == txs[i as int].inputs@.len(),
                    j <= n,
                    self@ == old(self)@.remove_keys(spent_prefix(txs, i as int, j as int)),
                decreases n - j,
            {
                let op = &transactions[i].inputs[j].previous_out;
                self.remove(op);
                proof {
                    assert(spent_prefix(txs, i as int, j + 1) =~= spent_prefix(
                        txs,
                        i as int,
                        j as int,
                    ).insert(op_key(txs[i as int].inputs@[j as int].previous_out)));
                    assert(self@ =~= old(self)@.remove_keys(spent_prefix(txs, i as int, j + 1)));
                }
                j = j + 1;
            }
            i = i + 1;
            proof {
                assert(spent_prefix(txs, i as int, 0) =~= spent_prefix(
                    txs,
                    i - 1,
                    txs[i - 1].inputs@.len() as int,
                ));
            }
        }
        proof {
            assert(spent_prefix(txs, txs.len() as int, 0) =~= spent_set(txs));
        }
    }

    /// Applies one block's transactions atomically: every spent reference
    /// leaves the set, every produced output enters it.
    pub fn apply_block(&mut self, transactions: Vec<Transaction>)
        requires
            old(self).wf(),
            forall|i: int|
                0 <= i < transactions@.len() ==> (#[trigger] transactions@[i]).outputs@.len()
                    <= u32::MAX,
        ensures
            final(self).wf(),
            final(self)@ == old(self)@.remove_keys(
                spent_set(transactions@),
            ).union_prefer_right(prod_map(transactions@)),
    {
        let ghost txs = transactions@;
        self.remove_spent(&transactions);
        let ghost base = self@;
        let mut rest = transactions;
        let total = rest.len();
        proof {
            assert(txs.len() == total);
        }
        let mut i: usize = 0;
        while rest.len() > 0
            invariant
                self.wf(),
                i + rest@.len() == txs.len() <= usize::MAX,
                rest@ == txs.skip(i as int),
                self@ == map_insert_all(base, produced_entries(txs.take(i as int))),
                forall|m: int|
                    0 <= m < txs.len() ==> (#[trigger] txs[m]).outputs@.len() <= u32::MAX,
            decreases rest@.len(),
        {
            let tx = rest.remove(0);
            proof {
                assert(txs.skip(i as int)[0] == txs[i as int]);
                assert(rest@ =~= txs.skip(i + 1));
            }
            let t_hash = crate::transaction::construct_tx_hash(&tx);
            let ghost txg = tx;
            let mut outs = tx.outputs;
            let mut j: usize = 0;
            proof {
                assert(outs@ =~= txg.outputs@.skip(0));
            }
            while outs.len() > 0
                invariant
                    self.wf(),
                    j + outs@.len() == txg.outputs@.len() <= u32::MAX,
                    outs@ == txg.outputs@.skip(j as int),
                    t_hash@ == crate::transaction::tx_hash_of(txg),
                    self@ == map_insert_all(
                        base,
                        produced_entries(txs.take(i as int)) + tx_entries(txg).take(j as int),
                    ),
                decreases outs@.len(),
            {
                let out = outs.remove(0);
                proof {
                    assert(txg.outputs@.skip(j as int)[0] == txg.outputs@[j as int]);
                    assert(outs@ =~= txg.outputs@.skip(j + 1));
                }
                let op = OutPoint { t_hash: t_hash.clone(), n: j as u32 };
                self.insert(op, out);
                proof {
                    let es0 = produced_entries(txs.take(i as int)) + tx_entries(txg).take(
                        j as int,
                    );
                    let es1 = produced_entries(txs.take(i as int)) + tx_entries(txg).take(j + 1);
                    assert(es1.drop_last() =~= es0);
                    assert(es1.last() == ((crate::transaction::tx_hash_of(txg), j as u32),
                        txg.outputs@[j as int]));
                    assert(self@ =~= map_insert_all(base, es1));
                }
                j = j + 1;
            }
            i = i + 1;
            proof {
                assert(tx_entries(txg).take(txg.outputs@.len() as int) =~= tx_entries(txg));
                assert(txs.take(i as int).drop_last() =~= txs.take(i - 1));
                assert(txs.take(i as int).last() == txg);
                assert(produced_entries(txs.take(i as int)) =~= produced_entries(txs.take(i - 1))
                    + tx_entries(txg));
                lemma_map_insert_all_append(
                    base,
                    produced_entries(txs.take(i - 1)),
                    tx_entries(txg),
                );
            }
        }
        proof {
            assert(txs.take(txs.len() as int) =~= txs);
            lemma_map_insert_all_union(base, produced_entries(txs));
        }
    }
}

/// Folding over a concatenation is folding over each part in turn.
pub proof fn lemma_map_insert_all_append(
    m: Map<(Seq<char>, u32), TxOut>,
    a: Seq<((Seq<char>, u32), TxOut)>,
    b: Seq<((Seq<char>, u32), TxOut)>,
)
    ensures
        map_insert_all(m, a + b) == map_insert_all(map_insert_all(m, a), b),
    decreases b.len(),
{
    if b.len() == 0 {
        assert(a + b =~= a);
    } else {
        lemma_map_insert_all_append(m, a, b.drop_last());
        assert((a + b).drop_last() =~= a + b.drop_last());
        assert((a + b).last() == b.last());
    }
}

/// The keys spent by the first transactions of a block, up to input `j` of
/// transaction `i`.
pub open spec fn spent_prefix(txs: Seq<Transaction>, i: int, j: int) -> Set<(Seq<char>, u32)> {
    Set::new(
        |p: (Seq<char>, u32)|
            exists|a: int, b: int|
                0 <= a < txs.len() && 0 <= b < txs[a].inputs@.len() && (a < i || (a == i && b < j))
                    && op_key((#[trigger] txs[a].inputs@[b]).previous_out) == p,
    )
}

/// The keys a block's transactions spend.
pub open spec fn spent_set(txs: Seq<Transaction>) -> Set<(Seq<char>, u32)> {
    Set::new(
        |p: (Seq<char>, u32)|
            exists|i: int, j: int|
                0 <= i < txs.len() && 0 <= j < txs[i].inputs@.len() && op_key(
                    (#[trigger] txs[i].inputs@[j]).previous_out,
                ) == p,
    )
}

} // verus!
