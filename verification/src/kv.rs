//! The column-family key-value store behind every node's persistent state.
//! Columns hold unique keys; a write batch is applied in order and, being
//! in-memory, is all-or-nothing. The store remembers which environment it
//! was opened for, so an embedding program can persist the contents of the
//! durable and test modes.

use vstd::prelude::*;
use crate::order::{bytes_cmp, ByteOrd};

verus! {

/// Environment a database lives in: durable file, test file (indexed), or
/// purely in memory.
#[derive(Debug, Clone, Copy, PartialEq, Eq, Structural)]
pub enum DbMode {
    Live,
    Test(usize),
    InMemory,
}

/// One column family: named, with unique keys.
pub struct DbColumn {
    pub name: String,
    pub entries: Vec<(Vec<u8>, Vec<u8>)>,
}

/// One operation of an atomic write batch.
pub enum BatchOp {
    Put(usize, Vec<u8>, Vec<u8>),
    Delete(usize, Vec<u8>),
}

/// The key/value pairs of one column, as byte sequences in storage order.
pub open spec fn col_view(entries: Seq<(Vec<u8>, Vec<u8>)>) -> Seq<(Seq<u8>, Seq<u8>)> {
    entries.map_values(|e: (Vec<u8>, Vec<u8>)| (e.0@, e.1@))
}

/// No two entries of the column share a key.
pub open spec fn unique_keys(s: Seq<(Seq<u8>, Seq<u8>)>) -> bool {
    forall|i: int, j: int| 0 <= i < j < s.len() ==> s[i].0 != s[j].0
}

/// Index of the entry holding `k`, or -1 when no entry does.
pub open spec fn key_index(s: Seq<(Seq<u8>, Seq<u8>)>, k: Seq<u8>) -> int
    decreases s.len(),
{
    if s.len() == 0 {
        -1
    } else if s[0].0 == k {
        0
    } else {
        let r = key_index(s.drop_first(), k);
        if r < 0 {
            -1
        } else {
            r + 1
        }
    }
}

/// Whether the column holds the key `k`.
pub open spec fn has_key(s: Seq<(Seq<u8>, Seq<u8>)>, k: Seq<u8>) -> bool {
    key_index(s, k) >= 0
}

/// A column after storing `v` under `k`: the holding entry is overwritten in
/// place, or a new entry is appended.
pub open spec fn col_put(s: Seq<(Seq<u8>, Seq<u8>)>, k: Seq<u8>, v: Seq<u8>) -> Seq<
    (Seq<u8>, Seq<u8>),
> {
    if has_key(s, k) {
        s.update(key_index(s, k), (k, v))
    } else {
        s.push((k, v))
    }
}

/// A column after deleting `k`: the holding entry is removed, if any.
pub open spec fn col_delete(s: Seq<(Seq<u8>, Seq<u8>)>, k: Seq<u8>) -> Seq<(Seq<u8>, Seq<u8>)> {
    if has_key(s, k) {
        s.remove(key_index(s, k))
    } else {
        s
    }
}

/// `key_index` points at an entry holding `k` whenever it is non-negative.
pub proof fn lemma_key_index(s: Seq<(Seq<u8>, Seq<u8>)>, k: Seq<u8>)
    ensures
        key_index(s, k) >= 0 ==> {
            &&& key_index(s, k) < s.len()
            &&& s[key_index(s, k)].0 == k
            &&& forall|j: int| 0 <= j < key_index(s, k) ==> s[j].0 != k
        },
        key_index(s, k) < 0 ==> (forall|j: int| 0 <= j < s.len() ==> s[j].0 != k),
    decreases s.len(),
{
    if s.len() > 0 && s[0].0 != k {
        lemma_key_index(s.drop_first(), k);
        assert(forall|j: int| 0 < j < s.len() ==> s[j] == s.drop_first()[j - 1]);
    }
}

/// An entry scan that found `k` at `i`, with no earlier match, found
/// `key_index`.
pub proof fn lemma_key_index_at(s: Seq<(Seq<u8>, Seq<u8>)>, k: Seq<u8>, i: int)
    requires
        0 <= i < s.len(),
        s[i].0 == k,
        forall|j: int| 0 <= j < i ==> s[j].0 != k,
    ensures
        key_index(s, k) == i,
    decreases s.len(),
{
    if i > 0 {
        lemma_key_index_at(s.drop_first(), k, i - 1);
        assert(forall|j: int| 0 <= j < s.drop_first().len() ==> s.drop_first()[j] == s[j + 1]);
    }
}

/// The column as a map from key to value; insertion order forgotten.
pub open spec fn col_map(s: Seq<(Seq<u8>, Seq<u8>)>) -> Map<Seq<u8>, Seq<u8>>
    decreases s.len(),
{
    if s.len() == 0 {
        Map::empty()
    } else {
        col_map(s.drop_last()).insert(s.last().0, s.last().1)
    }
}

/// Looking a key up in the column is looking it up in the map.
pub proof fn lemma_col_map_has(s: Seq<(Seq<u8>, Seq<u8>)>, k: Seq<u8>)
    requires
        unique_keys(s),
    ensures
        has_key(s, k) == col_map(s).dom().contains(k),
        has_key(s, k) ==> col_map(s)[k] == s[key_index(s, k)].1,
    decreases s.len(),
{
    lemma_key_index(s, k);
    if s.len() > 0 {
        let t = s.drop_last();
        assert(unique_keys(t)) by {
            assert(forall|i: int| 0 <= i < t.len() ==> t[i] == s[i]);
        }
        lemma_col_map_has(t, k);
        lemma_key_index(t, k);
        if s.last().0 == k {
            lemma_key_index_at(s, k, s.len() - 1);
        } else {
            if has_key(t, k) {
                assert(s[key_index(t, k)] == t[key_index(t, k)]);
                lemma_key_index_at(s, k, key_index(t, k));
            }
            if has_key(s, k) {
                assert(key_index(s, k) < s.len() - 1);
                assert(t[key_index(s, k)] == s[key_index(s, k)]);
                lemma_key_index_at(t, k, key_index(s, k));
            }
        }
    }
}

/// Storing into the column is inserting into the map.
pub proof fn lemma_col_map_put(s: Seq<(Seq<u8>, Seq<u8>)>, k: Seq<u8>, v: Seq<u8>)
    requires
        unique_keys(s),
    ensures
        col_map(col_put(s, k, v)) == col_map(s).insert(k, v),
    decreases s.len(),
{
    lemma_key_index(s, k);
    if !has_key(s, k) {
        assert(col_put(s, k, v) == s.push((k, v)));
        assert(s.push((k, v)).drop_last() =~= s);
    } else {
        let i = key_index(s, k);
        let r = s.update(i, (k, v));
        if i == s.len() - 1 {
            assert(r.drop_last() =~= s.drop_last());
            assert(r.last() == (k, v));
            assert(s.last().0 == k);
            assert(col_map(r) =~= col_map(s).insert(k, v));
        } else {
            let t = s.drop_last();
            assert(unique_keys(t)) by {
                assert(forall|j: int| 0 <= j < t.len() ==> t[j] == s[j]);
            }
            assert(t[i].0 == k);
            lemma_key_index_at(t, k, i);
            lemma_col_map_put(t, k, v);
            assert(r.drop_last() =~= col_put(t, k, v));
            assert(r.last() == s.last());
            assert(s.last().0 != k);
            assert(col_map(r) == col_map(col_put(t, k, v)).insert(s.last().0, s.last().1));
            assert(col_map(r) =~= col_map(s).insert(k, v));
        }
    }
}

/// Deleting from the column is removing from the map.
pub proof fn lemma_col_map_delete(s: Seq<(Seq<u8>, Seq<u8>)>, k: Seq<u8>)
    requires
        unique_keys(s),
    ensures
        col_map(col_delete(s, k)) == col_map(s).remove(k),
    decreases s.len(),
{
    lemma_key_index(s, k);
    if !has_key(s, k) {
        assert(col_map(s).remove(k) =~= col_map(s)) by {
            lemma_col_map_has(s, k);
        }
    } else {
        let i = key_index(s, k);
        let r = s.remove(i);
        if i == s.len() - 1 {
            assert(r =~= s.drop_last());
            assert(!has_key(s.drop_last(), k)) by {
                let t = s.drop_last();
                lemma_key_index(t, k);
                if has_key(t, k) {
                    assert(t[key_index(t, k)] == s[key_index(t, k)]);
                    assert(key_index(t, k) < s.len() - 1);
                    assert(s[key_index(t, k)].0 != s[s.len() - 1].0);
                }
            }
            assert(unique_keys(s.drop_last())) by {
                assert(forall|j: int| 0 <= j < s.drop_last().len() ==> s.drop_last()[j] == s[j]);
            }
            lemma_col_map_has(s.drop_last(), k);
            assert(col_map(r) =~= col_map(s).remove(k));
        } else {
            let t = s.drop_last();
            assert(unique_keys(t)) by {
                assert(forall|j: int| 0 <= j < t.len() ==> t[j] == s[j]);
            }
            assert(t[i].0 == k);
            lemma_key_index_at(t, k, i);
            lemma_col_map_delete(t, k);
            assert(r.drop_last() =~= col_delete(t, k));
            assert(r.last() == s.last());
            assert(s.last().0 != k);
            assert(col_map(r) == col_map(col_delete(t, k)).insert(s.last().0, s.last().1));
            assert(col_map(r) =~= col_map(s).remove(k));
        }
    }
}

impl DbColumn {
    /// The column's contents as byte sequences.
    pub open spec fn view(&self) -> Seq<(Seq<u8>, Seq<u8>)> {
        col_view(self.entries@)
    }

    /// Key uniqueness, the column's invariant.
    pub open spec fn wf(&self) -> bool {
        unique_keys(self@)
    }

    /// Looks a key up, returning the index of its entry.
    fn find(&self, key: &Vec<u8>) -> (r: Option<usize>)
        ensures
            match r {
                Some(i) => i < self@.len() && self@[i as int].0 == key@ && key_index(
                    self@,
                    key@,
                ) == i,
                None => !has_key(self@, key@),
            },
    {
        let mut i: usize = 0;
        while i < self.entries.len()
            invariant
                i <= self@.len(),
                self@.len() == self.entries@.len(),
                forall|j: int| 0 <= j < i ==> self@[j].0 != key@,
            decreases self@.len() - i,
        {
            match bytes_cmp(&self.entries[i].0, key) {
                ByteOrd::Eq => {
                    proof {
                        lemma_key_index_at(self@, key@, i as int);
                    }
                    return Some(i);
                },
                _ => {
                    proof {
                        crate::order::lemma_bytes_lt_irrefl(key@);
                    }
                },
            }
            i = i + 1;
        }
        proof {
            lemma_key_index(self@, key@);
        }
        None
    }

    /// Returns a copy of the value stored under `key`, if any.
    pub fn get(&self, key: &Vec<u8>) -> (r: Option<Vec<u8>>)
        ensures
            match r {
                Some(v) => has_key(self@, key@) && v@ == self@[key_index(self@, key@)].1,
                None => !has_key(self@, key@),
            },
    {
        match self.find(key) {
            Some(i) => {
                proof {
                    lemma_key_index(self@, key@);
                }
                Some(copy_bytes(&self.entries[i].1))
            },
            None => None,
        }
    }

    /// Stores `value` under `key`, replacing any previous value.
    pub fn put(&mut self, key: Vec<u8>, value: Vec<u8>)
        requires
            old(self).wf(),
        ensures
            final(self).wf(),
            final(self)@ == col_put(old(self)@, key@, value@),
            final(self).name@ == old(self).name@,
    {
        let ghost k = key@;
        match self.find(&key) {
            Some(i) => {
                proof {
                    lemma_key_index(self@, k);
                }
                self.entries.remove(i);
                self.entries.insert(i, (key, value));
                proof {
                    assert(self@ =~= col_put(old(self)@, k, value@));
                    assert forall|a: int, b: int| 0 <= a < b < self@.len() implies self@[a].0
                        != self@[b].0 by {
                        assert(old(self)@[a].0 != old(self)@[b].0);
                    }
                }
            },
            None => {
                self.entries.push((key, value));
                proof {
                    assert(self@ =~= col_put(old(self)@, k, value@));
                    lemma_key_index(old(self)@, k);
                    assert forall|a: int, b: int| 0 <= a < b < self@.len() implies self@[a].0
                        != self@[b].0 by {
                        if b < self@.len() - 1 {
                            assert(old(self)@[a].0 != old(self)@[b].0);
                        }
                    }
                }
            },
        }
    }

    /// Deletes `key` and whatever it stored.
    pub fn delete(&mut self, key: &Vec<u8>)
        requires
            old(self).wf(),
        ensures
            final(self).wf(),
            final(self)@ == col_delete(old(self)@, key@),
            final(self).name@ == old(self).name@,
    {
        match self.find(key) {
            Some(i) => {
                proof {
                    lemma_key_index(self@, key@);
                }
                self.entries.remove(i);
                proof {
                    assert(self@ =~= col_delete(old(self)@, key@));
                    assert forall|a: int, b: int| 0 <= a < b < self@.len() implies self@[a].0
                        != self@[b].0 by {
                        let oa = if a < i { a } else { a + 1 };
                        let ob = if b < i { b } else { b + 1 };
                        assert(old(self)@[oa].0 != old(self)@[ob].0);
                    }
                }
            },
            None => {},
        }
    }
}

/// Copies a byte string.
pub fn copy_bytes(v: &Vec<u8>) -> (r: Vec<u8>)
    ensures
        r@ == v@,
{
    let mut out: Vec<u8> = Vec::new();
    let mut i: usize = 0;
    while i < v.len()
        invariant
            i <= v@.len(),
            out@ == v@.subrange(0, i as int),
        decreases v@.len() - i,
    {
        out.push(v[i]);
        i = i + 1;
        proof {
            assert(out@ =~= v@.subrange(0, i as int));
        }
    }
    proof {
        assert(out@ =~= v@);
    }
    out
}

/// A key-value store of named columns, everything the node persists.
pub struct SimpleDb {
    pub mode: DbMode,
    pub cols: Vec<DbColumn>,
}

/// The store's contents: each column's entries, in column order.
pub open spec fn db_view(cols: Seq<DbColumn>) -> Seq<Seq<(Seq<u8>, Seq<u8>)>> {
    cols.map_values(|c: DbColumn| c@)
}

/// A store after one batch operation.
pub open spec fn apply_op(v: Seq<Seq<(Seq<u8>, Seq<u8>)>>, op: BatchOp) -> Seq<
    Seq<(Seq<u8>, Seq<u8>)>,
> {
    match op {
        BatchOp::Put(c, k, val) => if c < v.len() {
            v.update(c as int, col_put(v[c as int], k@, val@))
        } else {
            v
        },
        BatchOp::Delete(c, k) => if c < v.len() {
            v.update(c as int, col_delete(v[c as int], k@))
        } else {
            v
        },
    }
}

/// A store after a whole batch, first operation first.
pub open spec fn apply_batch(v: Seq<Seq<(Seq<u8>, Seq<u8>)>>, ops: Seq<BatchOp>) -> Seq<
    Seq<(Seq<u8>, Seq<u8>)>,
>
    decreases ops.len(),
{
    if ops.len() == 0 {
        v
    } else {
        apply_batch(apply_op(v, ops[0]), ops.drop_first())
    }
}

impl SimpleDb {
    /// The store's contents as byte sequences, column by column.
    pub open spec fn view(&self) -> Seq<Seq<(Seq<u8>, Seq<u8>)>> {
        db_view(self.cols@)
    }

    /// Every column holds unique keys.
    pub open spec fn wf(&self) -> bool {
        forall|c: int| 0 <= c < self.cols@.len() ==> (#[trigger] self.cols@[c]).wf()
    }

    /// The name of column `c`.
    pub open spec fn col_name(&self, c: int) -> Seq<char> {
        self.cols@[c].name@
    }

    /// A purely in-memory store with the given column names, all empty.
    pub fn new_in_memory(names: Vec<String>) -> (r: Self)
        ensures
            r.wf(),
            matches!(r.mode, DbMode::InMemory),
            r@.len() == names@.len(),
            forall|c: int| 0 <= c < names@.len() ==> r@[c] == Seq::<(Seq<u8>, Seq<u8>)>::empty(),
            forall|c: int| 0 <= c < names@.len() ==> r.col_name(c) == names@[c]@,
    {
        let mut cols: Vec<DbColumn> = Vec::new();
        let mut i: usize = 0;
        while i < names.len()
            invariant
                i <= names@.len(),
                cols@.len() == i,
                forall|c: int| 0 <= c < i ==> (#[trigger] cols@[c])@ == Seq::<
                    (Seq<u8>, Seq<u8>),
                >::empty(),
                forall|c: int| 0 <= c < i ==> (#[trigger] cols@[c]).name@ == names@[c]@,
                forall|c: int| 0 <= c < i ==> (#[trigger] cols@[c]).wf(),
            decreases names@.len() - i,
        {
            let col = DbColumn { name: names[i].clone(), entries: Vec::new() };
            proof {
                assert(col@ =~= Seq::<(Seq<u8>, Seq<u8>)>::empty());
            }
            cols.push(col);
            i = i + 1;
        }
        SimpleDb { mode: DbMode::InMemory, cols }
    }

    /// Number of columns.
    pub fn col_count(&self) -> (r: usize)
        ensures
            r == self@.len(),
    {
        self.cols.len()
    }

    /// Returns a copy of the value stored under `key` in column `c`.
    pub fn get(&self, c: usize, key: &Vec<u8>) -> (r: Option<Vec<u8>>)
        requires
            c < self@.len(),
        ensures
            match r {
                Some(v) => has_key(self@[c as int], key@) && v@ == self@[c as int][key_index(
                    self@[c as int],
                    key@,
                )].1,
                None => !has_key(self@[c as int], key@),
            },
    {
        self.cols[c].get(key)
    }

    /// Stores `value` under `key` in column `c`.
    pub fn put(&mut self, c: usize, key: Vec<u8>, value: Vec<u8>)
        requires
            old(self).wf(),
            c < old(self)@.len(),
        ensures
            final(self).wf(),
            final(self)@ == old(self)@.update(
                c as int,
                col_put(old(self)@[c as int], key@, value@),
            ),
            final(self)@.len() == old(self)@.len(),
            forall|d: int|
                0 <= d < old(self)@.len() ==> final(self).col_name(d) == old(self).col_name(d),
            final(self).mode == old(self).mode,
    {
        let mut col = self.cols.remove(c);
        col.put(key, value);
        self.cols.insert(c, col);
        proof {
            assert(self@ =~= old(self)@.update(c as int, col_put(old(self)@[c as int], key@, value@)));
        }
    }

    /// Deletes `key` from column `c`.
    pub fn delete(&mut self, c: usize, key: &Vec<u8>)
        requires
            old(self).wf(),
            c < old(self)@.len(),
        ensures
            final(self).wf(),
            final(self)@ == old(self)@.update(c as int, col_delete(old(self)@[c as int], key@)),
            final(self)@.len() == old(self)@.len(),
            forall|d: int|
                0 <= d < old(self)@.len() ==> final(self).col_name(d) == old(self).col_name(d),
            final(self).mode == old(self).mode,
    {
        let mut col = self.cols.remove(c);
        col.delete(key);
        self.cols.insert(c, col);
        proof {
            assert(self@ =~= old(self)@.update(c as int, col_delete(old(self)@[c as int], key@)));
        }
    }

    /// Applies a whole batch of writes. The store is in memory, so the batch
    /// as a whole takes effect: all of it, never a part.
    pub fn write_batch(&mut self, ops: Vec<BatchOp>) -> (r: bool)
        requires
            old(self).wf(),
        ensures
            final(self).wf(),
            r,
            final(self)@ == apply_batch(old(self)@, ops@),
            final(self)@.len() == old(self)@.len(),
            forall|d: int|
                0 <= d < old(self)@.len() ==> final(self).col_name(d) == old(self).col_name(d),
            final(self).mode == old(self).mode,
    {
        let ghost all = ops@;
        let mut rest = ops;
        while rest.len() > 0
            invariant
                self.wf(),
                apply_batch(old(self)@, all) == apply_batch(self@, rest@),
                self@.len() == old(self)@.len(),
                forall|d: int|
                    0 <= d < old(self)@.len() ==> self.col_name(d) == old(self).col_name(d),
                self.mode == old(self).mode,
            decreases rest@.len(),
        {
            let ghost pre = rest@;
            let op = rest.remove(0);
            proof {
                assert(pre.drop_first() =~= rest@);
                assert(apply_batch(self@, pre) == apply_batch(apply_op(self@, op), rest@));
            }
            match op {
                BatchOp::Put(c, key, value) => {
                    if c < self.cols.len() {
                        self.put(c, key, value);
                    }
                },
                BatchOp::Delete(c, key) => {
                    if c < self.cols.len() {
                        self.delete(c, &key);
                    }
                },
            }
        }
        true
    }

    /// Number of entries in column `c`.
    pub fn col_len(&self, c: usize) -> (r: usize)
        requires
            c < self@.len(),
        ensures
            r == self@[c as int].len(),
    {
        self.cols[c].entries.len()
    }

    /// A copy of the name of column `c`.
    pub fn col_name_at(&self, c: usize) -> (r: String)
        requires
            c < self@.len(),
        ensures
            r@ == self.col_name(c as int),
    {
        self.cols[c].name.clone()
    }

    /// A copy of entry `i` of column `c`, in storage order.
    pub fn entry_at(&self, c: usize, i: usize) -> (r: (Vec<u8>, Vec<u8>))
        requires
            c < self@.len(),
            i < self@[c as int].len(),
        ensures
            r.0@ == self@[c as int][i as int].0,
            r.1@ == self@[c as int][i as int].1,
    {
        let key = copy_bytes(&self.cols[c].entries[i].0);
        let value = copy_bytes(&self.cols[c].entries[i].1);
        (key, value)
    }
}

} // verus!
