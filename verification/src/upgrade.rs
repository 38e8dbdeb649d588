//! The database upgrade engine: enumerating every database the system owns,
//! dumping one as a canonical constant table, validating and rewriting one
//! to the current schema, and planning which databases a run covers. A
//! failed upgrade leaves the source store untouched.

use vstd::prelude::*;
use crate::kv::{col_delete, DbMode, SimpleDb};
use crate::order::{bytes_cmp, ByteOrd};
use crate::wallet::{
    address_key_bytes, decode_address_stores, decode_fund_store, decode_transaction_store,
    fund_key_bytes,
};

verus! {

/// What to do with a compute node's pending block when its database is
/// re-homed: queue it for mining again, or drop it because storage holds it.
#[derive(Debug, Clone, Copy, PartialEq, Eq, Structural)]
pub enum DbCfg {
    ComputeBlockToMine,
    ComputeBlockInStorage,
}

/// Settings an upgrade runs under.
#[derive(Debug, Clone, PartialEq, Eq)]
pub struct UpgradeCfg {
    pub raft_len: usize,
    pub passphrase: String,
    pub db_cfg: DbCfg,
}

/// Why an upgrade was aborted; the source database is preserved in every
/// case.
#[derive(Debug, Clone, Copy, PartialEq, Eq, Structural)]
pub enum UpgradeError {
    ConfigError,
    DbOpenError,
    SchemaMismatch,
    WriteError,
}

/// How one run processes the selected databases.
#[derive(Debug, Clone, Copy, PartialEq, Eq, Structural)]
pub enum Processing {
    Read,
    Upgrade,
}

/// One on-disk database the system owns.
#[derive(Debug, Clone, PartialEq, Eq)]
pub struct DbSpecInfo {
    pub node_type: String,
    pub suffix: String,
    pub columns: Vec<String>,
}

/// Whether `nd` occurs inside `hay`.
pub open spec fn contains_sub(hay: Seq<u8>, nd: Seq<u8>) -> bool {
    exists|i: int|
        0 <= i <= hay.len() - nd.len() && #[trigger] hay.subrange(i, i + nd.len()) == nd
}

/// Finds a byte string inside another.
pub fn find_sub(hay: &Vec<u8>, nd: &Vec<u8>) -> (r: bool)
    ensures
        r == contains_sub(hay@, nd@),
{
    if nd.len() == 0 {
        proof {
            assert(hay@.subrange(0, 0 + nd@.len() as int) =~= nd@);
        }
        return true;
    }
    if nd.len() > hay.len() {
        proof {
            if contains_sub(hay@, nd@) {
                let i = choose|i: int|
                    0 <= i <= hay@.len() - nd@.len() && #[trigger] hay@.subrange(i, i + nd@.len())
                        == nd@;
            }
        }
        return false;
    }
    let mut i: usize = 0;
    let last = hay.len() - nd.len();
    while i <= last
        invariant
            1 <= nd@.len() <= hay@.len() <= usize::MAX,
            last == hay@.len() - nd@.len(),
            i <= last + 1,
            forall|m: int| 0 <= m < i ==> #[trigger] hay@.subrange(m, m + nd@.len()) != nd@,
        decreases last + 1 - i,
    {
        let mut j: usize = 0;
        let mut matched = true;
        proof {
            assert(hay@.subrange(i as int, i as int) =~= nd@.subrange(0, 0));
        }
        while j < nd.len()
            invariant
                nd@.len() <= hay@.len() <= usize::MAX,
                i + nd@.len() <= hay@.len(),
                j <= nd@.len(),
                matched == (hay@.subrange(i as int, i + j) == nd@.subrange(0, j as int)),
            decreases nd@.len() - j,
        {
            let hb = hay[i + j];
            let nb = nd[j];
            proof {
                if matched && hb == nb {
                    assert(hay@.subrange(i as int, i + j + 1) =~= hay@.subrange(i as int, i + j)
                        + seq![hb]);
                    assert(nd@.subrange(0, j + 1) =~= nd@.subrange(0, j as int) + seq![nb]);
                }
                if hay@.subrange(i as int, i + j + 1) == nd@.subrange(0, j + 1) {
                    assert(hay@.subrange(i as int, i + j + 1)[j as int] == hb);
                    assert(nd@.subrange(0, j + 1)[j as int] == nb);
                    assert(hay@.subrange(i as int, i + j + 1).subrange(0, j as int) =~= hay@.subrange(
                        i as int,
                        i + j,
                    ));
                    assert(nd@.subrange(0, j + 1).subrange(0, j as int) =~= nd@.subrange(
                        0,
                        j as int,
                    ));
                }
            }
            matched = matched && hb == nb;
            j = j + 1;
        }
        if matched {
            proof {
                assert(hay@.subrange(i as int, i + nd@.len()) =~= nd@) by {
                    assert(nd@.subrange(0, nd@.len() as int) =~= nd@);
                }
            }
            return true;
        }
        proof {
            if hay@.subrange(i as int, i + nd@.len()) == nd@ {
                assert(nd@.subrange(0, nd@.len() as int) =~= nd@);
            }
        }
        i = i + 1;
    }
    proof {
        if contains_sub(hay@, nd@) {
            let w = choose|w: int|
                0 <= w <= hay@.len() - nd@.len() && #[trigger] hay@.subrange(w, w + nd@.len())
                    == nd@;
            assert(hay@.subrange(w, w + nd@.len()) != nd@);
        }
    }
    false
}

/// The UTF-8 bytes spelling the raft marker.
pub open spec fn raft_marker_bytes() -> Seq<u8> {
    seq![114u8, 97u8, 102u8, 116u8]
}

/// The raft part of a database's constant name: present exactly when its
/// suffix mentions raft.
pub fn raft_for_spec(spec_info: &DbSpecInfo) -> (r: &'static str)
    ensures
        contains_sub(crate::transaction::hash_bytes(spec_info.suffix@), raft_marker_bytes()) ==> r@
            == "_raft"@,
        !contains_sub(crate::transaction::hash_bytes(spec_info.suffix@), raft_marker_bytes())
            ==> r@ == ""@,
{
    let sb = spec_info.suffix.as_str().as_bytes_vec();
    let mut needle: Vec<u8> = Vec::new();
    needle.push(114u8);
    needle.push(97u8);
    needle.push(102u8);
    needle.push(116u8);
    proof {
        assert(needle@ =~= raft_marker_bytes());
    }
    if find_sub(&sb, &needle) {
        "_raft"
    } else {
        ""
    }
}

/// Key of a compute node's pending block: a one-byte tag distinct from
/// every other fixed key.
pub open spec fn block_to_mine_key_bytes() -> Seq<u8> {
    seq![2u8]
}

/// The pending block's key.
pub fn block_to_mine_key() -> (r: Vec<u8>)
    ensures
        r@ == block_to_mine_key_bytes(),
{
    let mut v: Vec<u8> = Vec::new();
    v.push(2u8);
    proof {
        assert(v@ =~= block_to_mine_key_bytes());
    }
    v
}

/// Dumps a database as its canonical constant table: every column's entries
/// in storage order, each tagged with its column name. Dumping is a pure
/// function of the store, so reading twice gives the same table.
pub fn dump_db(db: &SimpleDb) -> (r: Vec<(String, Vec<u8>, Vec<u8>)>)
    ensures
        dump_view(r@) == dump_entries(*db),
{
    let mut out: Vec<(String, Vec<u8>, Vec<u8>)> = Vec::new();
    let mut c: usize = 0;
    let cols = db.col_count();
    while c < cols
        invariant
            cols == db@.len(),
            c <= cols,
            dump_view(out@) == dump_cols(*db, c as int),
        decreases cols - c,
    {
        let n = db.col_len(c);
        let mut i: usize = 0;
        while i < n
            invariant
                cols == db@.len(),
                c < cols,
                n == db@[c as int].len(),
                i <= n,
                dump_view(out@) == dump_cols(*db, c as int) + col_entries(*db, c as int).take(
                    i as int,
                ),
            decreases n - i,
        {
            let (key, value) = db.entry_at(c, i);
            let name = db.col_name_at(c);
            let ghost pre = out@;
            let ghost nv = name@;
            let ghost kv = key@;
            let ghost vv = value@;
            out.push((name, key, value));
            i = i + 1;
            proof {
                let ce = col_entries(*db, c as int);
                assert(ce.take(i as int).drop_last() =~= ce.take(i - 1));
                assert(ce.take(i as int).last() == ce[i - 1]);
                assert(ce[i - 1] == (db.col_name(c as int), db@[c as int][i - 1].0, db@[c as int][i
                    - 1].1));
                assert(nv == db.col_name(c as int) && kv == db@[c as int][i - 1].0 && vv == db@[
                    c as int][i - 1].1);
                assert(dump_view(out@) =~~= dump_view(pre).push((nv, kv, vv)));
                assert(dump_view(pre).push((nv, kv, vv)) =~~= dump_cols(*db, c as int) + ce.take(
                    i as int,
                ));
                assert(dump_view(out@) =~~= dump_cols(*db, c as int) + ce.take(i as int));
            }
        }
        c = c + 1;
        proof {
            assert(col_entries(*db, c - 1).take(db@[c - 1].len() as int) =~= col_entries(
                *db,
                c - 1,
            ));
            assert(dump_view(out@) =~~= dump_cols(*db, c as int));
        }
    }
    proof {
        assert(dump_cols(*db, db@.len() as int) == dump_entries(*db));
    }
    out
}

/// A dump's rows as views.
pub open spec fn dump_view(s: Seq<(String, Vec<u8>, Vec<u8>)>) -> Seq<(Seq<char>, Seq<u8>, Seq<u8>)> {
    s.map_values(|e: (String, Vec<u8>, Vec<u8>)| (e.0@, e.1@, e.2@))
}

/// One column's rows, tagged with its name.
pub open spec fn col_entries(db: SimpleDb, c: int) -> Seq<(Seq<char>, Seq<u8>, Seq<u8>)> {
    db@[c].map_values(|e: (Seq<u8>, Seq<u8>)| (db.col_name(c), e.0, e.1))
}

/// The rows of the first `c` columns, in order.
pub open spec fn dump_cols(db: SimpleDb, c: int) -> Seq<(Seq<char>, Seq<u8>, Seq<u8>)>
    decreases c,
{
    if c <= 0 {
        Seq::empty()
    } else {
        dump_cols(db, c - 1) + col_entries(db, c - 1)
    }
}

/// The whole store's canonical table.
pub open spec fn dump_entries(db: SimpleDb) -> Seq<(Seq<char>, Seq<u8>, Seq<u8>)> {
    dump_cols(db, db@.len() as int)
}

/// Validates a wallet database against the current schema: the fund store,
/// the address store, and every received-output record must be canonical
/// encodings. The store is already in the current layout, so a passing
/// upgrade rewrites nothing and a failing one changes nothing: the source
/// is byte-identical either way.
pub fn upgrade_wallet_db(db: &mut SimpleDb, _upgrade_cfg: &UpgradeCfg) -> (r: Result<
    (),
    UpgradeError,
>)
    requires
        old(db).wf(),
        old(db)@.len() >= 1,
    ensures
        *final(db) == *old(db),
        match r {
            Ok(()) => forall|i: int|
                0 <= i < old(db)@[0].len() ==> wallet_entry_valid(#[trigger] old(db)@[0][i]),
            Err(e) => e == UpgradeError::SchemaMismatch && (exists|i: int|
                0 <= i < old(db)@[0].len() && !wallet_entry_valid(#[trigger] old(db)@[0][i])),
        },
{
    let n = db.col_len(0);
    let mut i: usize = 0;
    while i < n
        invariant
            db.wf(),
            db@.len() >= 1,
            *db == *old(db),
            n == db@[0].len(),
            i <= n,
            forall|j: int| 0 <= j < i ==> wallet_entry_valid(#[trigger] db@[0][j]),
        decreases n - i,
    {
        let (key, value) = db.entry_at(0, i);
        let fk = crate::wallet::fund_key();
        let ak = crate::wallet::address_key();
        let is_fund = match bytes_cmp(&key, &fk) {
            ByteOrd::Eq => true,
            _ => false,
        };
        let is_addr = match bytes_cmp(&key, &ak) {
            ByteOrd::Eq => true,
            _ => false,
        };
        proof {
            crate::order::lemma_bytes_lt_irrefl(key@);
        }
        if is_fund {
            match decode_fund_store(&value) {
                Some(_) => {},
                None => {
                    proof {
                        assert(!wallet_entry_valid(db@[0][i as int])) by {
                            if wallet_entry_valid(db@[0][i as int]) {
                                let fs = choose|fs: crate::wallet::FundStore|
                                    fs.wf() && db@[0][i as int].1
                                        == #[trigger] crate::wallet::enc_fund_store(fs);
                                assert(crate::wallet::is_canonical_fund_store(value@, fs));
                            }
                        }
                    }
                    return Err(UpgradeError::SchemaMismatch);
                },
            }
        } else if is_addr {
            match decode_address_stores(&value) {
                Some(_) => {},
                None => {
                    proof {
                        assert(!wallet_entry_valid(db@[0][i as int])) by {
                            if wallet_entry_valid(db@[0][i as int]) {
                                let v = choose|v: Vec<(String, crate::wallet::AddressStore)>|
                                    db@[0][i as int].1
                                        == #[trigger] crate::wallet::enc_address_stores(v@);
                                assert(crate::wallet::is_canonical_address_stores(value@, v@));
                            }
                        }
                    }
                    return Err(UpgradeError::SchemaMismatch);
                },
            }
        } else {
            match decode_transaction_store(&value) {
                Some(_) => {},
                None => {
                    proof {
                        assert(!wallet_entry_valid(db@[0][i as int])) by {
                            if wallet_entry_valid(db@[0][i as int]) {
                                let ts = choose|ts: crate::wallet::TransactionStore|
                                    db@[0][i as int].1
                                        == #[trigger] crate::wallet::enc_transaction_store(ts);
                                assert(crate::wallet::is_canonical_transaction_store(value@, ts));
                            }
                        }
                    }
                    return Err(UpgradeError::SchemaMismatch);
                },
            }
        }
        i = i + 1;
    }
    Ok(())
}

/// One wallet row in the current schema: the fund store, the address store,
/// or a received-output record, each under its canonical encoding.
pub open spec fn wallet_entry_valid(e: (Seq<u8>, Seq<u8>)) -> bool {
    if e.0 == fund_key_bytes() {
        exists|fs: crate::wallet::FundStore|
            fs.wf() && e.1 == #[trigger] crate::wallet::enc_fund_store(fs)
    } else if e.0 == address_key_bytes() {
        exists|v: Vec<(String, crate::wallet::AddressStore)>|
            e.1 == #[trigger] crate::wallet::enc_address_stores(v@)
    } else {
        exists|ts: crate::wallet::TransactionStore|
            e.1 == #[trigger] crate::wallet::enc_transaction_store(ts)
    }
}

/// Validates a storage database: block rows are keyed by an eight-byte
/// index, and hash rows hold an eight-byte index. Nothing is rewritten; the
/// source is byte-identical afterwards whether the check passes or fails.
pub fn upgrade_storage_db(db: &mut SimpleDb, _upgrade_cfg: &UpgradeCfg) -> (r: Result<
    (),
    UpgradeError,
>)
    requires
        old(db).wf(),
        old(db)@.len() >= 2,
    ensures
        *final(db) == *old(db),
        match r {
            Ok(()) => (forall|i: int| 0 <= i < old(db)@[0].len() ==> (#[trigger] old(db)@[0][i]).0.len()
                == 8) && (forall|i: int|
                0 <= i < old(db)@[1].len() ==> (#[trigger] old(db)@[1][i]).1.len() == 8),
            Err(e) => e == UpgradeError::SchemaMismatch && ((exists|i: int|
                0 <= i < old(db)@[0].len() && (#[trigger] old(db)@[0][i]).0.len() != 8) || (
            exists|i: int| 0 <= i < old(db)@[1].len() && (#[trigger] old(db)@[1][i]).1.len() != 8)),
        },
{
    let n0 = db.col_len(0);
    let mut i: usize = 0;
    while i < n0
        invariant
            db.wf(),
            db@.len() >= 2,
            *db == *old(db),
            n0 == db@[0].len(),
            i <= n0,
            forall|j: int| 0 <= j < i ==> (#[trigger] db@[0][j]).0.len() == 8,
        decreases n0 - i,
    {
        let (key, _value) = db.entry_at(0, i);
        if key.len() != 8 {
            proof {
                assert(db@[0][i as int].0.len() != 8);
            }
            return Err(UpgradeError::SchemaMismatch);
        }
        i = i + 1;
    }
    let n1 = db.col_len(1);
    let mut j: usize = 0;
    while j < n1
        invariant
            db.wf(),
            db@.len() >= 2,
            *db == *old(db),
            n1 == db@[1].len(),
            j <= n1,
            forall|m: int| 0 <= m < j ==> (#[trigger] db@[1][m]).1.len() == 8,
            forall|m: int| 0 <= m < db@[0].len() ==> (#[trigger] db@[0][m]).0.len() == 8,
        decreases n1 - j,
    {
        let (_key, value) = db.entry_at(1, j);
        if value.len() != 8 {
            proof {
                assert(db@[1][j as int].1.len() != 8);
            }
            return Err(UpgradeError::SchemaMismatch);
        }
        j = j + 1;
    }
    Ok(())
}

/// Re-homes a compute database's pending block: kept for mining, or dropped
/// because storage already holds it. Everything else is untouched, and a
/// dropped block is the only change ever made.
pub fn upgrade_compute_db(db: &mut SimpleDb, upgrade_cfg: &UpgradeCfg) -> (r: Result<
    (),
    UpgradeError,
>)
    requires
        old(db).wf(),
        old(db)@.len() >= 1,
    ensures
        r is Ok,
        final(db).wf(),
        upgrade_cfg.db_cfg == DbCfg::ComputeBlockToMine ==> *final(db) == *old(db),
        upgrade_cfg.db_cfg == DbCfg::ComputeBlockInStorage ==> final(db)@ == old(db)@.update(
            0,
            col_delete(old(db)@[0], block_to_mine_key_bytes()),
        ),
    {
    match upgrade_cfg.db_cfg {
        DbCfg::ComputeBlockToMine => Ok(()),
        DbCfg::ComputeBlockInStorage => {
            let key = block_to_mine_key();
            db.delete(0, &key);
            Ok(())
        },
    }
}

/// Whether the plan ignores node `idx` of `node_type`.
pub open spec fn plan_ignored(ig: Seq<(String, usize)>, t: Seq<char>, idx: usize) -> bool {
    exists|k: int| 0 <= k < ig.len() && (#[trigger] ig[k]).0@ == t && ig[k].1 == idx
}

/// The databases one node type contributes to an upgrade plan: one per
/// node index not ignored, at the test offset added to the index, in index
/// order. Only test-mode databases are enumerated.
pub open spec fn plan_type(
    t: Seq<char>,
    mode: DbMode,
    count: int,
    ig: Seq<(String, usize)>,
) -> Seq<(Seq<char>, DbMode)>
    decreases count,
{
    if count <= 0 {
        Seq::empty()
    } else {
        plan_type(t, mode, count - 1, ig) + (match mode {
            DbMode::Test(base) => if !plan_ignored(ig, t, (count - 1) as usize) && base + count - 1
                <= usize::MAX {
                seq![(t, DbMode::Test((base + count - 1) as usize))]
            } else {
                Seq::empty()
            },
            _ => Seq::empty(),
        })
    }
}

/// The whole plan: each selected type's databases, in the given order.
pub open spec fn plan_all(
    infos: Seq<(String, DbMode, usize)>,
    ig: Seq<(String, usize)>,
) -> Seq<(Seq<char>, DbMode)>
    decreases infos.len(),
{
    if infos.len() == 0 {
        Seq::empty()
    } else {
        plan_all(infos.drop_last(), ig) + plan_type(
            infos.last().0@,
            infos.last().1,
            infos.last().2 as int,
            ig,
        )
    }
}

/// A plan's rows as views.
pub open spec fn plan_view(s: Seq<(String, DbMode)>) -> Seq<(Seq<char>, DbMode)> {
    s.map_values(|e: (String, DbMode)| (e.0@, e.1))
}

/// Checks whether the ignore list names node `idx` of `node_type`.
fn is_ignored(ignore: &Vec<(String, usize)>, node_type: &String, idx: usize) -> (r: bool)
    ensures
        r == plan_ignored(ignore@, node_type@, idx),
{
    let tkey = node_type.as_str().as_bytes_vec();
    let mut k: usize = 0;
    while k < ignore.len()
        invariant
            k <= ignore@.len(),
            tkey@ == crate::transaction::hash_bytes(node_type@),
            forall|m: int|
                0 <= m < k ==> !((#[trigger] ignore@[m]).0@ == node_type@ && ignore@[m].1 == idx),
        decreases ignore@.len() - k,
    {
        if ignore[k].1 == idx {
            let ekey = ignore[k].0.as_str().as_bytes_vec();
            let c = bytes_cmp(&ekey, &tkey);
            let same = match c {
                ByteOrd::Eq => true,
                _ => false,
            };
            if same {
                proof {
                    crate::transaction::lemma_hash_bytes_injective(
                        ignore@[k as int].0@,
                        node_type@,
                    );
                    assert(plan_ignored(ignore@, node_type@, idx)) by {
                        assert((ignore@[k as int]).0@ == node_type@ && ignore@[k as int].1 == idx);
                    }
                }
                return true;
            }
            proof {
                if ignore@[k as int].0@ == node_type@ {
                    crate::order::lemma_bytes_lt_irrefl(tkey@);
                }
            }
        }
        k = k + 1;
    }
    proof {
        if plan_ignored(ignore@, node_type@, idx) {
            let w = choose|w: int|
                0 <= w < ignore@.len() && (#[trigger] ignore@[w]).0@ == node_type@ && ignore@[w].1
                    == idx;
        }
    }
    false
}

/// Builds the upgrade plan for a whole run: for each selected node type,
/// each test-mode database not in the ignore list, with the node index
/// added to the type's test offset.
pub fn plan_all_upgrades(
    infos: &Vec<(String, DbMode, usize)>,
    ignore: &Vec<(String, usize)>,
) -> (r: Vec<(String, DbMode)>)
    ensures
        plan_view(r@) == plan_all(infos@, ignore@),
{
    let mut out: Vec<(String, DbMode)> = Vec::new();
    let mut i: usize = 0;
    proof {
        assert(plan_view(out@) =~~= plan_all(infos@.take(0), ignore@));
    }
    while i < infos.len()
        invariant
            i <= infos@.len(),
            plan_view(out@) == plan_all(infos@.take(i as int), ignore@),
        decreases infos@.len() - i,
    {
        let node_type = infos[i].0.clone();
        let mode = infos[i].1;
        let count = infos[i].2;
        let mut idx: usize = 0;
        while idx < count
            invariant
                i < infos@.len(),
                node_type@ == infos@[i as int].0@,
                mode == infos@[i as int].1,
                count == infos@[i as int].2,
                idx <= count,
                plan_view(out@) == plan_all(infos@.take(i as int), ignore@) + plan_type(
                    infos@[i as int].0@,
                    mode,
                    idx as int,
                    ignore@,
                ),
            decreases count - idx,
        {
            match mode {
                DbMode::Test(base) => {
                    let skip = is_ignored(ignore, &node_type, idx);
                    let ghost pre = out@;
                    if !skip && idx <= usize::MAX - base {
                        out.push((node_type.clone(), DbMode::Test(base + idx)));
                    }
                    proof {
                        let t = infos@[i as int].0@;
                        assert(plan_type(t, mode, idx + 1, ignore@) == plan_type(
                            t,
                            mode,
                            idx as int,
                            ignore@,
                        ) + (if !plan_ignored(ignore@, t, idx) && base + idx <= usize::MAX {
                            seq![(t, DbMode::Test((base + idx) as usize))]
                        } else {
                            Seq::empty()
                        }));
                        if !plan_ignored(ignore@, t, idx) && base + idx <= usize::MAX {
                            assert(plan_view(out@) =~~= plan_view(pre).push((
                                t,
                                DbMode::Test((base + idx) as usize),
                            )));
                            assert(plan_view(out@) =~~= plan_all(infos@.take(i as int), ignore@)
                                + plan_type(t, mode, idx + 1, ignore@));
                        } else {
                            assert(plan_type(t, mode, idx + 1, ignore@) =~~= plan_type(
                                t,
                                mode,
                                idx as int,
                                ignore@,
                            ));
                            assert(plan_view(out@) =~~= plan_all(infos@.take(i as int), ignore@)
                                + plan_type(t, mode, idx + 1, ignore@));
                        }
                    }
                },
                _ => {
                    proof {
                        assert(plan_type(infos@[i as int].0@, mode, idx + 1, ignore@) =~~= plan_type(
                            infos@[i as int].0@,
                            mode,
                            idx as int,
                            ignore@,
                        ));
                    }
                },
            }
            idx = idx + 1;
        }
        i = i + 1;
        proof {
            assert(infos@.take(i as int).drop_last() =~= infos@.take(i - 1));
            assert(infos@.take(i as int).last() == infos@[i - 1]);
            assert(plan_view(out@) =~~= plan_all(infos@.take(i as int), ignore@));
        }
    }
    proof {
        assert(infos@.take(infos@.len() as int) =~= infos@);
    }
    out
}

/// The database of one selected node type at one index: the test offset is
/// additive, other modes pass through.
pub fn plan_single(node_type: String, db_mode: DbMode, node_index: usize) -> (r: (String, DbMode))
    requires
        db_mode matches DbMode::Test(base) ==> base + node_index <= usize::MAX,
    ensures
        r.0 == node_type,
        r.1 == (match db_mode {
            DbMode::Test(base) => DbMode::Test((base + node_index) as usize),
            m => m,
        }),
{
    match db_mode {
        DbMode::Test(base) => (node_type, DbMode::Test(base + node_index)),
        m => (node_type, m),
    }
}

/// Every database the system owns: one per node type, with the raft-backed
/// variants of the consensus-bearing roles.
pub fn db_spec_infos() -> (r: Vec<DbSpecInfo>)
    ensures
        r@.len() == 6,
        r@[0].node_type@ == "compute"@ && r@[0].suffix@ == ".compute"@,
        r@[1].node_type@ == "compute"@ && r@[1].suffix@ == ".compute_raft"@,
        r@[2].node_type@ == "storage"@ && r@[2].suffix@ == ".storage"@,
        r@[3].node_type@ == "storage"@ && r@[3].suffix@ == ".storage_raft"@,
        r@[4].node_type@ == "user"@ && r@[4].suffix@ == ".wallet.user"@,
        r@[5].node_type@ == "miner"@ && r@[5].suffix@ == ".wallet.miner"@,
{
    let mut out: Vec<DbSpecInfo> = Vec::new();
    let mut wallet_cols: Vec<String> = Vec::new();
    wallet_cols.push("wallet".to_owned());
    let mut storage_cols: Vec<String> = Vec::new();
    storage_cols.push("blocks".to_owned());
    storage_cols.push("hash_index".to_owned());
    let mut default_cols: Vec<String> = Vec::new();
    default_cols.push("default".to_owned());
    let mut default_cols2: Vec<String> = Vec::new();
    default_cols2.push("default".to_owned());
    let mut storage_cols2: Vec<String> = Vec::new();
    storage_cols2.push("blocks".to_owned());
    storage_cols2.push("hash_index".to_owned());
    let mut wallet_cols2: Vec<String> = Vec::new();
    wallet_cols2.push("wallet".to_owned());
    out.push(DbSpecInfo {
        node_type: "compute".to_owned(),
        suffix: ".compute".to_owned(),
        columns: default_cols,
    });
    out.push(DbSpecInfo {
        node_type: "compute".to_owned(),
        suffix: ".compute_raft".to_owned(),
        columns: default_cols2,
    });
    out.push(DbSpecInfo {
        node_type: "storage".to_owned(),
        suffix: ".storage".to_owned(),
        columns: storage_cols,
    });
    out.push(DbSpecInfo {
        node_type: "storage".to_owned(),
        suffix: ".storage_raft".to_owned(),
        columns: storage_cols2,
    });
    out.push(DbSpecInfo {
        node_type: "user".to_owned(),
        suffix: ".wallet.user".to_owned(),
        columns: wallet_cols,
    });
    out.push(DbSpecInfo {
        node_type: "miner".to_owned(),
        suffix: ".wallet.miner".to_owned(),
        columns: wallet_cols2,
    });
    out
}

/// Compares a node-type name against an expected name.
fn type_is(node_type: &String, expected: &str) -> (b: bool)
    ensures
        b == (node_type@ == expected@),
{
    let nb = node_type.as_str().as_bytes_vec();
    let eb = expected.as_bytes_vec();
    let c = bytes_cmp(&nb, &eb);
    let same = match c {
        ByteOrd::Eq => true,
        _ => false,
    };
    proof {
        if same {
            crate::transaction::lemma_hash_bytes_injective(node_type@, expected@);
        } else {
            if node_type@ == expected@ {
                crate::order::lemma_bytes_lt_irrefl(nb@);
            }
        }
    }
    same
}

/// Dispatches one database to its node type's upgrade routine, relaying
/// that routine's whole outcome; a name outside the four known types aborts
/// with a configuration error and leaves the database untouched.
pub fn upgrade_db_for_type(node_type: &String, db: &mut SimpleDb, upgrade_cfg: &UpgradeCfg) -> (r:
    Result<(), UpgradeError>)
    requires
        old(db).wf(),
        old(db)@.len() >= 1,
        node_type@ == "storage"@ ==> old(db)@.len() >= 2,
    ensures
        final(db).wf(),
        (node_type@ != "compute"@ && node_type@ != "storage"@ && node_type@ != "user"@
            && node_type@ != "miner"@) <==> r == Err::<(), UpgradeError>(UpgradeError::ConfigError),
        r is Err ==> *final(db) == *old(db),
        (node_type@ == "user"@ || node_type@ == "miner"@) ==> *final(db) == *old(db) && (r is Ok
            <==> (forall|i: int|
            0 <= i < old(db)@[0].len() ==> wallet_entry_valid(#[trigger] old(db)@[0][i]))) && (r
            is Err ==> r == Err::<(), UpgradeError>(UpgradeError::SchemaMismatch)),
        node_type@ == "storage"@ ==> *final(db) == *old(db) && (r is Ok <==> ((forall|i: int|
            0 <= i < old(db)@[0].len() ==> (#[trigger] old(db)@[0][i]).0.len() == 8) && (forall|
        i: int| 0 <= i < old(db)@[1].len() ==> (#[trigger] old(db)@[1][i]).1.len() == 8))) && (r
            is Err ==> r == Err::<(), UpgradeError>(UpgradeError::SchemaMismatch)),
        node_type@ == "compute"@ ==> r is Ok && (upgrade_cfg.db_cfg == DbCfg::ComputeBlockToMine
            ==> *final(db) == *old(db)) && (upgrade_cfg.db_cfg == DbCfg::ComputeBlockInStorage
            ==> final(db)@ == old(db)@.update(
            0,
            col_delete(old(db)@[0], block_to_mine_key_bytes()),
        )),
{
    proof {
        reveal_strlit("compute");
        reveal_strlit("storage");
        reveal_strlit("user");
        reveal_strlit("miner");
        assert("compute"@.len() == 7 && "storage"@.len() == 7 && "user"@.len() == 4 && "miner"@.len()
            == 5);
        assert("compute"@ != "storage"@) by {
            assert("compute"@[0] == 'c' && "storage"@[0] == 's');
        }
    }
    if type_is(node_type, "compute") {
        return upgrade_compute_db(db, upgrade_cfg);
    }
    if type_is(node_type, "storage") {
        return upgrade_storage_db(db, upgrade_cfg);
    }
    if type_is(node_type, "user") {
        return upgrade_wallet_db(db, upgrade_cfg);
    }
    if type_is(node_type, "miner") {
        return upgrade_wallet_db(db, upgrade_cfg);
    }
    Err(UpgradeError::ConfigError)
}

} // verus!
