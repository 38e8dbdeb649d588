//! The wallet: keypairs and address derivation, the fund store with its
//! running total, received-output records, and payment input selection.
//! Everything the wallet knows is mirrored into its key-value store under
//! the canonical framing, so a persisted wallet is exactly the encoding of
//! the state the methods report.

use vstd::prelude::*;
use crate::codec::{enc_bytes, enc_str, enc_u32, enc_u64, emit_u64, emit_bytes, read_u64, read_u32, read_bytes};
use crate::crypto::{
    hex_of, sha3_256, sha3_256_of, hex_encode, serialize_pub_key, sign_message, signature_of,
    new_keypair, string_from_utf8, PUBLIC_KEY_LEN, SECRET_KEY_LEN,
};
use crate::kv::{SimpleDb, DbMode, col_put, col_delete, has_key, key_index};
use crate::order::{bytes_cmp, ByteOrd};
use crate::transaction::{
    enc_out_point, hash_bytes, op_lt, same_out_point, construct_payment_tx_ins, OutPoint,
    TokenAmount, Transaction, TxConstructor, TxIn,
};
use crate::user::ReturnPayment;

verus! {

/// Network version folded into every derived address.
pub const NETWORK_VERSION: u8 = 0;

/// A derived destination address together with the network version it was
/// derived for.
#[derive(Debug, Clone, PartialEq, Eq)]
pub struct PaymentAddress {
    pub address: String,
    pub net: u8,
}

/// What the wallet records about one received output: the owning address and
/// the network it lives on.
#[derive(Debug, Clone, PartialEq, Eq)]
pub struct TransactionStore {
    pub address: String,
    pub net: u8,
}

/// The keypair behind one wallet address.
#[derive(Debug, Clone, PartialEq, Eq)]
pub struct AddressStore {
    pub public_key: Vec<u8>,
    pub secret_key: Vec<u8>,
}

/// The wallet's funds: a running total and the amount held by each unspent
/// output, kept in ascending output order.
#[derive(Debug, Clone, PartialEq, Eq)]
pub struct FundStore {
    pub running_total: TokenAmount,
    pub transactions: Vec<(OutPoint, TokenAmount)>,
}

/// Why a wallet operation failed.
#[derive(Debug, Clone, Copy, PartialEq, Eq, Structural)]
pub enum WalletError {
    InsufficientFunds,
    CorruptStore,
}

/// Sum of the amounts recorded in a fund store.
pub open spec fn fund_sum(s: Seq<(OutPoint, TokenAmount)>) -> int
    decreases s.len(),
{
    if s.len() == 0 {
        0
    } else {
        fund_sum(s.drop_last()) + s.last().1.0
    }
}

/// Entries are in strictly ascending output order (so no output appears
/// twice).
pub open spec fn fund_sorted(s: Seq<(OutPoint, TokenAmount)>) -> bool {
    forall|i: int, j: int| 0 <= i < j < s.len() ==> op_lt(#[trigger] s[i].0, #[trigger] s[j].0)
}

/// Whether some entry records the output `op`.
pub open spec fn fund_has(s: Seq<(OutPoint, TokenAmount)>, op: OutPoint) -> bool {
    exists|i: int| 0 <= i < s.len() && same_out_point(#[trigger] s[i].0, op)
}

/// A fund store after recording `amount` for `op`: the entry for `op` is
/// replaced if present, otherwise inserted in order.
pub open spec fn fund_insert(s: Seq<(OutPoint, TokenAmount)>, op: OutPoint, a: TokenAmount) -> Seq<
    (OutPoint, TokenAmount),
>
    decreases s.len(),
{
    if s.len() == 0 {
        seq![(op, a)]
    } else if same_out_point(s[0].0, op) {
        seq![(op, a)] + s.drop_first()
    } else if op_lt(op, s[0].0) {
        seq![(op, a)] + s
    } else {
        seq![s[0]] + fund_insert(s.drop_first(), op, a)
    }
}

/// The amount recorded for `op`, or 0 when none is.
pub open spec fn fund_amount_of(s: Seq<(OutPoint, TokenAmount)>, op: OutPoint) -> int
    decreases s.len(),
{
    if s.len() == 0 {
        0
    } else if same_out_point(s[0].0, op) {
        s[0].1.0 as int
    } else {
        fund_amount_of(s.drop_first(), op)
    }
}

impl FundStore {
    /// The fund store's invariant: ordered entries, and a running total that
    /// is exactly the sum of the recorded amounts.
    pub open spec fn wf(&self) -> bool {
        &&& fund_sorted(self.transactions@)
        &&& self.running_total.0 == fund_sum(self.transactions@)
    }

    /// An empty fund store.
    pub fn empty() -> (r: Self)
        ensures
            r.wf(),
            r.transactions@.len() == 0,
            r.running_total.0 == 0,
    {
        FundStore { running_total: TokenAmount(0), transactions: Vec::new() }
    }
}

/// Inserting preserves order when the store was ordered.
pub proof fn lemma_fund_insert_sorted(s: Seq<(OutPoint, TokenAmount)>, op: OutPoint, a: TokenAmount)
    requires
        fund_sorted(s),
    ensures
        fund_sorted(fund_insert(s, op, a)),
        fund_insert(s, op, a).len() == if fund_has(s, op) {
            s.len()
        } else {
            s.len() + 1
        },
    decreases s.len(),
{
    let r = fund_insert(s, op, a);
    if s.len() == 0 {
    } else if same_out_point(s[0].0, op) {
        assert forall|i: int, j: int| 0 <= i < j < r.len() implies op_lt(r[i].0, r[j].0) by {
            if i == 0 {
                assert(r[j].0 == s[j].0);
                assert(op_lt(s[0].0, s[j].0));
                crate::transaction::lemma_op_lt_connected(op, s[j].0);
                if op_lt(s[j].0, op) {
                    crate::transaction::lemma_op_lt_trans(s[0].0, s[j].0, op);
                    crate::transaction::lemma_op_lt_irrefl(s[0].0, op);
                }
                if same_out_point(op, s[j].0) {
                    crate::transaction::lemma_op_lt_irrefl(s[0].0, s[j].0);
                }
            } else {
                assert(r[i].0 == s[i].0 && r[j].0 == s[j].0);
            }
        }
        assert(fund_has(s, op)) by {
            assert(same_out_point(s[0].0, op));
        }
    } else if op_lt(op, s[0].0) {
        assert forall|i: int, j: int| 0 <= i < j < r.len() implies op_lt(r[i].0, r[j].0) by {
            if i == 0 {
                assert(r[j].0 == s[j - 1].0);
                if j > 1 {
                    crate::transaction::lemma_op_lt_trans(op, s[0].0, s[j - 1].0);
                }
            } else {
                assert(r[i].0 == s[i - 1].0 && r[j].0 == s[j - 1].0);
            }
        }
        assert(!fund_has(s, op)) by {
            crate::transaction::lemma_op_lt_irrefl(op, s[0].0);
            assert forall|i: int| 0 < i < s.len() implies !same_out_point(s[i].0, op) by {
                crate::transaction::lemma_op_lt_trans(op, s[0].0, s[i].0);
                crate::transaction::lemma_op_lt_irrefl(op, s[i].0);
            }
        }
    } else {
        let t = s.drop_first();
        assert(fund_sorted(t)) by {
            assert(forall|i: int, j: int|
                0 <= i < j < t.len() ==> t[i] == s[i + 1] && t[j] == s[j + 1]);
        }
        lemma_fund_insert_sorted(t, op, a);
        let rt = fund_insert(t, op, a);
        crate::transaction::lemma_op_lt_connected(s[0].0, op);
        crate::transaction::lemma_op_lt_irrefl(s[0].0, op);
        // s[0].0 is below op here: op is neither equal to nor below it.
        assert(op_lt(s[0].0, op));
        crate::transaction::lemma_op_lt_asym(s[0].0, op);
        assert forall|i: int, j: int| 0 <= i < j < r.len() implies op_lt(r[i].0, r[j].0) by {
            if i == 0 {
                assert(r[j].0 == rt[j - 1].0);
                lemma_fund_insert_member(t, op, a, j - 1);
                if !same_out_point(rt[j - 1].0, op) {
                    let m = choose|m: int| 0 <= m < t.len() && t[m].0 == rt[j - 1].0;
                    assert(t[m] == s[m + 1]);
                }
                assert(op_lt(s[0].0, rt[j - 1].0));
            } else {
                assert(r[i].0 == rt[i - 1].0 && r[j].0 == rt[j - 1].0);
            }
        }
        if fund_has(t, op) {
            assert(fund_has(s, op)) by {
                let w = choose|i: int| 0 <= i < t.len() && same_out_point(t[i].0, op);
                assert(same_out_point(s[w + 1].0, op));
            }
        } else {
            assert(!fund_has(s, op)) by {
                if fund_has(s, op) {
                    let w = choose|i: int| 0 <= i < s.len() && same_out_point(s[i].0, op);
                    assert(w != 0);
                    assert(t[w - 1] == s[w]);
                }
            }
        }
    }
}

/// Every entry of an insertion result is either the inserted entry or one of
/// the old ones; here stated for the entry order needed above.
pub proof fn lemma_fund_insert_member(
    s: Seq<(OutPoint, TokenAmount)>,
    op: OutPoint,
    a: TokenAmount,
    i: int,
)
    requires
        fund_sorted(s),
        0 <= i < fund_insert(s, op, a).len(),
    ensures
        same_out_point(fund_insert(s, op, a)[i].0, op) || fund_has(s, fund_insert(s, op, a)[i].0),
        same_out_point(fund_insert(s, op, a)[i].0, op) || (exists|j: int|
            0 <= j < s.len() && s[j].0 == #[trigger] fund_insert(s, op, a)[i].0),
    decreases s.len(),
{
    let r = fund_insert(s, op, a);
    if s.len() == 0 {
    } else if same_out_point(s[0].0, op) {
        if i > 0 {
            assert(r[i].0 == s[i].0);
            assert(same_out_point(s[i].0, r[i].0)) by {
                assert(s[i].0.t_hash@ == s[i].0.t_hash@);
            }
        }
    } else if op_lt(op, s[0].0) {
        if i > 0 {
            assert(r[i].0 == s[i - 1].0);
            assert(same_out_point(s[i - 1].0, r[i].0));
        }
    } else {
        if i > 0 {
            let t = s.drop_first();
            assert(fund_sorted(t)) by {
                assert(forall|p: int, q: int|
                    0 <= p < q < t.len() ==> t[p] == s[p + 1] && t[q] == s[q + 1]);
            }
            lemma_fund_insert_member(t, op, a, i - 1);
            assert(r[i] == fund_insert(t, op, a)[i - 1]);
            if !same_out_point(r[i].0, op) {
                let w = choose|j: int| 0 <= j < t.len() && t[j].0 == fund_insert(t, op, a)[i - 1].0;
                assert(s[w + 1].0 == r[i].0);
                assert(same_out_point(s[w + 1].0, r[i].0));
            }
        } else {
            assert(same_out_point(s[0].0, r[0].0));
        }
    }
}

/// Inserting adjusts the sum by the difference between the new amount and
/// whatever was recorded before.
pub proof fn lemma_fund_insert_sum(s: Seq<(OutPoint, TokenAmount)>, op: OutPoint, a: TokenAmount)
    requires
        fund_sorted(s),
    ensures
        fund_sum(fund_insert(s, op, a)) == fund_sum(s) - (if fund_has(s, op) {
            fund_amount_of(s, op)
        } else {
            0
        }) + a.0,
    decreases s.len(),
{
    let r = fund_insert(s, op, a);
    if s.len() == 0 {
        assert(r =~= seq![(op, a)]);
        assert(r.drop_last() =~= Seq::<(OutPoint, TokenAmount)>::empty());
        assert(fund_sum(Seq::<(OutPoint, TokenAmount)>::empty()) == 0);
    } else if same_out_point(s[0].0, op) {
        lemma_fund_sum_first(s);
        lemma_fund_sum_first(r);
        assert(r.drop_first() =~= s.drop_first());
        assert(fund_amount_of(s, op) == s[0].1.0);
        assert(fund_has(s, op)) by {
            assert(same_out_point(s[0].0, op));
        }
        assert(fund_sum(r) == fund_sum(s) - (if fund_has(s, op) {
            fund_amount_of(s, op)
        } else {
            0
        }) + a.0);
    } else if op_lt(op, s[0].0) {
        lemma_fund_sum_first(r);
        assert(r.drop_first() =~= s);
        assert(!fund_has(s, op)) by {
            crate::transaction::lemma_op_lt_irrefl(op, s[0].0);
            assert forall|i: int| 0 < i < s.len() implies !same_out_point(s[i].0, op) by {
                crate::transaction::lemma_op_lt_trans(op, s[0].0, s[i].0);
                crate::transaction::lemma_op_lt_irrefl(op, s[i].0);
            }
        }
        assert(fund_sum(r) == fund_sum(s) - (if fund_has(s, op) {
            fund_amount_of(s, op)
        } else {
            0
        }) + a.0);
    } else {
        let t = s.drop_first();
        assert(fund_sorted(t)) by {
            assert(forall|p: int, q: int|
                0 <= p < q < t.len() ==> t[p] == s[p + 1] && t[q] == s[q + 1]);
        }
        lemma_fund_insert_sum(t, op, a);
        lemma_fund_sum_first(s);
        lemma_fund_sum_first(r);
        crate::transaction::lemma_op_lt_connected(s[0].0, op);
        crate::transaction::lemma_op_lt_irrefl(s[0].0, op);
        if op_lt(s[0].0, op) {
            crate::transaction::lemma_op_lt_asym(s[0].0, op);
        }
        assert(r.drop_first() =~= fund_insert(t, op, a));
        assert(fund_amount_of(s, op) == fund_amount_of(t, op));
        if fund_has(t, op) {
            let w = choose|i: int| 0 <= i < t.len() && same_out_point(t[i].0, op);
            assert(same_out_point(s[w + 1].0, op));
            assert(fund_has(s, op));
        }
        if fund_has(s, op) {
            let w = choose|i: int| 0 <= i < s.len() && same_out_point(s[i].0, op);
            assert(w != 0);
            assert(t[w - 1] == s[w]);
            assert(fund_has(t, op));
        }
        assert(fund_sum(r) == fund_sum(s) - (if fund_has(s, op) {
            fund_amount_of(s, op)
        } else {
            0
        }) + a.0);
    }
}

/// Recording an output never drops another: every output the store held is
/// still held after an insertion.
pub proof fn lemma_fund_insert_has(
    s: Seq<(OutPoint, TokenAmount)>,
    op: OutPoint,
    a: TokenAmount,
    op2: OutPoint,
)
    requires
        fund_has(s, op2),
    ensures
        fund_has(fund_insert(s, op, a), op2),
    decreases s.len(),
{
    let r = fund_insert(s, op, a);
    if s.len() == 0 {
    } else if same_out_point(s[0].0, op) {
        let w = choose|i: int| 0 <= i < s.len() && same_out_point((#[trigger] s[i]).0, op2);
        if w == 0 {
            assert(same_out_point(r[0].0, op2));
        } else {
            assert(r[w] == s.drop_first()[w - 1]);
            assert(s.drop_first()[w - 1] == s[w]);
            assert(same_out_point(r[w].0, op2));
        }
    } else if op_lt(op, s[0].0) {
        let w = choose|i: int| 0 <= i < s.len() && same_out_point((#[trigger] s[i]).0, op2);
        assert(r[w + 1] == s[w]);
        assert(same_out_point(r[w + 1].0, op2));
    } else {
        let t = s.drop_first();
        let w = choose|i: int| 0 <= i < s.len() && same_out_point((#[trigger] s[i]).0, op2);
        if w == 0 {
            assert(same_out_point(r[0].0, op2));
        } else {
            assert(t[w - 1] == s[w]);
            assert(fund_has(t, op2)) by {
                assert(same_out_point(t[w - 1].0, op2));
            }
            lemma_fund_insert_has(t, op, a, op2);
            let wt = choose|i: int|
                0 <= i < fund_insert(t, op, a).len() && same_out_point(
                    (#[trigger] fund_insert(t, op, a)[i]).0,
                    op2,
                );
            assert(r[wt + 1] == fund_insert(t, op, a)[wt]);
            assert(same_out_point(r[wt + 1].0, op2));
        }
    }
}

/// The sum equals the first amount plus the sum of the rest.
pub proof fn lemma_fund_sum_first(s: Seq<(OutPoint, TokenAmount)>)
    requires
        s.len() > 0,
    ensures
        fund_sum(s) == s[0].1.0 + fund_sum(s.drop_first()),
    decreases s.len(),
{
    if s.len() == 1 {
        assert(s.drop_last() =~= Seq::<(OutPoint, TokenAmount)>::empty());
        assert(s.drop_first() =~= Seq::<(OutPoint, TokenAmount)>::empty());
    } else {
        lemma_fund_sum_first(s.drop_last());
        assert(s.drop_last()[0] == s[0]);
        assert(s.drop_first().drop_last() =~= s.drop_last().drop_first());
        assert(fund_sum(s.drop_first()) == fund_sum(s.drop_first().drop_last())
            + s.drop_first().last().1.0);
    }
}

/// Amounts are non-negative, so every sum is.
pub proof fn lemma_fund_sum_nonneg(s: Seq<(OutPoint, TokenAmount)>)
    ensures
        fund_sum(s) >= 0,
    decreases s.len(),
{
    if s.len() > 0 {
        lemma_fund_sum_nonneg(s.drop_last());
    }
}

/// No recorded amount is negative.
pub proof fn lemma_fund_amount_nonneg(s: Seq<(OutPoint, TokenAmount)>, op: OutPoint)
    ensures
        fund_amount_of(s, op) >= 0,
    decreases s.len(),
{
    if s.len() > 0 && !same_out_point(s[0].0, op) {
        lemma_fund_amount_nonneg(s.drop_first(), op);
    }
}

/// The amount recorded for an output never exceeds the total.
pub proof fn lemma_fund_amount_le_sum(s: Seq<(OutPoint, TokenAmount)>, op: OutPoint)
    requires
        fund_has(s, op),
    ensures
        fund_amount_of(s, op) <= fund_sum(s),
    decreases s.len(),
{
    lemma_fund_sum_first(s);
    if same_out_point(s[0].0, op) {
        lemma_fund_sum_nonneg(s.drop_first());
    } else {
        let t = s.drop_first();
        assert(fund_has(t, op)) by {
            let w = choose|i: int| 0 <= i < s.len() && same_out_point(s[i].0, op);
            assert(w != 0);
            assert(t[w - 1] == s[w]);
            assert(same_out_point(t[w - 1].0, op));
        }
        lemma_fund_amount_le_sum(t, op);
    }
}

impl FundStore {
    /// Records `amount` for `op`: replaces the entry for `op` if one exists,
    /// otherwise inserts it in order, and keeps the running total equal to
    /// the sum.
    pub fn insert(&mut self, op: OutPoint, amount: TokenAmount)
        requires
            old(self).wf(),
            fund_sum(old(self).transactions@) - (if fund_has(old(self).transactions@, op) {
                fund_amount_of(old(self).transactions@, op)
            } else {
                0
            }) + amount.0 <= u64::MAX,
        ensures
            final(self).wf(),
            final(self).transactions@ == fund_insert(old(self).transactions@, op, amount),
            final(self).running_total.0 == fund_sum(final(self).transactions@),
    {
        proof {
            lemma_fund_insert_sorted(self.transactions@, op, amount);
            lemma_fund_insert_sum(self.transactions@, op, amount);
            lemma_fund_sum_nonneg(self.transactions@);
        }
        let ghost orig = self.transactions@;
        let mut i: usize = 0;
        let mut replaced = false;
        let mut old_amount: u64 = 0;
        loop
            invariant_except_break
                !replaced,
                old_amount == 0,
                self.transactions@ == orig,
                forall|j: int| 0 <= j < i ==> op_lt(#[trigger] orig[j].0, op),
            invariant
                0 <= i <= old(self).transactions@.len(),
                fund_sorted(orig),
                orig == old(self).transactions@,
                self.running_total == old(self).running_total,
            ensures
                self.transactions@ == fund_insert(orig, op, amount),
                replaced == fund_has(orig, op),
                replaced ==> old_amount == fund_amount_of(orig, op),
                !replaced ==> old_amount == 0,
            decreases old(self).transactions@.len() - i,
        {
            if i >= self.transactions.len() {
                self.transactions.push((op, amount));
                proof {
                    lemma_fund_insert_tail(orig, op, amount, i as int);
                    assert(self.transactions@ =~= fund_insert(orig, op, amount));
                    assert(!fund_has(orig, op)) by {
                        if fund_has(orig, op) {
                            let w = choose|j: int|
                                0 <= j < orig.len() && same_out_point(orig[j].0, op);
                            crate::transaction::lemma_op_lt_irrefl(orig[w].0, op);
                        }
                    }
                }
                break ;
            }
            let cmp = self.transactions[i].0.cmp_order(&op);
            match cmp {
                ByteOrd::Eq => {
                    old_amount = self.transactions[i].1.0;
                    let _removed = self.transactions.remove(i);
                    self.transactions.insert(i, (op, amount));
                    replaced = true;
                    proof {
                        lemma_fund_insert_at(orig, op, amount, i as int, true);
                        assert(self.transactions@ =~= fund_insert(orig, op, amount));
                        assert forall|j: int| 0 <= j < i implies !same_out_point(
                            #[trigger] orig[j].0,
                            op,
                        ) by {
                            crate::transaction::lemma_op_lt_irrefl(orig[j].0, op);
                        }
                        lemma_fund_amount_at(orig, op, i as int);
                        assert(fund_has(orig, op)) by {
                            assert(same_out_point(orig[i as int].0, op));
                        }
                    }
                    break ;
                },
                ByteOrd::Gt => {
                    // The stored output is above `op`, so `op` belongs here.
                    self.transactions.insert(i, (op, amount));
                    proof {
                        lemma_fund_insert_at(orig, op, amount, i as int, false);
                        assert(self.transactions@ =~= fund_insert(orig, op, amount));
                        assert(!fund_has(orig, op)) by {
                            if fund_has(orig, op) {
                                let w = choose|j: int|
                                    0 <= j < orig.len() && same_out_point(orig[j].0, op);
                                if w < i {
                                    crate::transaction::lemma_op_lt_irrefl(orig[w].0, op);
                                } else if w == i {
                                    crate::transaction::lemma_op_lt_irrefl(op, orig[w].0);
                                } else {
                                    crate::transaction::lemma_op_lt_trans(
                                        op,
                                        orig[i as int].0,
                                        orig[w].0,
                                    );
                                    crate::transaction::lemma_op_lt_irrefl(op, orig[w].0);
                                }
                            }
                        }
                    }
                    break ;
                },
                ByteOrd::Lt => {
                    i = i + 1;
                },
            }
        }
        proof {
            lemma_fund_sum_nonneg(fund_insert(orig, op, amount));
            if fund_has(orig, op) {
                lemma_fund_amount_le_sum(orig, op);
            }
        }
        let total = if replaced {
            self.running_total.0 - old_amount + amount.0
        } else {
            self.running_total.0 + amount.0
        };
        self.running_total = TokenAmount(total);
    }
}

/// Appending an entry above everything present is insertion at the tail.
pub proof fn lemma_fund_insert_tail(
    s: Seq<(OutPoint, TokenAmount)>,
    op: OutPoint,
    a: TokenAmount,
    n: int,
)
    requires
        fund_sorted(s),
        n == s.len(),
        forall|j: int| 0 <= j < s.len() ==> op_lt(#[trigger] s[j].0, op),
    ensures
        fund_insert(s, op, a) == s.push((op, a)),
    decreases s.len(),
{
    if s.len() > 0 {
        crate::transaction::lemma_op_lt_irrefl(s[0].0, op);
        let t = s.drop_first();
        assert(fund_sorted(t) && forall|j: int| 0 <= j < t.len() ==> op_lt(#[trigger] t[j].0, op))
            by {
            assert(forall|j: int| 0 <= j < t.len() ==> t[j] == s[j + 1]);
        }
        crate::transaction::lemma_op_lt_asym(s[0].0, op);
        lemma_fund_insert_tail(t, op, a, t.len() as int);
        assert(fund_insert(s, op, a) =~= s.push((op, a)));
    } else {
        assert(fund_insert(s, op, a) =~= s.push((op, a)));
    }
}

/// Inserting at the position found by an ordered scan: every earlier entry is
/// below `op`, and the entry at the position is either `op` itself (replace)
/// or above it (insert).
pub proof fn lemma_fund_insert_at(
    s: Seq<(OutPoint, TokenAmount)>,
    op: OutPoint,
    a: TokenAmount,
    i: int,
    eq: bool,
)
    requires
        fund_sorted(s),
        0 <= i < s.len(),
        forall|j: int| 0 <= j < i ==> op_lt(#[trigger] s[j].0, op),
        eq ==> same_out_point(s[i].0, op),
        !eq ==> op_lt(op, s[i].0),
    ensures
        eq ==> fund_insert(s, op, a) == s.update(i, (op, a)),
        !eq ==> fund_insert(s, op, a) == s.subrange(0, i) + seq![(op, a)] + s.subrange(
            i,
            s.len() as int,
        ),
    decreases s.len(),
{
    if i == 0 {
        if eq {
            assert(fund_insert(s, op, a) =~= s.update(0, (op, a)));
        } else {
            crate::transaction::lemma_op_lt_irrefl(op, s[0].0);
            assert(fund_insert(s, op, a) =~= s.subrange(0, 0) + seq![(op, a)] + s.subrange(
                0,
                s.len() as int,
            ));
        }
    } else {
        crate::transaction::lemma_op_lt_irrefl(s[0].0, op);
        crate::transaction::lemma_op_lt_asym(s[0].0, op);
        let t = s.drop_first();
        assert(forall|j: int| 0 <= j < t.len() ==> t[j] == s[j + 1]);
        assert(fund_sorted(t)) by {
            assert(forall|p: int, q: int|
                0 <= p < q < t.len() ==> t[p] == s[p + 1] && t[q] == s[q + 1]);
        }
        assert(forall|j: int| 0 <= j < i - 1 ==> op_lt(#[trigger] t[j].0, op));
        assert(t[i - 1] == s[i]);
        lemma_fund_insert_at(t, op, a, i - 1, eq);
        if eq {
            assert(fund_insert(s, op, a) =~= s.update(i, (op, a)));
        } else {
            assert(fund_insert(s, op, a) =~= s.subrange(0, i) + seq![(op, a)] + s.subrange(
                i,
                s.len() as int,
            ));
        }
    }
}

/// The amount recorded for `op` is the amount at its entry.
pub proof fn lemma_fund_amount_at(s: Seq<(OutPoint, TokenAmount)>, op: OutPoint, i: int)
    requires
        0 <= i < s.len(),
        same_out_point(s[i].0, op),
        forall|j: int| 0 <= j < i ==> !same_out_point(#[trigger] s[j].0, op),
    ensures
        fund_amount_of(s, op) == s[i].1.0,
    decreases s.len(),
{
    if i > 0 {
        let t = s.drop_first();
        assert(t[i - 1] == s[i]);
        assert(forall|j: int| 0 <= j < i - 1 ==> t[j] == s[j + 1]);
        lemma_fund_amount_at(t, op, i - 1);
    }
}

/// Fixed store key for the fund store: a one-byte tag, distinct by length
/// from every length-prefixed output key.
pub open spec fn fund_key_bytes() -> Seq<u8> {
    seq![0u8]
}

/// Fixed store key for the address store.
pub open spec fn address_key_bytes() -> Seq<u8> {
    seq![1u8]
}

/// The fund store's key.
pub fn fund_key() -> (r: Vec<u8>)
    ensures
        r@ == fund_key_bytes(),
{
    let mut v: Vec<u8> = Vec::new();
    v.push(0u8);
    proof {
        assert(v@ =~= fund_key_bytes());
    }
    v
}

/// The address store's key.
pub fn address_key() -> (r: Vec<u8>)
    ensures
        r@ == address_key_bytes(),
{
    let mut v: Vec<u8> = Vec::new();
    v.push(1u8);
    proof {
        assert(v@ =~= address_key_bytes());
    }
    v
}

/// Canonical encoding of one fund entry: its output reference, then its
/// amount.
pub open spec fn enc_fund_entry(e: (OutPoint, TokenAmount)) -> Seq<u8> {
    enc_out_point(e.0.t_hash@, e.0.n) + enc_u64(e.1.0)
}

/// Canonical encoding of the fund store's entries, in order.
pub open spec fn enc_fund_entries(s: Seq<(OutPoint, TokenAmount)>) -> Seq<u8>
    decreases s.len(),
{
    if s.len() == 0 {
        Seq::empty()
    } else {
        enc_fund_entries(s.drop_last()) + enc_fund_entry(s.last())
    }
}

/// These bytes are the canonical encoding of this well-formed fund store.
pub open spec fn is_canonical_fund_store(data: Seq<u8>, fs: FundStore) -> bool {
    fs.wf() && data == enc_fund_store(fs)
}

/// Every entry's encoding spends at least twenty bytes.
pub proof fn lemma_enc_fund_entries_min_len(s: Seq<(OutPoint, TokenAmount)>)
    ensures
        enc_fund_entries(s).len() >= 20 * s.len(),
    decreases s.len(),
{
    vstd::bytes::lemma_auto_spec_u64_to_from_le_bytes();
    vstd::bytes::lemma_auto_spec_u32_to_from_le_bytes();
    if s.len() > 0 {
        lemma_enc_fund_entries_min_len(s.drop_last());
    }
}

/// The encoding of a prefix of the entries is a prefix of the encoding.
pub proof fn lemma_enc_fund_entries_prefix(s: Seq<(OutPoint, TokenAmount)>, j: int)
    requires
        0 <= j <= s.len(),
    ensures
        enc_fund_entries(s.take(j)).len() <= enc_fund_entries(s).len(),
        enc_fund_entries(s).subrange(0, enc_fund_entries(s.take(j)).len() as int)
            == enc_fund_entries(s.take(j)),
    decreases s.len() - j,
{
    if j == s.len() {
        assert(s.take(j) =~= s);
        assert(enc_fund_entries(s).subrange(0, enc_fund_entries(s).len() as int) =~=
            enc_fund_entries(s));
    } else {
        lemma_enc_fund_entries_prefix(s, j + 1);
        assert(s.take(j + 1).drop_last() =~= s.take(j));
        assert(s.take(j + 1).last() == s[j]);
        assert(enc_fund_entries(s.take(j + 1)) == enc_fund_entries(s.take(j)) + enc_fund_entry(
            s[j],
        ));
        let a = enc_fund_entries(s.take(j)).len() as int;
        let b = enc_fund_entries(s.take(j + 1)).len() as int;
        assert(enc_fund_entries(s).subrange(0, a) =~= enc_fund_entries(s).subrange(0, b).subrange(
            0,
            a,
        ));
        assert(enc_fund_entries(s.take(j + 1)).subrange(0, a) =~= enc_fund_entries(s.take(j)));
    }
}

/// Where entry `i` of a canonical fund store sits in the bytes, chunk by
/// chunk: the hash's length-prefixed UTF-8 form, the output index, and the
/// amount.
pub proof fn lemma_canonical_entry_bytes(data: Seq<u8>, fs: FundStore, i: int)
    requires
        is_canonical_fund_store(data, fs),
        data.len() <= usize::MAX,
        0 <= i < fs.transactions@.len(),
    ensures
        ({
            let e0 = fs.transactions@;
            let p = 16 + enc_fund_entries(e0.take(i)).len() as int;
            let hb = hash_bytes(e0[i].0.t_hash@);
            &&& data.len() == 16 + enc_fund_entries(e0).len()
            &&& p + 20 + hb.len() <= data.len()
            &&& 16 + enc_fund_entries(e0.take(i + 1)).len() == p + 20 + hb.len()
            &&& hb.len() < u64::MAX
            &&& data.subrange(p, p + 8 + hb.len() as int) == enc_bytes(hb)
            &&& data.subrange(p + 8 + hb.len() as int, p + 12 + hb.len() as int) == enc_u32(
                e0[i].0.n,
            )
            &&& data.subrange(p + 12 + hb.len() as int, p + 20 + hb.len() as int) == enc_u64(
                e0[i].1.0,
            )
        }),
{
    vstd::bytes::lemma_auto_spec_u64_to_from_le_bytes();
    vstd::bytes::lemma_auto_spec_u32_to_from_le_bytes();
    let e0 = fs.transactions@;
    let p = 16 + enc_fund_entries(e0.take(i)).len() as int;
    let hb = hash_bytes(e0[i].0.t_hash@);
    lemma_enc_fund_entries_prefix(e0, i);
    lemma_enc_fund_entries_prefix(e0, i + 1);
    assert(e0.take(i + 1).drop_last() =~= e0.take(i));
    assert(e0.take(i + 1).last() == e0[i]);
    assert(enc_fund_entries(e0.take(i + 1)) == enc_fund_entries(e0.take(i)) + enc_fund_entry(
        e0[i],
    ));
    assert(data.len() == 16 + enc_fund_entries(e0).len());
    let a = enc_fund_entries(e0.take(i)).len() as int;
    let b = enc_fund_entries(e0.take(i + 1)).len() as int;
    assert(enc_fund_entry(e0[i]).len() == 20 + hb.len());
    assert(enc_fund_entries(e0).subrange(a, b) =~= enc_fund_entry(e0[i])) by {
        assert(enc_fund_entries(e0).subrange(0, b) == enc_fund_entries(e0.take(i + 1)));
        assert(enc_fund_entries(e0).subrange(0, b).subrange(a, b) =~= enc_fund_entries(
            e0,
        ).subrange(a, b));
    }
    assert(data.subrange(p, p + 20 + hb.len() as int) =~= enc_fund_entries(e0).subrange(a, b));
    assert(data.subrange(p, p + 8 + hb.len() as int) =~= enc_fund_entry(e0[i]).subrange(
        0,
        8 + hb.len() as int,
    ));
    assert(enc_fund_entry(e0[i]).subrange(0, 8 + hb.len() as int) =~= enc_bytes(hb));
    assert(data.subrange(p + 8 + hb.len() as int, p + 12 + hb.len() as int) =~= enc_fund_entry(
        e0[i],
    ).subrange(8 + hb.len() as int, 12 + hb.len() as int));
    assert(enc_fund_entry(e0[i]).subrange(8 + hb.len() as int, 12 + hb.len() as int) =~= enc_u32(
        e0[i].0.n,
    ));
    assert(data.subrange(p + 12 + hb.len() as int, p + 20 + hb.len() as int) =~= enc_fund_entry(
        e0[i],
    ).subrange(12 + hb.len() as int, 20 + hb.len() as int));
    assert(enc_fund_entry(e0[i]).subrange(12 + hb.len() as int, 20 + hb.len() as int) =~= enc_u64(
        e0[i].1.0,
    ));
}

/// A canonical fund store's first sixteen bytes carry its total and its
/// entry count.
pub proof fn lemma_canonical_fund_header(data: Seq<u8>, fs: FundStore)
    requires
        is_canonical_fund_store(data, fs),
        data.len() <= usize::MAX,
    ensures
        data.len() == 16 + enc_fund_entries(fs.transactions@).len(),
        fs.transactions@.len() < u64::MAX,
        data.subrange(0, 8) == enc_u64(fs.running_total.0),
        data.subrange(8, 16) == enc_u64(fs.transactions@.len() as u64),
        20 * fs.transactions@.len() <= data.len(),
{
    vstd::bytes::lemma_auto_spec_u64_to_from_le_bytes();
    let e0 = fs.transactions@;
    lemma_enc_fund_entries_min_len(e0);
    assert(data.subrange(0, 8) =~= enc_u64(fs.running_total.0));
    assert(data.subrange(8, 16) =~= enc_u64(e0.len() as u64));
}

/// Canonical encoding of a fund store: total, count, then the entries.
pub open spec fn enc_fund_store(fs: FundStore) -> Seq<u8> {
    enc_u64(fs.running_total.0) + enc_u64(fs.transactions@.len() as u64) + enc_fund_entries(
        fs.transactions@,
    )
}

/// Canonical encoding of a received-output record.
pub open spec fn enc_transaction_store(ts: TransactionStore) -> Seq<u8> {
    enc_str(ts.address@) + seq![ts.net]
}

/// Canonical encoding of the address store's entries, in order.
pub open spec fn enc_addr_entries(s: Seq<(String, AddressStore)>) -> Seq<u8>
    decreases s.len(),
{
    if s.len() == 0 {
        Seq::empty()
    } else {
        enc_addr_entries(s.drop_last()) + enc_str(s.last().0@) + enc_bytes(s.last().1.public_key@)
            + enc_bytes(s.last().1.secret_key@)
    }
}

/// Canonical encoding of the address store: count, then the entries.
pub open spec fn enc_address_stores(s: Seq<(String, AddressStore)>) -> Seq<u8> {
    enc_u64(s.len() as u64) + enc_addr_entries(s)
}

/// Serializes a fund store.
pub fn encode_fund_store(fs: &FundStore) -> (r: Vec<u8>)
    ensures
        r@ == enc_fund_store(*fs),
{
    let mut out: Vec<u8> = Vec::new();
    emit_u64(&mut out, fs.running_total.0);
    emit_u64(&mut out, fs.transactions.len() as u64);
    let ghost base = out@;
    let mut i: usize = 0;
    while i < fs.transactions.len()
        invariant
            i <= fs.transactions@.len(),
            out@ == base + enc_fund_entries(fs.transactions@.subrange(0, i as int)),
        decreases fs.transactions@.len() - i,
    {
        let key = fs.transactions[i].0.to_key();
        crate::codec::emit_raw(&mut out, &key);
        emit_u64(&mut out, fs.transactions[i].1.0);
        i = i + 1;
        proof {
            let pre = fs.transactions@.subrange(0, i as int);
            assert(pre.drop_last() =~= fs.transactions@.subrange(0, i - 1));
            assert(out@ =~= base + enc_fund_entries(pre));
        }
    }
    proof {
        assert(fs.transactions@.subrange(0, fs.transactions@.len() as int) =~= fs.transactions@);
        assert(out@ =~= enc_fund_store(*fs));
    }
    out
}

/// Serializes a received-output record.
pub fn encode_transaction_store(ts: &TransactionStore) -> (r: Vec<u8>)
    ensures
        r@ == enc_transaction_store(*ts),
{
    let mut out: Vec<u8> = Vec::new();
    let ab = ts.address.as_str().as_bytes_vec();
    emit_bytes(&mut out, &ab);
    out.push(ts.net);
    proof {
        assert(out@ =~= enc_transaction_store(*ts));
    }
    out
}

/// Serializes the address store.
pub fn encode_address_stores(addrs: &Vec<(String, AddressStore)>) -> (r: Vec<u8>)
    ensures
        r@ == enc_address_stores(addrs@),
{
    let mut out: Vec<u8> = Vec::new();
    emit_u64(&mut out, addrs.len() as u64);
    let ghost base = out@;
    let mut i: usize = 0;
    while i < addrs.len()
        invariant
            i <= addrs@.len(),
            out@ == base + enc_addr_entries(addrs@.subrange(0, i as int)),
        decreases addrs@.len() - i,
    {
        let ab = addrs[i].0.as_str().as_bytes_vec();
        emit_bytes(&mut out, &ab);
        emit_bytes(&mut out, &addrs[i].1.public_key);
        emit_bytes(&mut out, &addrs[i].1.secret_key);
        i = i + 1;
        proof {
            let pre = addrs@.subrange(0, i as int);
            assert(pre.drop_last() =~= addrs@.subrange(0, i - 1));
            assert(out@ =~= base + enc_addr_entries(pre));
        }
    }
    proof {
        assert(addrs@.subrange(0, addrs@.len() as int) =~= addrs@);
        assert(out@ =~= enc_address_stores(addrs@));
    }
    out
}

/// Appending an entry above the last keeps the entries ordered.
pub proof fn lemma_fund_sorted_push(s: Seq<(OutPoint, TokenAmount)>, op: OutPoint, a: TokenAmount)
    requires
        fund_sorted(s),
        s.len() > 0 ==> op_lt(s[s.len() - 1].0, op),
    ensures
        fund_sorted(s.push((op, a))),
{
    let r = s.push((op, a));
    assert forall|i: int, j: int| 0 <= i < j < r.len() implies op_lt(r[i].0, r[j].0) by {
        if j == r.len() - 1 {
            if i < s.len() - 1 {
                crate::transaction::lemma_op_lt_trans(s[i].0, s[s.len() - 1].0, op);
            }
        } else {
            assert(r[i] == s[i] && r[j] == s[j]);
        }
    }
}

/// Appending an entry adds its amount to the sum.
pub proof fn lemma_fund_sum_push(s: Seq<(OutPoint, TokenAmount)>, op: OutPoint, a: TokenAmount)
    ensures
        fund_sum(s.push((op, a))) == fund_sum(s) + a.0,
{
    assert(s.push((op, a)).drop_last() =~= s);
}

/// Parses a fund store, accepting exactly the canonical encoding of a
/// well-formed store.

/// Two amount-equal entry lists sum alike.
pub proof fn lemma_fund_sum_pointwise(a: Seq<(OutPoint, TokenAmount)>, b: Seq<(OutPoint, TokenAmount)>)
    requires
        a.len() == b.len(),
        forall|j: int| 0 <= j < a.len() ==> (#[trigger] a[j]).1 == b[j].1,
    ensures
        fund_sum(a) == fund_sum(b),
    decreases a.len(),
{
    if a.len() > 0 {
        assert(forall|j: int| 0 <= j < a.drop_last().len() ==> a.drop_last()[j] == a[j]);
        assert(forall|j: int| 0 <= j < b.drop_last().len() ==> b.drop_last()[j] == b[j]);
        lemma_fund_sum_pointwise(a.drop_last(), b.drop_last());
    }
}

/// A length-prefixed read at entry `i`'s position of a canonical fund store
/// can only have produced that entry's hash bytes.
proof fn lemma_entry_hash_read(data: Seq<u8>, fs: FundStore, i: int, hbv: Seq<u8>, p2: int)
    requires
        is_canonical_fund_store(data, fs),
        data.len() <= usize::MAX,
        0 <= i < fs.transactions@.len(),
        p2 == 16 + enc_fund_entries(fs.transactions@.take(i)).len() + 8 + hbv.len(),
        p2 <= data.len(),
        data.subrange(16 + enc_fund_entries(fs.transactions@.take(i)).len() as int, p2)
            == enc_bytes(hbv),
    ensures
        hbv == hash_bytes(fs.transactions@[i].0.t_hash@),
        p2 == 16 + enc_fund_entries(fs.transactions@.take(i)).len() + 8 + hash_bytes(
            fs.transactions@[i].0.t_hash@,
        ).len(),
{
    vstd::bytes::lemma_auto_spec_u64_to_from_le_bytes();
    lemma_canonical_entry_bytes(data, fs, i);
    let e0 = fs.transactions@;
    let p = 16 + enc_fund_entries(e0.take(i)).len() as int;
    let hb = hash_bytes(e0[i].0.t_hash@);
    assert(data.subrange(p, p + 8) =~= data.subrange(p, p2).subrange(0, 8));
    assert(enc_bytes(hbv).subrange(0, 8) =~= enc_u64(hbv.len() as u64));
    assert(data.subrange(p, p + 8) =~= data.subrange(p, p + 8 + hb.len() as int).subrange(0, 8));
    assert(enc_bytes(hb).subrange(0, 8) =~= enc_u64(hb.len() as u64));
    assert(enc_u64(hbv.len() as u64) == enc_u64(hb.len() as u64));
    assert(hbv.len() == hb.len()) by {
        assert(vstd::bytes::spec_u64_from_le_bytes(enc_u64(hbv.len() as u64))
            == vstd::bytes::spec_u64_from_le_bytes(enc_u64(hb.len() as u64)));
    }
    assert(hbv =~= hb) by {
        assert(data.subrange(p, p2) == data.subrange(p, p + 8 + hb.len() as int));
        assert forall|k: int| 0 <= k < hb.len() implies hbv[k] == hb[k] by {
            assert(enc_bytes(hbv)[8 + k] == hbv[k]);
            assert(enc_bytes(hb)[8 + k] == hb[k]);
        }
    }
}

pub fn decode_fund_store(data: &Vec<u8>) -> (r: Option<FundStore>)
    ensures
        r matches Some(fs) ==> fs.wf() && data@ == enc_fund_store(fs),
        forall|fs: FundStore| #[trigger] is_canonical_fund_store(data@, fs) ==> r is Some,
{
    let dlen = data.len();
    let (total, pos0) = match read_u64(data, 0) {
        Some(p) => p,
        None => {
            proof {
                assert forall|fs: FundStore| !(#[trigger] is_canonical_fund_store(data@, fs)) by {
                    if is_canonical_fund_store(data@, fs) {
                        lemma_canonical_fund_header(data@, fs);
                    }
                }
            }
            return None;
        },
    };
    let (count64, pos1) = match read_u64(data, pos0) {
        Some(p) => p,
        None => {
            proof {
                assert forall|fs: FundStore| !(#[trigger] is_canonical_fund_store(data@, fs)) by {
                    if is_canonical_fund_store(data@, fs) {
                        lemma_canonical_fund_header(data@, fs);
                    }
                }
            }
            return None;
        },
    };
    proof {
        vstd::bytes::lemma_auto_spec_u64_to_from_le_bytes();
        assert forall|fs: FundStore| #[trigger] is_canonical_fund_store(data@, fs) implies count64
            == fs.transactions@.len() && total == fs.running_total.0 by {
            lemma_canonical_fund_header(data@, fs);
            assert(data@.subrange(8, 16) == enc_u64(count64));
            assert(data@.subrange(0, 8) == enc_u64(total));
            assert(vstd::bytes::spec_u64_from_le_bytes(enc_u64(count64))
                == vstd::bytes::spec_u64_from_le_bytes(enc_u64(fs.transactions@.len() as u64)));
            assert(vstd::bytes::spec_u64_from_le_bytes(enc_u64(total))
                == vstd::bytes::spec_u64_from_le_bytes(enc_u64(fs.running_total.0)));
        }
    }
    if count64 > data.len() as u64 {
        proof {
            assert forall|fs: FundStore| !(#[trigger] is_canonical_fund_store(data@, fs)) by {
                if is_canonical_fund_store(data@, fs) {
                    lemma_canonical_fund_header(data@, fs);
                }
            }
        }
        return None;
    }
    let count = count64 as usize;
    let mut entries: Vec<(OutPoint, TokenAmount)> = Vec::new();
    let mut sum: u64 = 0;
    let mut pos: usize = pos1;
    let mut i: usize = 0;
    proof {
        assert(data@.subrange(0, pos1 as int) =~= data@.subrange(0, pos0 as int) + data@.subrange(
            pos0 as int,
            pos1 as int,
        ));
        assert forall|fs: FundStore| #[trigger] is_canonical_fund_store(data@, fs) implies pos
            == 16 + enc_fund_entries(fs.transactions@.take(0)).len() by {
            assert(fs.transactions@.take(0) =~= Seq::<(OutPoint, TokenAmount)>::empty());
            assert(enc_fund_entries(Seq::<(OutPoint, TokenAmount)>::empty()) =~= Seq::<
                u8,
            >::empty());
        }
    }
    while i < count
        invariant
            entries@.len() == i <= count,
            pos <= data@.len() <= usize::MAX,
            fund_sorted(entries@),
            sum == fund_sum(entries@),
            data@.subrange(0, pos as int) == enc_u64(total) + enc_u64(count as u64)
                + enc_fund_entries(entries@),
            forall|fs: FundStore| #[trigger] is_canonical_fund_store(data@, fs) ==> ({
                let e0 = fs.transactions@;
                &&& count == e0.len()
                &&& total == fs.running_total.0
                &&& i <= e0.len()
                &&& pos == 16 + enc_fund_entries(e0.take(i as int)).len()
                &&& (forall|j: int|
                    0 <= j < i ==> same_out_point((#[trigger] entries@[j]).0, e0[j].0)
                        && entries@[j].1 == e0[j].1)
            }),
        decreases count - i,
    {
        let ghost i0 = i as int;
        let ghost entries0 = entries@;
        let (hb, p2) = match read_bytes(data, pos) {
            Some(p) => p,
            None => {
                proof {
                    vstd::bytes::lemma_auto_spec_u64_to_from_le_bytes();
                    assert forall|fs: FundStore| !(#[trigger] is_canonical_fund_store(
                        data@,
                        fs,
                    )) by {
                        if is_canonical_fund_store(data@, fs) {
                            lemma_canonical_entry_bytes(data@, fs, i0);
                            let e0 = fs.transactions@;
                            let hbl = hash_bytes(e0[i0].0.t_hash@);
                            assert(data@.subrange(pos as int, pos + 8) =~= data@.subrange(
                                pos as int,
                                pos + 8 + hbl.len() as int,
                            ).subrange(0, 8));
                            assert(enc_bytes(hbl).subrange(0, 8) =~= enc_u64(hbl.len() as u64));
                            assert(vstd::bytes::spec_u64_from_le_bytes(data@.subrange(
                                pos as int,
                                pos + 8,
                            )) == hbl.len());
                        }
                    }
                }
                return None;
            },
        };
        let ghost hbv = hb@;
        let hs = match string_from_utf8(hb) {
            Some(sx) => sx,
            None => {
                proof {
                    assert forall|fs: FundStore| !(#[trigger] is_canonical_fund_store(
                        data@,
                        fs,
                    )) by {
                        if is_canonical_fund_store(data@, fs) {
                            lemma_entry_hash_read(data@, fs, i0, hbv, p2 as int);
                            vstd::utf8::encode_utf8_valid_utf8(fs.transactions@[i0].0.t_hash@);
                        }
                    }
                }
                return None;
            },
        };
        let (n, p3) = match read_u32(data, p2) {
            Some(p) => p,
            None => {
                proof {
                    assert forall|fs: FundStore| !(#[trigger] is_canonical_fund_store(
                        data@,
                        fs,
                    )) by {
                        if is_canonical_fund_store(data@, fs) {
                            lemma_canonical_entry_bytes(data@, fs, i0);
                            lemma_entry_hash_read(data@, fs, i0, hbv, p2 as int);
                        }
                    }
                }
                return None;
            },
        };
        let (amt, p4) = match read_u64(data, p3) {
            Some(p) => p,
            None => {
                proof {
                    assert forall|fs: FundStore| !(#[trigger] is_canonical_fund_store(
                        data@,
                        fs,
                    )) by {
                        if is_canonical_fund_store(data@, fs) {
                            lemma_canonical_entry_bytes(data@, fs, i0);
                            lemma_entry_hash_read(data@, fs, i0, hbv, p2 as int);
                        }
                    }
                }
                return None;
            },
        };
        proof {
            vstd::bytes::lemma_auto_spec_u32_to_from_le_bytes();
            vstd::bytes::lemma_auto_spec_u64_to_from_le_bytes();
            assert forall|fs: FundStore| #[trigger] is_canonical_fund_store(data@, fs) implies ({
                let e0 = fs.transactions@;
                &&& hs@ == e0[i0].0.t_hash@
                &&& n == e0[i0].0.n
                &&& amt == e0[i0].1.0
            }) by {
                lemma_canonical_entry_bytes(data@, fs, i0);
                lemma_entry_hash_read(data@, fs, i0, hbv, p2 as int);
                crate::transaction::lemma_hash_bytes_injective(hs@, fs.transactions@[i0].0.t_hash@);
                let e0 = fs.transactions@;
                let hbl = hash_bytes(e0[i0].0.t_hash@);
                let p = 16 + enc_fund_entries(e0.take(i0)).len() as int;
                assert(data@.subrange(p2 as int, p3 as int) == enc_u32(e0[i0].0.n));
                assert(vstd::bytes::spec_u32_from_le_bytes(enc_u32(n))
                    == vstd::bytes::spec_u32_from_le_bytes(enc_u32(e0[i0].0.n)));
                assert(data@.subrange(p3 as int, p4 as int) == enc_u64(e0[i0].1.0));
                assert(vstd::bytes::spec_u64_from_le_bytes(enc_u64(amt))
                    == vstd::bytes::spec_u64_from_le_bytes(enc_u64(e0[i0].1.0)));
            }
        }
        let op = OutPoint { t_hash: hs, n };
        if entries.len() > 0 {
            let in_order = {
                let last = entries.len() - 1;
                match entries[last].0.cmp_order(&op) {
                    ByteOrd::Lt => true,
                    _ => false,
                }
            };
            if !in_order {
                proof {
                    assert forall|fs: FundStore| !(#[trigger] is_canonical_fund_store(
                        data@,
                        fs,
                    )) by {
                        if is_canonical_fund_store(data@, fs) {
                            let e0 = fs.transactions@;
                            assert(op_lt(e0[i0 - 1].0, e0[i0].0));
                            assert(same_out_point(entries0[i0 - 1].0, e0[i0 - 1].0));
                            assert(same_out_point(op, e0[i0].0));
                            if same_out_point(entries0[i0 - 1].0, op) {
                                crate::transaction::lemma_op_lt_irrefl(e0[i0 - 1].0, e0[i0].0);
                            }
                            if op_lt(op, entries0[i0 - 1].0) {
                                crate::transaction::lemma_op_lt_asym(e0[i0 - 1].0, e0[i0].0);
                            }
                        }
                    }
                }
                return None;
            }
        }
        let new_sum = match sum.checked_add(amt) {
            Some(sx) => sx,
            None => {
                proof {
                    assert forall|fs: FundStore| !(#[trigger] is_canonical_fund_store(
                        data@,
                        fs,
                    )) by {
                        if is_canonical_fund_store(data@, fs) {
                            let e0 = fs.transactions@;
                            assert(forall|j: int|
                                0 <= j < i0 ==> (#[trigger] entries0[j]).1 == e0.take(i0)[j].1);
                            lemma_fund_sum_pointwise(entries0, e0.take(i0));
                            lemma_fund_sum_take_next(e0, i0);
                            lemma_fund_sum_take_mono(e0, i0 + 1, e0.len() as int);
                            assert(e0.take(e0.len() as int) =~= e0);
                        }
                    }
                }
                return None;
            },
        };
        proof {
            lemma_fund_sorted_push(entries@, op, TokenAmount(amt));
            lemma_fund_sum_push(entries@, op, TokenAmount(amt));
            assert(data@.subrange(pos as int, p2 as int) == enc_str(op.t_hash@));
            assert(data@.subrange(0, p4 as int) =~= data@.subrange(0, pos as int) + data@.subrange(
                pos as int,
                p2 as int,
            ) + data@.subrange(p2 as int, p3 as int) + data@.subrange(p3 as int, p4 as int));
            let pushed = entries@.push((op, TokenAmount(amt)));
            assert(pushed.drop_last() =~= entries@);
            assert(data@.subrange(0, p4 as int) == enc_u64(total) + enc_u64(count as u64)
                + enc_fund_entries(pushed));
        }
        entries.push((op, TokenAmount(amt)));
        sum = new_sum;
        pos = p4;
        i = i + 1;
        proof {
            assert forall|fs: FundStore| #[trigger] is_canonical_fund_store(data@, fs) implies ({
                let e0 = fs.transactions@;
                &&& i <= e0.len()
                &&& pos == 16 + enc_fund_entries(e0.take(i as int)).len()
                &&& (forall|j: int|
                    0 <= j < i ==> same_out_point((#[trigger] entries@[j]).0, e0[j].0)
                        && entries@[j].1 == e0[j].1)
            }) by {
                lemma_canonical_entry_bytes(data@, fs, i0);
                lemma_entry_hash_read(data@, fs, i0, hbv, p2 as int);
                let e0 = fs.transactions@;
                assert forall|j: int| 0 <= j < i implies same_out_point(
                    (#[trigger] entries@[j]).0,
                    e0[j].0,
                ) && entries@[j].1 == e0[j].1 by {
                    if j < i0 {
                        assert(entries@[j] == entries0[j]);
                    } else {
                        assert(entries@[j] == (op, TokenAmount(amt)));
                    }
                }
            }
        }
    }
    if total != sum {
        proof {
            assert forall|fs: FundStore| !(#[trigger] is_canonical_fund_store(data@, fs)) by {
                if is_canonical_fund_store(data@, fs) {
                    let e0 = fs.transactions@;
                    assert(forall|j: int|
                        0 <= j < i ==> (#[trigger] entries@[j]).1 == e0.take(i as int)[j].1);
                    lemma_fund_sum_pointwise(entries@, e0.take(i as int));
                    assert(e0.take(i as int) =~= e0);
                }
            }
        }
        return None;
    }
    if pos != data.len() {
        proof {
            assert forall|fs: FundStore| !(#[trigger] is_canonical_fund_store(data@, fs)) by {
                if is_canonical_fund_store(data@, fs) {
                    lemma_canonical_fund_header(data@, fs);
                    assert(fs.transactions@.take(i as int) =~= fs.transactions@);
                }
            }
        }
        return None;
    }
    let fs = FundStore { running_total: TokenAmount(total), transactions: entries };
    proof {
        assert(data@.subrange(0, data@.len() as int) =~= data@);
        assert(data@ == enc_fund_store(fs));
    }
    Some(fs)
}

/// These bytes are the canonical encoding of this received-output record.
pub open spec fn is_canonical_transaction_store(data: Seq<u8>, ts: TransactionStore) -> bool {
    data == enc_transaction_store(ts)
}

/// A canonical record's length prefix names its address bytes.
proof fn lemma_canonical_record_bytes(data: Seq<u8>, ts: TransactionStore)
    requires
        is_canonical_transaction_store(data, ts),
        data.len() <= usize::MAX,
    ensures
        ({
            let ab = hash_bytes(ts.address@);
            &&& data.len() == 9 + ab.len()
            &&& ab.len() < u64::MAX
            &&& data.subrange(0, 8 + ab.len() as int) == enc_bytes(ab)
            &&& data.subrange(0, 8) == enc_u64(ab.len() as u64)
            &&& data[data.len() - 1] == ts.net
        }),
{
    vstd::bytes::lemma_auto_spec_u64_to_from_le_bytes();
    let ab = hash_bytes(ts.address@);
    assert(data.subrange(0, 8 + ab.len() as int) =~= enc_bytes(ab));
    assert(data.subrange(0, 8) =~= enc_u64(ab.len() as u64));
}

/// Parses a received-output record, accepting exactly its canonical
/// encoding.
pub fn decode_transaction_store(data: &Vec<u8>) -> (r: Option<TransactionStore>)
    ensures
        r matches Some(ts) ==> data@ == enc_transaction_store(ts),
        forall|ts: TransactionStore| #[trigger] is_canonical_transaction_store(data@, ts) ==> r
            is Some,
{
    let dlen = data.len();
    let (ab, pos) = match read_bytes(data, 0) {
        Some(p) => p,
        None => {
            proof {
                vstd::bytes::lemma_auto_spec_u64_to_from_le_bytes();
                assert forall|ts: TransactionStore| !(#[trigger] is_canonical_transaction_store(
                    data@,
                    ts,
                )) by {
                    if is_canonical_transaction_store(data@, ts) {
                        lemma_canonical_record_bytes(data@, ts);
                        let abl = hash_bytes(ts.address@);
                        assert(data@.subrange(0, 8) == enc_u64(abl.len() as u64));
                        assert(vstd::bytes::spec_u64_from_le_bytes(data@.subrange(0, 8))
                            == abl.len());
                    }
                }
            }
            return None;
        },
    };
    let ghost abv = ab@;
    proof {
        vstd::bytes::lemma_auto_spec_u64_to_from_le_bytes();
        assert forall|ts: TransactionStore| #[trigger] is_canonical_transaction_store(
            data@,
            ts,
        ) implies abv == hash_bytes(ts.address@) && pos == data@.len() - 1 by {
            lemma_canonical_record_bytes(data@, ts);
            let abl = hash_bytes(ts.address@);
            assert(data@.subrange(0, 8) =~= data@.subrange(0, pos as int).subrange(0, 8));
            assert(enc_bytes(abv).subrange(0, 8) =~= enc_u64(abv.len() as u64));
            assert(vstd::bytes::spec_u64_from_le_bytes(enc_u64(abv.len() as u64))
                == vstd::bytes::spec_u64_from_le_bytes(enc_u64(abl.len() as u64)));
            assert(abv.len() == abl.len());
            assert(abv =~= abl) by {
                assert(data@.subrange(0, pos as int) == data@.subrange(0, 8 + abl.len() as int));
                assert forall|k: int| 0 <= k < abl.len() implies abv[k] == abl[k] by {
                    assert(enc_bytes(abv)[8 + k] == abv[k]);
                    assert(enc_bytes(abl)[8 + k] == abl[k]);
                }
            }
        }
    }
    let addr = match string_from_utf8(ab) {
        Some(sx) => sx,
        None => {
            proof {
                assert forall|ts: TransactionStore| !(#[trigger] is_canonical_transaction_store(
                    data@,
                    ts,
                )) by {
                    if is_canonical_transaction_store(data@, ts) {
                        vstd::utf8::encode_utf8_valid_utf8(ts.address@);
                    }
                }
            }
            return None;
        },
    };
    if pos >= data.len() || pos != data.len() - 1 {
        return None;
    }
    let net = data[pos];
    let ts = TransactionStore { address: addr, net };
    proof {
        assert(data@.subrange(pos as int, data@.len() as int) =~= seq![net]);
        assert(data@ =~= data@.subrange(0, pos as int) + data@.subrange(
            pos as int,
            data@.len() as int,
        ));
        assert(data@ == enc_transaction_store(ts));
    }
    Some(ts)
}

/// Parses the address store, accepting exactly its canonical encoding.
#[verifier::rlimit(100)]
#[verifier::spinoff_prover]
pub fn decode_address_stores(data: &Vec<u8>) -> (r: Option<Vec<(String, AddressStore)>>)
    ensures
        r matches Some(v) ==> data@ == enc_address_stores(v@),
        forall|v: Seq<(String, AddressStore)>| #[trigger] is_canonical_address_stores(data@, v)
            ==> r is Some,
{
    let dlen = data.len();
    let (count64, pos1) = match read_u64(data, 0) {
        Some(p) => p,
        None => {
            proof {
                assert forall|v: Seq<(String, AddressStore)>| !(
                #[trigger] is_canonical_address_stores(data@, v)) by {
                    if is_canonical_address_stores(data@, v) {
                        vstd::bytes::lemma_auto_spec_u64_to_from_le_bytes();
                    }
                }
            }
            return None;
        },
    };
    proof {
        vstd::bytes::lemma_auto_spec_u64_to_from_le_bytes();
        assert forall|v: Seq<(String, AddressStore)>| #[trigger] is_canonical_address_stores(
            data@,
            v,
        ) implies count64 == v.len() && v.len() < u64::MAX by {
            lemma_enc_addr_entries_min_len(v);
            assert(data@.subrange(0, 8) =~= enc_u64(v.len() as u64));
            assert(data@.subrange(0, 8) == enc_u64(count64));
            assert(vstd::bytes::spec_u64_from_le_bytes(enc_u64(count64))
                == vstd::bytes::spec_u64_from_le_bytes(enc_u64(v.len() as u64)));
        }
    }
    if count64 > data.len() as u64 {
        proof {
            assert forall|v: Seq<(String, AddressStore)>| !(
            #[trigger] is_canonical_address_stores(data@, v)) by {
                if is_canonical_address_stores(data@, v) {
                    lemma_enc_addr_entries_min_len(v);
                }
            }
        }
        return None;
    }
    let count = count64 as usize;
    let mut out: Vec<(String, AddressStore)> = Vec::new();
    let mut pos: usize = pos1;
    let mut i: usize = 0;
    proof {
        assert forall|v: Seq<(String, AddressStore)>| #[trigger] is_canonical_address_stores(
            data@,
            v,
        ) implies pos == 8 + enc_addr_entries(v.take(0)).len() by {
            assert(v.take(0) =~= Seq::<(String, AddressStore)>::empty());
            assert(enc_addr_entries(Seq::<(String, AddressStore)>::empty()) =~= Seq::<
                u8,
            >::empty());
        }
    }
    while i < count
        invariant
            out@.len() == i <= count,
            pos <= data@.len() <= usize::MAX,
            data@.subrange(0, pos as int) == enc_u64(count as u64) + enc_addr_entries(out@),
            forall|v: Seq<(String, AddressStore)>| #[trigger] is_canonical_address_stores(
                data@,
                v,
            ) ==> count == v.len() && i <= v.len() && pos == 8 + enc_addr_entries(
                v.take(i as int),
            ).len(),
        decreases count - i,
    {
        let ghost i0 = i as int;
        let (ab, p2) = match read_bytes(data, pos) {
            Some(p) => p,
            None => {
                proof {
                    vstd::bytes::lemma_auto_spec_u64_to_from_le_bytes();
                    assert forall|v: Seq<(String, AddressStore)>| !(
                    #[trigger] is_canonical_address_stores(data@, v)) by {
                        if is_canonical_address_stores(data@, v) {
                            lemma_canonical_addr_entry_bytes(data@, v, i0);
                            let abl = hash_bytes(v[i0].0@);
                            assert(data@.subrange(pos as int, pos + 8) =~= data@.subrange(
                                pos as int,
                                pos + 8 + abl.len() as int,
                            ).subrange(0, 8));
                            assert(enc_bytes(abl).subrange(0, 8) =~= enc_u64(abl.len() as u64));
                            assert(vstd::bytes::spec_u64_from_le_bytes(data@.subrange(
                                pos as int,
                                pos + 8,
                            )) == abl.len());
                        }
                    }
                }
                return None;
            },
        };
        let ghost abv = ab@;
        proof {
            assert forall|v: Seq<(String, AddressStore)>| #[trigger] is_canonical_address_stores(
                data@,
                v,
            ) implies abv == hash_bytes(v[i0].0@) && p2 == pos + 8 + hash_bytes(v[i0].0@).len() by {
                lemma_canonical_addr_entry_bytes(data@, v, i0);
                lemma_enc_bytes_read_match(data@, pos as int, abv, hash_bytes(v[i0].0@));
            }
        }
        let addr = match string_from_utf8(ab) {
            Some(sx) => sx,
            None => {
                proof {
                    assert forall|v: Seq<(String, AddressStore)>| !(
                    #[trigger] is_canonical_address_stores(data@, v)) by {
                        if is_canonical_address_stores(data@, v) {
                            vstd::utf8::encode_utf8_valid_utf8(v[i0].0@);
                        }
                    }
                }
                return None;
            },
        };
        let (pk, p3) = match read_bytes(data, p2) {
            Some(p) => p,
            None => {
                proof {
                    vstd::bytes::lemma_auto_spec_u64_to_from_le_bytes();
                    assert forall|v: Seq<(String, AddressStore)>| !(
                    #[trigger] is_canonical_address_stores(data@, v)) by {
                        if is_canonical_address_stores(data@, v) {
                            lemma_canonical_addr_entry_bytes(data@, v, i0);
                            let abl = hash_bytes(v[i0].0@);
                            let pkl = v[i0].1.public_key@;
                            assert(data@.subrange(p2 as int, p2 + 8) =~= data@.subrange(
                                p2 as int,
                                p2 + 8 + pkl.len() as int,
                            ).subrange(0, 8));
                            assert(enc_bytes(pkl).subrange(0, 8) =~= enc_u64(pkl.len() as u64));
                            assert(vstd::bytes::spec_u64_from_le_bytes(data@.subrange(
                                p2 as int,
                                p2 + 8,
                            )) == pkl.len());
                        }
                    }
                }
                return None;
            },
        };
        let ghost pkv = pk@;
        proof {
            assert forall|v: Seq<(String, AddressStore)>| #[trigger] is_canonical_address_stores(
                data@,
                v,
            ) implies pkv == v[i0].1.public_key@ && p3 == p2 + 8 + v[i0].1.public_key@.len() by {
                lemma_canonical_addr_entry_bytes(data@, v, i0);
                lemma_enc_bytes_read_match(data@, p2 as int, pkv, v[i0].1.public_key@);
            }
        }
        let (sk, p4) = match read_bytes(data, p3) {
            Some(p) => p,
            None => {
                proof {
                    vstd::bytes::lemma_auto_spec_u64_to_from_le_bytes();
                    assert forall|v: Seq<(String, AddressStore)>| !(
                    #[trigger] is_canonical_address_stores(data@, v)) by {
                        if is_canonical_address_stores(data@, v) {
                            lemma_canonical_addr_entry_bytes(data@, v, i0);
                            let skl = v[i0].1.secret_key@;
                            assert(data@.subrange(p3 as int, p3 + 8) =~= data@.subrange(
                                p3 as int,
                                p3 + 8 + skl.len() as int,
                            ).subrange(0, 8));
                            assert(enc_bytes(skl).subrange(0, 8) =~= enc_u64(skl.len() as u64));
                            assert(vstd::bytes::spec_u64_from_le_bytes(data@.subrange(
                                p3 as int,
                                p3 + 8,
                            )) == skl.len());
                        }
                    }
                }
                return None;
            },
        };
        let ghost skv = sk@;
        proof {
            assert(data@.subrange(pos as int, p2 as int) == enc_str(addr@));
            assert(data@.subrange(0, p4 as int) =~= data@.subrange(0, pos as int) + data@.subrange(
                pos as int,
                p2 as int,
            ) + data@.subrange(p2 as int, p3 as int) + data@.subrange(p3 as int, p4 as int));
            let pushed = out@.push((addr, AddressStore { public_key: pk, secret_key: sk }));
            assert(pushed.drop_last() =~= out@);
            assert(data@.subrange(0, p4 as int) == enc_u64(count as u64) + enc_addr_entries(
                pushed,
            ));
            assert forall|v: Seq<(String, AddressStore)>| #[trigger] is_canonical_address_stores(
                data@,
                v,
            ) implies p4 == 8 + enc_addr_entries(v.take(i0 + 1)).len() by {
                lemma_canonical_addr_entry_bytes(data@, v, i0);
                lemma_enc_bytes_read_match(data@, p3 as int, skv, v[i0].1.secret_key@);
            }
        }
        out.push((addr, AddressStore { public_key: pk, secret_key: sk }));
        pos = p4;
        i = i + 1;
    }
    if pos != data.len() {
        proof {
            assert forall|v: Seq<(String, AddressStore)>| !(
            #[trigger] is_canonical_address_stores(data@, v)) by {
                if is_canonical_address_stores(data@, v) {
                    assert(v.take(i as int) =~= v);
                }
            }
        }
        return None;
    }
    proof {
        assert(data@.subrange(0, data@.len() as int) =~= data@);
        assert(data@ == enc_address_stores(out@));
    }
    Some(out)
}


/// These bytes are the canonical encoding of this address list.
pub open spec fn is_canonical_address_stores(data: Seq<u8>, v: Seq<(String, AddressStore)>) -> bool {
    data == enc_address_stores(v)
}

/// Canonical encoding of one address entry.
pub open spec fn enc_addr_entry(e: (String, AddressStore)) -> Seq<u8> {
    enc_str(e.0@) + enc_bytes(e.1.public_key@) + enc_bytes(e.1.secret_key@)
}

/// Every address entry's encoding spends at least twenty-four bytes.
pub proof fn lemma_enc_addr_entries_min_len(s: Seq<(String, AddressStore)>)
    ensures
        enc_addr_entries(s).len() >= 24 * s.len(),
    decreases s.len(),
{
    vstd::bytes::lemma_auto_spec_u64_to_from_le_bytes();
    if s.len() > 0 {
        lemma_enc_addr_entries_min_len(s.drop_last());
    }
}

/// The encoding of a prefix of the address entries is a prefix of the
/// encoding.
pub proof fn lemma_enc_addr_entries_prefix(s: Seq<(String, AddressStore)>, j: int)
    requires
        0 <= j <= s.len(),
    ensures
        enc_addr_entries(s.take(j)).len() <= enc_addr_entries(s).len(),
        enc_addr_entries(s).subrange(0, enc_addr_entries(s.take(j)).len() as int)
            == enc_addr_entries(s.take(j)),
    decreases s.len() - j,
{
    if j == s.len() {
        assert(s.take(j) =~= s);
        assert(enc_addr_entries(s).subrange(0, enc_addr_entries(s).len() as int) =~=
            enc_addr_entries(s));
    } else {
        lemma_enc_addr_entries_prefix(s, j + 1);
        assert(s.take(j + 1).drop_last() =~= s.take(j));
        assert(s.take(j + 1).last() == s[j]);
        let a = enc_addr_entries(s.take(j)).len() as int;
        let b = enc_addr_entries(s.take(j + 1)).len() as int;
        assert(enc_addr_entries(s).subrange(0, a) =~= enc_addr_entries(s).subrange(0, b).subrange(
            0,
            a,
        ));
        assert(enc_addr_entries(s.take(j + 1)).subrange(0, a) =~= enc_addr_entries(s.take(j)));
    }
}

/// Where entry `i` of a canonical address list sits in the bytes: the
/// address's length-prefixed UTF-8 form, then the two length-prefixed keys.
pub proof fn lemma_canonical_addr_entry_bytes(data: Seq<u8>, v: Seq<(String, AddressStore)>, i: int)
    requires
        is_canonical_address_stores(data, v),
        data.len() <= usize::MAX,
        0 <= i < v.len(),
    ensures
        ({
            let p = 8 + enc_addr_entries(v.take(i)).len() as int;
            let ab = hash_bytes(v[i].0@);
            let pk = v[i].1.public_key@;
            let sk = v[i].1.secret_key@;
            &&& data.len() == 8 + enc_addr_entries(v).len()
            &&& p + 24 + ab.len() + pk.len() + sk.len() <= data.len()
            &&& 8 + enc_addr_entries(v.take(i + 1)).len() == p + 24 + ab.len() + pk.len()
                + sk.len()
            &&& ab.len() < u64::MAX && pk.len() < u64::MAX && sk.len() < u64::MAX
            &&& data.subrange(p, p + 8 + ab.len() as int) == enc_bytes(ab)
            &&& data.subrange(p + 8 + ab.len() as int, p + 16 + ab.len() + pk.len() as int)
                == enc_bytes(pk)
            &&& data.subrange(
                p + 16 + ab.len() + pk.len() as int,
                p + 24 + ab.len() + pk.len() + sk.len() as int,
            ) == enc_bytes(sk)
        }),
{
    vstd::bytes::lemma_auto_spec_u64_to_from_le_bytes();
    let p = 8 + enc_addr_entries(v.take(i)).len() as int;
    let ab = hash_bytes(v[i].0@);
    let pk = v[i].1.public_key@;
    let sk = v[i].1.secret_key@;
    lemma_enc_addr_entries_prefix(v, i);
    lemma_enc_addr_entries_prefix(v, i + 1);
    assert(v.take(i + 1).drop_last() =~= v.take(i));
    assert(v.take(i + 1).last() == v[i]);
    assert(enc_addr_entries(v.take(i + 1)) == enc_addr_entries(v.take(i)) + enc_addr_entry(v[i]))
        by {
        assert(enc_addr_entries(v.take(i + 1)) == enc_addr_entries(v.take(i)) + enc_str(v[i].0@)
            + enc_bytes(v[i].1.public_key@) + enc_bytes(v[i].1.secret_key@));
        assert(enc_addr_entries(v.take(i)) + enc_str(v[i].0@) + enc_bytes(v[i].1.public_key@)
            + enc_bytes(v[i].1.secret_key@) =~= enc_addr_entries(v.take(i)) + enc_addr_entry(
            v[i],
        ));
    }
    assert(data.len() == 8 + enc_addr_entries(v).len());
    let a = enc_addr_entries(v.take(i)).len() as int;
    let b = enc_addr_entries(v.take(i + 1)).len() as int;
    assert(enc_addr_entry(v[i]).len() == 24 + ab.len() + pk.len() + sk.len());
    assert(enc_addr_entries(v).subrange(a, b) =~= enc_addr_entry(v[i])) by {
        assert(enc_addr_entries(v).subrange(0, b) == enc_addr_entries(v.take(i + 1)));
        assert(enc_addr_entries(v).subrange(0, b).subrange(a, b) =~= enc_addr_entries(v).subrange(
            a,
            b,
        ));
    }
    assert(data.subrange(p, p + 24 + ab.len() + pk.len() + sk.len() as int) =~= enc_addr_entries(
        v,
    ).subrange(a, b));
    let e = enc_addr_entry(v[i]);
    assert(data.subrange(p, p + 8 + ab.len() as int) =~= e.subrange(0, 8 + ab.len() as int));
    assert(e.subrange(0, 8 + ab.len() as int) =~= enc_bytes(ab));
    assert(data.subrange(p + 8 + ab.len() as int, p + 16 + ab.len() + pk.len() as int) =~=
        e.subrange(8 + ab.len() as int, 16 + ab.len() + pk.len() as int));
    assert(e.subrange(8 + ab.len() as int, 16 + ab.len() + pk.len() as int) =~= enc_bytes(pk));
    assert(data.subrange(
        p + 16 + ab.len() + pk.len() as int,
        p + 24 + ab.len() + pk.len() + sk.len() as int,
    ) =~= e.subrange(
        16 + ab.len() + pk.len() as int,
        24 + ab.len() + pk.len() + sk.len() as int,
    ));
    assert(e.subrange(
        16 + ab.len() + pk.len() as int,
        24 + ab.len() + pk.len() + sk.len() as int,
    ) =~= enc_bytes(sk));
}

/// Two length-prefixed chunks starting at the same position hold the same
/// bytes.
proof fn lemma_enc_bytes_read_match(data: Seq<u8>, p: int, a: Seq<u8>, b: Seq<u8>)
    requires
        0 <= p,
        p + 8 + a.len() <= data.len(),
        p + 8 + b.len() <= data.len(),
        a.len() < u64::MAX,
        b.len() < u64::MAX,
        data.subrange(p, p + 8 + a.len() as int) == enc_bytes(a),
        data.subrange(p, p + 8 + b.len() as int) == enc_bytes(b),
    ensures
        a == b,
{
    vstd::bytes::lemma_auto_spec_u64_to_from_le_bytes();
    assert(data.subrange(p, p + 8) =~= data.subrange(p, p + 8 + a.len() as int).subrange(0, 8));
    assert(enc_bytes(a).subrange(0, 8) =~= enc_u64(a.len() as u64));
    assert(data.subrange(p, p + 8) =~= data.subrange(p, p + 8 + b.len() as int).subrange(0, 8));
    assert(enc_bytes(b).subrange(0, 8) =~= enc_u64(b.len() as u64));
    assert(a.len() == b.len()) by {
        assert(vstd::bytes::spec_u64_from_le_bytes(enc_u64(a.len() as u64))
            == vstd::bytes::spec_u64_from_le_bytes(enc_u64(b.len() as u64)));
    }
    assert(a =~= b) by {
        assert forall|k: int| 0 <= k < a.len() implies a[k] == b[k] by {
            assert(enc_bytes(a)[8 + k] == a[k]);
            assert(enc_bytes(b)[8 + k] == b[k]);
        }
    }
}

/// No two address entries share an address.
pub open spec fn addr_unique(s: Seq<(String, AddressStore)>) -> bool {
    forall|i: int, j: int| 0 <= i < j < s.len() ==> (#[trigger] s[i]).0@ != (#[trigger] s[j]).0@
}

/// Index of the entry for address `a`, or -1.
pub open spec fn addr_index(s: Seq<(String, AddressStore)>, a: Seq<char>) -> int
    decreases s.len(),
{
    if s.len() == 0 {
        -1
    } else if s[0].0@ == a {
        0
    } else {
        let r = addr_index(s.drop_first(), a);
        if r < 0 {
            -1
        } else {
            r + 1
        }
    }
}

/// Whether an entry for address `a` exists.
pub open spec fn addr_has(s: Seq<(String, AddressStore)>, a: Seq<char>) -> bool {
    addr_index(s, a) >= 0
}

/// The address store after assigning `st` to `addr`: replaced in place or
/// appended.
pub open spec fn addr_put(s: Seq<(String, AddressStore)>, addr: String, st: AddressStore) -> Seq<
    (String, AddressStore),
> {
    if addr_has(s, addr@) {
        s.update(addr_index(s, addr@), (addr, st))
    } else {
        s.push((addr, st))
    }
}

/// The address store with the entry for `a` removed, if any.
pub open spec fn addr_remove(s: Seq<(String, AddressStore)>, a: Seq<char>) -> Seq<
    (String, AddressStore),
> {
    if addr_has(s, a) {
        s.remove(addr_index(s, a))
    } else {
        s
    }
}

/// Addresses in strictly ascending lexicographic order of their UTF-8
/// bytes.
pub open spec fn addrs_sorted(s: Seq<String>) -> bool {
    forall|a: int, b: int|
        0 <= a < b < s.len() ==> crate::order::bytes_lt(
            hash_bytes((#[trigger] s[a])@),
            hash_bytes((#[trigger] s[b])@),
        )
}

/// Whether the list holds address `a`.
pub open spec fn addrs_has(s: Seq<String>, a: Seq<char>) -> bool {
    exists|i: int| 0 <= i < s.len() && (#[trigger] s[i])@ == a
}

/// Inserts an address a sorted list does not yet hold, keeping the order:
/// the result holds the new address and everything it held, and nothing
/// else.
fn insert_sorted_address(list: &mut Vec<String>, addr: String)
    requires
        addrs_sorted(old(list)@),
        !addrs_has(old(list)@, addr@),
    ensures
        final(list)@.len() == old(list)@.len() + 1,
        addrs_sorted(final(list)@),
        addrs_has(final(list)@, addr@),
        forall|q: int|
            0 <= q < old(list)@.len() ==> addrs_has(final(list)@, (#[trigger] old(list)@[q])@),
        forall|q: int|
            0 <= q < final(list)@.len() ==> (#[trigger] final(list)@[q])@ == addr@ || addrs_has(
                old(list)@,
                final(list)@[q]@,
            ),
{
    let ghost orig = list@;
    let akey = addr.as_str().as_bytes_vec();
    let mut i: usize = 0;
    let n = list.len();
    while i < n
        invariant_except_break
            true,
        invariant
            orig == old(list)@,
            list@ == orig,
            addrs_sorted(orig),
            n == orig.len(),
            i <= n,
            akey@ == hash_bytes(addr@),
            !addrs_has(orig, addr@),
            forall|j: int|
                0 <= j < i ==> crate::order::bytes_lt(hash_bytes((#[trigger] orig[j])@), akey@),
        ensures
            list@ == orig,
            i <= orig.len(),
            forall|j: int|
                0 <= j < i ==> crate::order::bytes_lt(hash_bytes((#[trigger] orig[j])@), akey@),
            forall|j: int|
                i <= j < orig.len() ==> crate::order::bytes_lt(
                    akey@,
                    hash_bytes((#[trigger] orig[j])@),
                ),
        decreases n - i,
    {
        let ekey = list[i].as_str().as_bytes_vec();
        let c = bytes_cmp(&ekey, &akey);
        match c {
            ByteOrd::Lt => {
                i = i + 1;
            },
            ByteOrd::Eq => {
                proof {
                    crate::transaction::lemma_hash_bytes_injective(list@[i as int]@, addr@);
                    assert(addrs_has(orig, addr@)) by {
                        assert((orig[i as int])@ == addr@);
                    }
                }
                break ;
            },
            ByteOrd::Gt => {
                proof {
                    assert forall|j: int| i <= j < orig.len() implies crate::order::bytes_lt(
                        akey@,
                        hash_bytes((#[trigger] orig[j])@),
                    ) by {
                        if j > i {
                            crate::order::lemma_bytes_lt_trans(
                                akey@,
                                hash_bytes(orig[i as int]@),
                                hash_bytes(orig[j]@),
                            );
                        }
                    }
                }
                break ;
            },
        }
    }
    list.insert(i, addr);
    proof {
        assert(forall|q: int| 0 <= q < i ==> final(list)@[q] == orig[q]);
        assert(forall|q: int| i < q < final(list)@.len() ==> final(list)@[q] == orig[q - 1]);
        assert(addrs_sorted(list@)) by {
            assert forall|a: int, b: int| 0 <= a < b < list@.len() implies crate::order::bytes_lt(
                hash_bytes((#[trigger] list@[a])@),
                hash_bytes((#[trigger] list@[b])@),
            ) by {
                if a < i && b == i {
                    assert(crate::order::bytes_lt(hash_bytes(orig[a]@), akey@));
                } else if a == i && b > i {
                    assert(crate::order::bytes_lt(akey@, hash_bytes(orig[b - 1]@)));
                } else if a < i && b > i {
                    assert(crate::order::bytes_lt(hash_bytes(orig[a]@), hash_bytes(orig[b - 1]@)));
                } else if a > i && b > i {
                    assert(crate::order::bytes_lt(
                        hash_bytes(orig[a - 1]@),
                        hash_bytes(orig[b - 1]@),
                    ));
                }
            }
        }
        assert(addrs_has(list@, addr@)) by {
            assert((list@[i as int])@ == addr@);
        }
        assert forall|q: int| 0 <= q < orig.len() implies addrs_has(
            list@,
            (#[trigger] orig[q])@,
        ) by {
            if q < i {
                assert((list@[q])@ == orig[q]@);
            } else {
                assert((list@[q + 1])@ == orig[q]@);
            }
        }
        assert forall|q: int| 0 <= q < list@.len() implies (#[trigger] list@[q])@ == addr@
            || addrs_has(orig, list@[q]@) by {
            if q < i {
                assert((orig[q])@ == list@[q]@);
            } else if q > i {
                assert((orig[q - 1])@ == list@[q]@);
            }
        }
    }
}

/// `addr_index` points at the entry for `a` whenever it is non-negative.
pub proof fn lemma_addr_index(s: Seq<(String, AddressStore)>, a: Seq<char>)
    ensures
        addr_index(s, a) >= 0 ==> {
            &&& addr_index(s, a) < s.len()
            &&& s[addr_index(s, a)].0@ == a
            &&& forall|j: int| 0 <= j < addr_index(s, a) ==> (#[trigger] s[j]).0@ != a
        },
        addr_index(s, a) < 0 ==> (forall|j: int| 0 <= j < s.len() ==> (#[trigger] s[j]).0@ != a),
    decreases s.len(),
{
    if s.len() > 0 && s[0].0@ != a {
        lemma_addr_index(s.drop_first(), a);
        assert(forall|j: int| 0 < j < s.len() ==> s[j] == s.drop_first()[j - 1]);
    }
}

/// A scan that found `a` at `i`, with no earlier match, found `addr_index`.
pub proof fn lemma_addr_index_at(s: Seq<(String, AddressStore)>, a: Seq<char>, i: int)
    requires
        0 <= i < s.len(),
        s[i].0@ == a,
        forall|j: int| 0 <= j < i ==> (#[trigger] s[j]).0@ != a,
    ensures
        addr_index(s, a) == i,
    decreases s.len(),
{
    if i > 0 {
        lemma_addr_index_at(s.drop_first(), a, i - 1);
        assert(forall|j: int| 0 <= j < s.drop_first().len() ==> s.drop_first()[j] == s[j + 1]);
    }
}

/// No two received-output records name the same output.
pub open spec fn tx_unique(s: Seq<(OutPoint, TransactionStore)>) -> bool {
    forall|i: int, j: int|
        0 <= i < j < s.len() ==> !same_out_point((#[trigger] s[i]).0, (#[trigger] s[j]).0)
}

/// Index of the record for output `op`, or -1.
pub open spec fn tx_index(s: Seq<(OutPoint, TransactionStore)>, op: OutPoint) -> int
    decreases s.len(),
{
    if s.len() == 0 {
        -1
    } else if same_out_point(s[0].0, op) {
        0
    } else {
        let r = tx_index(s.drop_first(), op);
        if r < 0 {
            -1
        } else {
            r + 1
        }
    }
}

/// Whether a record for output `op` exists.
pub open spec fn tx_has(s: Seq<(OutPoint, TransactionStore)>, op: OutPoint) -> bool {
    tx_index(s, op) >= 0
}

/// The records after assigning `ts` to `op`: replaced in place or appended.
pub open spec fn tx_put(s: Seq<(OutPoint, TransactionStore)>, op: OutPoint, ts: TransactionStore) -> Seq<
    (OutPoint, TransactionStore),
> {
    if tx_has(s, op) {
        s.update(tx_index(s, op), (op, ts))
    } else {
        s.push((op, ts))
    }
}

/// The records with the entry for `op` removed, if any.
pub open spec fn tx_remove(s: Seq<(OutPoint, TransactionStore)>, op: OutPoint) -> Seq<
    (OutPoint, TransactionStore),
> {
    if tx_has(s, op) {
        s.remove(tx_index(s, op))
    } else {
        s
    }
}

/// `tx_index` points at the record for `op` whenever it is non-negative.
pub proof fn lemma_tx_index(s: Seq<(OutPoint, TransactionStore)>, op: OutPoint)
    ensures
        tx_index(s, op) >= 0 ==> {
            &&& tx_index(s, op) < s.len()
            &&& same_out_point(s[tx_index(s, op)].0, op)
            &&& forall|j: int| 0 <= j < tx_index(s, op) ==> !same_out_point((#[trigger] s[j]).0, op)
        },
        tx_index(s, op) < 0 ==> (forall|j: int|
            0 <= j < s.len() ==> !same_out_point((#[trigger] s[j]).0, op)),
    decreases s.len(),
{
    if s.len() > 0 && !same_out_point(s[0].0, op) {
        lemma_tx_index(s.drop_first(), op);
        assert(forall|j: int| 0 < j < s.len() ==> s[j] == s.drop_first()[j - 1]);
    }
}

/// A scan that found `op` at `i`, with no earlier match, found `tx_index`.
pub proof fn lemma_tx_index_at(s: Seq<(OutPoint, TransactionStore)>, op: OutPoint, i: int)
    requires
        0 <= i < s.len(),
        same_out_point(s[i].0, op),
        forall|j: int| 0 <= j < i ==> !same_out_point((#[trigger] s[j]).0, op),
    ensures
        tx_index(s, op) == i,
    decreases s.len(),
{
    if i > 0 {
        lemma_tx_index_at(s.drop_first(), op, i - 1);
        assert(forall|j: int| 0 <= j < s.drop_first().len() ==> s.drop_first()[j] == s[j + 1]);
    }
}

/// An output key never collides with the fixed one-byte store keys.
pub proof fn lemma_out_point_key_distinct(t_hash: Seq<char>, n: u32)
    ensures
        enc_out_point(t_hash, n) != fund_key_bytes(),
        enc_out_point(t_hash, n) != address_key_bytes(),
{
    vstd::bytes::lemma_auto_spec_u64_to_from_le_bytes();
    vstd::bytes::lemma_auto_spec_u32_to_from_le_bytes();
    assert(enc_out_point(t_hash, n).len() >= 12);
}

/// Output keys are injective: equal keys name the same output.
pub proof fn lemma_out_point_key_injective(a: Seq<char>, an: u32, b: Seq<char>, bn: u32)
    requires
        enc_out_point(a, an) == enc_out_point(b, bn),
    ensures
        a == b,
        an == bn,
{
    vstd::bytes::lemma_auto_spec_u64_to_from_le_bytes();
    vstd::bytes::lemma_auto_spec_u32_to_from_le_bytes();
    let ua = vstd::utf8::encode_utf8(a);
    let ub = vstd::utf8::encode_utf8(b);
    let ea = enc_out_point(a, an);
    let eb = enc_out_point(b, bn);
    assert(ea.len() == 12 + ua.len());
    assert(eb.len() == 12 + ub.len());
    assert(ua.len() == ub.len());
    assert(ua =~= ub) by {
        assert forall|i: int| 0 <= i < ua.len() implies ua[i] == ub[i] by {
            assert(ea[8 + i] == ua[i]);
            assert(eb[8 + i] == ub[i]);
        }
    }
    crate::transaction::lemma_hash_bytes_injective(a, b);
    assert(enc_u32(an) =~= enc_u32(bn)) by {
        assert forall|i: int| 0 <= i < 4 implies enc_u32(an)[i] == enc_u32(bn)[i] by {
            assert(ea[8 + ua.len() + i] == enc_u32(an)[i]);
            assert(eb[8 + ub.len() + i] == enc_u32(bn)[i]);
        }
    }
    assert(an == bn) by {
        assert(vstd::bytes::spec_u32_from_le_bytes(vstd::bytes::spec_u32_to_le_bytes(an))
            == vstd::bytes::spec_u32_from_le_bytes(vstd::bytes::spec_u32_to_le_bytes(bn)));
    }
}

/// The character form of an address derived from a public key: the first
/// sixteen bytes of the double SHA-3-256 of the key's canonical
/// serialization, with the network version folded in, in hex.
pub open spec fn address_chars_of(pk: Seq<u8>, net: u8) -> Seq<char> {
    hex_of(sha3_256_of(seq![net] + sha3_256_of(enc_bytes(pk))).take(16))
}

/// Builds an address from a public key.
pub fn construct_address(pub_key: &Vec<u8>, net: u8) -> (r: PaymentAddress)
    requires
        pub_key@.len() == PUBLIC_KEY_LEN,
    ensures
        r.address@ == address_chars_of(pub_key@, net),
        r.address@.len() == 32,
        r.net == net,
{
    let serialized = serialize_pub_key(pub_key);
    let first_hash = sha3_256(&serialized);
    let mut tagged: Vec<u8> = Vec::new();
    tagged.push(net);
    crate::codec::emit_raw(&mut tagged, &first_hash);
    proof {
        assert(tagged@ =~= seq![net] + sha3_256_of(enc_bytes(pub_key@)));
    }
    let mut second_hash = sha3_256(&tagged);
    second_hash.truncate(16);
    proof {
        assert(second_hash@ =~= sha3_256_of(tagged@).take(16));
        crate::crypto::lemma_hex_of_len(second_hash@);
    }
    let address = hex_encode(&second_hash);
    PaymentAddress { address, net }
}

/// One record's key and value stand in the wallet column.
pub open spec fn tx_entry_stored(m: Map<Seq<u8>, Seq<u8>>, e: (OutPoint, TransactionStore)) -> bool {
    &&& m.dom().contains(enc_out_point(e.0.t_hash@, e.0.n))
    &&& m[enc_out_point(e.0.t_hash@, e.0.n)] == enc_transaction_store(e.1)
}

/// A node's wallet: its key-value store together with the fund store, the
/// known addresses and the received-output records, which the store always
/// holds the canonical encodings of.
pub struct WalletDb {
    pub db: SimpleDb,
    pub fund: FundStore,
    pub addresses: Vec<(String, AddressStore)>,
    pub tx_store: Vec<(OutPoint, TransactionStore)>,
}

impl WalletDb {
    /// The wallet column as a map.
    pub open spec fn wallet_map(&self) -> Map<Seq<u8>, Seq<u8>> {
        crate::kv::col_map(self.db@[0])
    }

    /// The stores are well formed and every received-output record is in the
    /// column; says nothing yet about the two fixed keys.
    pub open spec fn wf_core(&self) -> bool {
        &&& self.db.wf()
        &&& self.db@.len() == 1
        &&& self.fund.wf()
        &&& addr_unique(self.addresses@)
        &&& tx_unique(self.tx_store@)
        &&& forall|i: int|
            0 <= i < self.addresses@.len() ==> (#[trigger] self.addresses@[i]).1.public_key@.len()
                == PUBLIC_KEY_LEN && self.addresses@[i].1.secret_key@.len() == SECRET_KEY_LEN
        &&& forall|i: int|
            0 <= i < self.tx_store@.len() ==> tx_entry_stored(
                self.wallet_map(),
                #[trigger] self.tx_store@[i],
            )
    }

    /// The column holds the fund store's encoding under its key, or the fund
    /// store is empty.
    pub open spec fn fund_stored(&self) -> bool {
        &&& (self.wallet_map().dom().contains(fund_key_bytes()) ==> self.wallet_map()[
            fund_key_bytes()] == enc_fund_store(self.fund))
        &&& (!self.wallet_map().dom().contains(fund_key_bytes())
            ==> self.fund.transactions@.len() == 0 && self.fund.running_total.0 == 0)
    }

    /// The column holds the address store's encoding under its key, or no
    /// address is known.
    pub open spec fn addresses_stored(&self) -> bool {
        &&& (self.wallet_map().dom().contains(address_key_bytes()) ==> self.wallet_map()[
            address_key_bytes()] == enc_address_stores(self.addresses@))
        &&& (!self.wallet_map().dom().contains(address_key_bytes()) ==> self.addresses@.len() == 0)
    }

    /// The wallet's invariant: well-formed stores, and a column that holds
    /// exactly their encodings under the fixed keys.
    pub open spec fn wf(&self) -> bool {
        &&& self.wf_core()
        &&& self.fund_stored()
        &&& self.addresses_stored()
    }

    /// Creates the store a wallet lives in, for the given environment. The
    /// store itself is held in memory; an embedding program persists it for
    /// the durable and test modes.
    pub fn new_db(db_mode: DbMode) -> (r: SimpleDb)
        ensures
            r.wf(),
            r@.len() == 1,
            r@[0] == Seq::<(Seq<u8>, Seq<u8>)>::empty(),
            r.mode == db_mode,
    {
        let mut names: Vec<String> = Vec::new();
        names.push("wallet".to_owned());
        let mut db = SimpleDb::new_in_memory(names);
        db.mode = db_mode;
        db
    }

    /// A fresh wallet over a fresh store.
    pub fn new(db_mode: DbMode) -> (r: Self)
        ensures
            r.wf(),
            r.fund.transactions@.len() == 0,
            r.fund.running_total.0 == 0,
            r.addresses@.len() == 0,
            r.tx_store@.len() == 0,
            r.db.mode == db_mode,
    {
        let r = WalletDb {
            db: Self::new_db(db_mode),
            fund: FundStore::empty(),
            addresses: Vec::new(),
            tx_store: Vec::new(),
        };
        proof {
            assert(r.db@[0].len() == 0);
            crate::kv::lemma_col_map_has(r.db@[0], fund_key_bytes());
            crate::kv::lemma_col_map_has(r.db@[0], address_key_bytes());
            crate::kv::lemma_key_index(r.db@[0], fund_key_bytes());
            crate::kv::lemma_key_index(r.db@[0], address_key_bytes());
        }
        r
    }

    /// Writes the fund store's encoding under its key.
    fn persist_fund(&mut self)
        requires
            old(self).wf_core(),
            old(self).addresses_stored(),
        ensures
            final(self).wf(),
            final(self).fund == old(self).fund,
            final(self).addresses == old(self).addresses,
            final(self).tx_store == old(self).tx_store,
            final(self).wallet_map() == old(self).wallet_map().insert(
                fund_key_bytes(),
                enc_fund_store(old(self).fund),
            ),
            final(self).db.mode == old(self).db.mode,
    {
        let bytes = encode_fund_store(&self.fund);
        proof {
            assert(fund_key_bytes() != address_key_bytes()) by {
                assert(fund_key_bytes()[0] == 0u8 && address_key_bytes()[0] == 1u8);
            }
            crate::kv::lemma_col_map_put(self.db@[0], fund_key_bytes(), enc_fund_store(self.fund));
        }
        self.db.put(0, fund_key(), bytes);
        proof {
            assert forall|i: int| 0 <= i < self.tx_store@.len() implies tx_entry_stored(
                self.wallet_map(),
                #[trigger] self.tx_store@[i],
            ) by {
                lemma_out_point_key_distinct(self.tx_store@[i].0.t_hash@, self.tx_store@[i].0.n);
            }
        }
    }

    /// Writes the address store's encoding under its key.
    fn persist_addresses(&mut self)
        requires
            old(self).wf_core(),
            old(self).fund_stored(),
        ensures
            final(self).wf(),
            final(self).fund == old(self).fund,
            final(self).addresses == old(self).addresses,
            final(self).tx_store == old(self).tx_store,
            final(self).wallet_map() == old(self).wallet_map().insert(
                address_key_bytes(),
                enc_address_stores(old(self).addresses@),
            ),
            final(self).db.mode == old(self).db.mode,
    {
        let bytes = encode_address_stores(&self.addresses);
        proof {
            assert(fund_key_bytes() != address_key_bytes()) by {
                assert(fund_key_bytes()[0] == 0u8 && address_key_bytes()[0] == 1u8);
            }
            crate::kv::lemma_col_map_put(
                self.db@[0],
                address_key_bytes(),
                enc_address_stores(self.addresses@),
            );
        }
        self.db.put(0, address_key(), bytes);
        proof {
            assert forall|i: int| 0 <= i < self.tx_store@.len() implies tx_entry_stored(
                self.wallet_map(),
                #[trigger] self.tx_store@[i],
            ) by {
                lemma_out_point_key_distinct(self.tx_store@[i].0.t_hash@, self.tx_store@[i].0.n);
            }
        }
    }

    /// Returns a copy of the wallet's fund store.
    pub fn get_fund_store(&self) -> (r: FundStore)
        ensures
            r.running_total == self.fund.running_total,
            r.transactions@.len() == self.fund.transactions@.len(),
            forall|i: int|
                0 <= i < r.transactions@.len() ==> same_out_point(
                    (#[trigger] r.transactions@[i]).0,
                    self.fund.transactions@[i].0,
                ) && r.transactions@[i].1 == self.fund.transactions@[i].1,
    {
        let mut entries: Vec<(OutPoint, TokenAmount)> = Vec::new();
        let mut i: usize = 0;
        while i < self.fund.transactions.len()
            invariant
                i <= self.fund.transactions@.len(),
                entries@.len() == i,
                forall|j: int|
                    0 <= j < i ==> same_out_point(
                        (#[trigger] entries@[j]).0,
                        self.fund.transactions@[j].0,
                    ) && entries@[j].1 == self.fund.transactions@[j].1,
            decreases self.fund.transactions@.len() - i,
        {
            let op = OutPoint {
                t_hash: self.fund.transactions[i].0.t_hash.clone(),
                n: self.fund.transactions[i].0.n,
            };
            entries.push((op, self.fund.transactions[i].1));
            i = i + 1;
        }
        FundStore { running_total: self.fund.running_total, transactions: entries }
    }

    /// Replaces the wallet's fund store and persists it.
    pub fn set_fund_store(&mut self, fund_store: FundStore)
        requires
            old(self).wf(),
            fund_store.wf(),
        ensures
            final(self).wf(),
            final(self).fund == fund_store,
            final(self).addresses == old(self).addresses,
            final(self).tx_store == old(self).tx_store,
            final(self).wallet_map() == old(self).wallet_map().insert(
                fund_key_bytes(),
                enc_fund_store(fund_store),
            ),
    {
        self.fund = fund_store;
        self.persist_fund();
    }

    /// Returns a copy of the wallet's address store.
    pub fn get_address_stores(&self) -> (r: Vec<(String, AddressStore)>)
        ensures
            r@.len() == self.addresses@.len(),
            forall|i: int|
                0 <= i < r@.len() ==> (#[trigger] r@[i]).0@ == self.addresses@[i].0@ && r@[i].1.public_key@
                    == self.addresses@[i].1.public_key@ && r@[i].1.secret_key@
                    == self.addresses@[i].1.secret_key@,
    {
        let mut out: Vec<(String, AddressStore)> = Vec::new();
        let mut i: usize = 0;
        while i < self.addresses.len()
            invariant
                i <= self.addresses@.len(),
                out@.len() == i,
                forall|j: int|
                    0 <= j < i ==> (#[trigger] out@[j]).0@ == self.addresses@[j].0@ && out@[j].1.public_key@
                        == self.addresses@[j].1.public_key@ && out@[j].1.secret_key@
                        == self.addresses@[j].1.secret_key@,
            decreases self.addresses@.len() - i,
        {
            let st = AddressStore {
                public_key: crate::kv::copy_bytes(&self.addresses[i].1.public_key),
                secret_key: crate::kv::copy_bytes(&self.addresses[i].1.secret_key),
            };
            out.push((self.addresses[i].0.clone(), st));
            i = i + 1;
        }
        out
    }

    /// Replaces the wallet's address store and persists it.
    pub fn set_address_stores(&mut self, address_store: Vec<(String, AddressStore)>)
        requires
            old(self).wf(),
            addr_unique(address_store@),
            forall|i: int|
                0 <= i < address_store@.len() ==> (#[trigger] address_store@[i]).1.public_key@.len()
                    == PUBLIC_KEY_LEN && address_store@[i].1.secret_key@.len() == SECRET_KEY_LEN,
        ensures
            final(self).wf(),
            final(self).addresses == address_store,
            final(self).fund == old(self).fund,
            final(self).tx_store == old(self).tx_store,
    {
        self.addresses = address_store;
        self.persist_addresses();
    }
}

impl WalletDb {
    /// Saves an address and its keys to the wallet.
    fn save_address_to_wallet(&mut self, address: String, keys: AddressStore)
        requires
            old(self).wf(),
            keys.public_key@.len() == PUBLIC_KEY_LEN,
            keys.secret_key@.len() == SECRET_KEY_LEN,
        ensures
            final(self).wf(),
            final(self).addresses@ == addr_put(old(self).addresses@, address, keys),
            final(self).fund == old(self).fund,
            final(self).tx_store == old(self).tx_store,
    {
        let ghost orig = self.addresses@;
        let akey = address.as_str().as_bytes_vec();
        let mut i: usize = 0;
        let mut replaced = false;
        loop
            invariant_except_break
                !replaced,
                self.addresses@ == orig,
                forall|j: int| 0 <= j < i ==> (#[trigger] orig[j]).0@ != address@,
            invariant
                0 <= i <= orig.len(),
                addr_unique(orig),
                orig == old(self).addresses@,
                akey@ == hash_bytes(address@),
                self.db == old(self).db,
                self.fund == old(self).fund,
                self.tx_store == old(self).tx_store,
            ensures
                self.addresses@ == addr_put(orig, address, keys),
            decreases orig.len() - i,
        {
            if i >= self.addresses.len() {
                self.addresses.push((address, keys));
                proof {
                    lemma_addr_index(orig, address@);
                    assert(!addr_has(orig, address@));
                    assert(self.addresses@ =~= addr_put(orig, address, keys));
                }
                break ;
            }
            let ekey = self.addresses[i].0.as_str().as_bytes_vec();
            let c = bytes_cmp(&ekey, &akey);
            let same = match c {
                ByteOrd::Eq => true,
                _ => false,
            };
            if same {
                proof {
                    crate::transaction::lemma_hash_bytes_injective(
                        self.addresses@[i as int].0@,
                        address@,
                    );
                    lemma_addr_index_at(orig, address@, i as int);
                }
                let _removed = self.addresses.remove(i);
                self.addresses.insert(i, (address, keys));
                replaced = true;
                proof {
                    assert(self.addresses@ =~= addr_put(orig, address, keys));
                }
                break ;
            }
            proof {
                if self.addresses@[i as int].0@ == address@ {
                    assert(ekey@ == akey@);
                    crate::order::lemma_bytes_lt_irrefl(akey@);
                }
            }
            i = i + 1;
        }
        proof {
            lemma_addr_index(orig, address@);
            assert(addr_unique(self.addresses@)) by {
                if addr_has(orig, address@) {
                    let k = addr_index(orig, address@);
                    assert forall|a: int, b: int| 0 <= a < b < self.addresses@.len() implies (
                    #[trigger] self.addresses@[a]).0@ != (#[trigger] self.addresses@[b]).0@ by {
                        assert(orig[a].0@ != orig[b].0@);
                    }
                } else {
                    assert forall|a: int, b: int| 0 <= a < b < self.addresses@.len() implies (
                    #[trigger] self.addresses@[a]).0@ != (#[trigger] self.addresses@[b]).0@ by {
                        if b < self.addresses@.len() - 1 {
                            assert(orig[a].0@ != orig[b].0@);
                        }
                    }
                }
            }
            assert forall|i2: int| 0 <= i2 < self.addresses@.len() implies (#[trigger] self.addresses@[
            i2]).1.public_key@.len() == PUBLIC_KEY_LEN && self.addresses@[i2].1.secret_key@.len()
                == SECRET_KEY_LEN by {
                if addr_has(orig, address@) {
                    if i2 != addr_index(orig, address@) {
                        assert(self.addresses@[i2] == orig[i2]);
                    }
                } else {
                    if i2 < self.addresses@.len() - 1 {
                        assert(self.addresses@[i2] == orig[i2]);
                    }
                }
            }
        }
        self.persist_addresses();
    }

    /// Generates a fresh payment address, saving its keys to the wallet.
    pub fn generate_payment_address(&mut self) -> (r: (PaymentAddress, AddressStore))
        requires
            old(self).wf(),
        ensures
            final(self).wf(),
            r.0.net == NETWORK_VERSION,
            r.0.address@ == address_chars_of(r.1.public_key@, NETWORK_VERSION),
            r.0.address@.len() == 32,
            r.1.public_key@.len() == PUBLIC_KEY_LEN,
            r.1.secret_key@.len() == SECRET_KEY_LEN,
            addr_has(final(self).addresses@, r.0.address@),
            ({
                let e = final(self).addresses@[addr_index(final(self).addresses@, r.0.address@)];
                e.1.public_key@ == r.1.public_key@ && e.1.secret_key@ == r.1.secret_key@
            }),
            final(self).addresses@.len() == (if addr_has(old(self).addresses@, r.0.address@) {
                old(self).addresses@.len()
            } else {
                old(self).addresses@.len() + 1
            }),
            forall|j: int|
                0 <= j < old(self).addresses@.len() && (#[trigger] old(self).addresses@[j]).0@
                    != r.0.address@ ==> final(self).addresses@[j] == old(self).addresses@[j],
            forall|j: int|
                0 <= j < final(self).addresses@.len() && (#[trigger] final(self).addresses@[j]).0@
                    != r.0.address@ ==> (exists|k: int|
                    0 <= k < old(self).addresses@.len() && final(self).addresses@[j] == old(self).addresses@[k]),
            final(self).fund == old(self).fund,
            final(self).tx_store == old(self).tx_store,
    {
        let (public_key, secret_key) = new_keypair();
        let final_address = construct_address(&public_key, NETWORK_VERSION);
        let address_keys = AddressStore { public_key, secret_key };
        let keys_copy = AddressStore {
            public_key: crate::kv::copy_bytes(&address_keys.public_key),
            secret_key: crate::kv::copy_bytes(&address_keys.secret_key),
        };
        let addr_copy = final_address.address.clone();
        let ghost ac = addr_copy;
        let ghost kc = keys_copy;
        let ghost orig = self.addresses@;
        self.save_address_to_wallet(addr_copy, keys_copy);
        proof {
            lemma_addr_put_lookup(orig, ac, kc);
            assert(ac@ == final_address.address@);
        }
        (final_address, address_keys)
    }

    /// Saves the record of one received output.
    pub fn save_transaction_to_wallet(&mut self, tx_hash: OutPoint, address: PaymentAddress) -> (r:
        Result<(), WalletError>)
        requires
            old(self).wf(),
        ensures
            final(self).wf(),
            r is Ok,
            final(self).tx_store@ == tx_put(
                old(self).tx_store@,
                tx_hash,
                TransactionStore { address: address.address, net: address.net },
            ),
            final(self).fund == old(self).fund,
            final(self).addresses == old(self).addresses,
    {
        let PaymentAddress { address, net } = address;
        let tx_store = TransactionStore { address, net };
        let ghost tsv = tx_store;
        let ghost opv = tx_hash;
        let mut tx_to_save: Vec<(OutPoint, TransactionStore)> = Vec::new();
        tx_to_save.push((tx_hash, tx_store));
        let ghost items = tx_to_save@;
        let r = self.save_transactions_to_wallet(tx_to_save);
        proof {
            assert(items =~= seq![(opv, tsv)]);
            assert(items.drop_first() =~= Seq::<(OutPoint, TransactionStore)>::empty());
            assert(tx_put_all(tx_put(old(self).tx_store@, opv, tsv), items.drop_first())
                == tx_put(old(self).tx_store@, opv, tsv));
        }
        r
    }

    /// Saves the records of several received outputs, first to last.
    pub fn save_transactions_to_wallet(&mut self, tx_to_save: Vec<(OutPoint, TransactionStore)>) -> (r:
        Result<(), WalletError>)
        requires
            old(self).wf(),
        ensures
            final(self).wf(),
            r is Ok,
            final(self).tx_store@ == tx_put_all(old(self).tx_store@, tx_to_save@),
            final(self).fund == old(self).fund,
            final(self).addresses == old(self).addresses,
    {
        let ghost all = tx_to_save@;
        let mut rest = tx_to_save;
        while rest.len() > 0
            invariant
                self.wf(),
                tx_put_all(old(self).tx_store@, all) == tx_put_all(self.tx_store@, rest@),
                self.fund == old(self).fund,
                self.addresses == old(self).addresses,
            decreases rest@.len(),
        {
            let ghost pre = rest@;
            let (op, ts) = rest.remove(0);
            proof {
                assert(pre.drop_first() =~= rest@);
            }
            self.save_one_transaction(op, ts);
        }
        Ok(())
    }

    /// Saves one received-output record under its canonical key.
    fn save_one_transaction(&mut self, op: OutPoint, ts: TransactionStore)
        requires
            old(self).wf(),
        ensures
            final(self).wf(),
            final(self).tx_store@ == tx_put(old(self).tx_store@, op, ts),
            final(self).fund == old(self).fund,
            final(self).addresses == old(self).addresses,
    {
        let key = op.to_key();
        let value = encode_transaction_store(&ts);
        proof {
            crate::kv::lemma_col_map_put(
                self.db@[0],
                enc_out_point(op.t_hash@, op.n),
                enc_transaction_store(ts),
            );
            lemma_out_point_key_distinct(op.t_hash@, op.n);
        }
        self.db.put(0, key, value);
        let ghost dbsnap = self.db;
        let ghost orig = self.tx_store@;
        let mut i: usize = 0;
        let mut replaced = false;
        loop
            invariant_except_break
                !replaced,
                self.tx_store@ == orig,
                forall|j: int| 0 <= j < i ==> !same_out_point((#[trigger] orig[j]).0, op),
            invariant
                0 <= i <= orig.len(),
                tx_unique(orig),
                orig == old(self).tx_store@,
                self.db == dbsnap,
                self.fund == old(self).fund,
                self.addresses == old(self).addresses,
            ensures
                self.tx_store@ == tx_put(orig, op, ts),
            decreases orig.len() - i,
        {
            if i >= self.tx_store.len() {
                self.tx_store.push((op, ts));
                proof {
                    lemma_tx_index(orig, op);
                    assert(self.tx_store@ =~= tx_put(orig, op, ts));
                }
                break ;
            }
            let c = self.tx_store[i].0.cmp_order(&op);
            let same = match c {
                ByteOrd::Eq => true,
                _ => false,
            };
            if same {
                proof {
                    lemma_tx_index_at(orig, op, i as int);
                }
                let _removed = self.tx_store.remove(i);
                self.tx_store.insert(i, (op, ts));
                replaced = true;
                proof {
                    assert(self.tx_store@ =~= tx_put(orig, op, ts));
                }
                break ;
            }
            proof {
                if same_out_point(self.tx_store@[i as int].0, op) {
                    crate::order::lemma_bytes_lt_irrefl(hash_bytes(op.t_hash@));
                }
            }
            i = i + 1;
        }
        proof {
            lemma_tx_index(orig, op);
            assert(tx_unique(self.tx_store@)) by {
                if tx_has(orig, op) {
                    assert forall|a: int, b: int| 0 <= a < b < self.tx_store@.len() implies
                        !same_out_point((#[trigger] self.tx_store@[a]).0, (#[trigger] self.tx_store@[b]).0) by {
                        let k = tx_index(orig, op);
                        if a == k || b == k {
                            assert(same_out_point(orig[k].0, op));
                        }
                        assert(!same_out_point(orig[a].0, orig[b].0));
                    }
                } else {
                    assert forall|a: int, b: int| 0 <= a < b < self.tx_store@.len() implies
                        !same_out_point((#[trigger] self.tx_store@[a]).0, (#[trigger] self.tx_store@[b]).0) by {
                        if b < self.tx_store@.len() - 1 {
                            assert(!same_out_point(orig[a].0, orig[b].0));
                        } else {
                            assert(self.tx_store@[a] == orig[a]);
                        }
                    }
                }
            }
            assert forall|i2: int| 0 <= i2 < self.tx_store@.len() implies tx_entry_stored(
                self.wallet_map(),
                #[trigger] self.tx_store@[i2],
            ) by {
                let m = self.wallet_map();
                if tx_has(orig, op) {
                    let k = tx_index(orig, op);
                    if i2 == k {
                        assert(self.tx_store@[i2] == (op, ts));
                    } else {
                        assert(self.tx_store@[i2] == orig[i2]);
                        lemma_stored_framed(old(self).wallet_map(), m, orig[i2], op, ts);
                    }
                } else {
                    if i2 < self.tx_store@.len() - 1 {
                        assert(self.tx_store@[i2] == orig[i2]);
                        lemma_stored_framed(old(self).wallet_map(), m, orig[i2], op, ts);
                    } else {
                        assert(self.tx_store@[i2] == (op, ts));
                    }
                }
            }
        }
    }
}

/// A record stays stored when a different output's record is written: the two
/// canonical keys differ unless the outputs are the same.
pub proof fn lemma_stored_framed(
    m0: Map<Seq<u8>, Seq<u8>>,
    m1: Map<Seq<u8>, Seq<u8>>,
    e: (OutPoint, TransactionStore),
    op: OutPoint,
    ts: TransactionStore,
)
    requires
        tx_entry_stored(m0, e),
        m1 == m0.insert(enc_out_point(op.t_hash@, op.n), enc_transaction_store(ts)),
        !same_out_point(e.0, op),
    ensures
        tx_entry_stored(m1, e),
{
    if enc_out_point(e.0.t_hash@, e.0.n) == enc_out_point(op.t_hash@, op.n) {
        lemma_out_point_key_injective(e.0.t_hash@, e.0.n, op.t_hash@, op.n);
    }
}

/// After assigning `st` to `a`, the entry for `a` holds `st`; every entry
/// for another address keeps its place and value, and every other entry is
/// one of the old ones.
pub proof fn lemma_addr_put_lookup(s: Seq<(String, AddressStore)>, a: String, st: AddressStore)
    requires
        addr_unique(s),
    ensures
        addr_has(addr_put(s, a, st), a@),
        addr_put(s, a, st)[addr_index(addr_put(s, a, st), a@)].1 == st,
        addr_put(s, a, st).len() == (if addr_has(s, a@) {
            s.len()
        } else {
            s.len() + 1
        }),
        forall|j: int|
            0 <= j < s.len() && (#[trigger] s[j]).0@ != a@ ==> addr_put(s, a, st)[j] == s[j],
        forall|j: int|
            0 <= j < addr_put(s, a, st).len() && (#[trigger] addr_put(s, a, st)[j]).0@ != a@
                ==> (exists|k: int| 0 <= k < s.len() && addr_put(s, a, st)[j] == s[k]),
{
    let r = addr_put(s, a, st);
    lemma_addr_index(s, a@);
    if addr_has(s, a@) {
        let k = addr_index(s, a@);
        assert(r[k].0@ == a@);
        lemma_addr_index_at(r, a@, k);
        assert forall|j: int| 0 <= j < r.len() && (#[trigger] r[j]).0@ != a@ implies (exists|k2: int|
            0 <= k2 < s.len() && r[j] == s[k2]) by {
            assert(r[j] == s[j]);
        }
    } else {
        assert(r[s.len() as int].0@ == a@);
        lemma_addr_index_at(r, a@, s.len() as int);
        assert forall|j: int| 0 <= j < r.len() && (#[trigger] r[j]).0@ != a@ implies (exists|k2: int|
            0 <= k2 < s.len() && r[j] == s[k2]) by {
            assert(r[j] == s[j]);
        }
    }
}

/// The records after assigning each listed record in turn.
pub open spec fn tx_put_all(
    s: Seq<(OutPoint, TransactionStore)>,
    items: Seq<(OutPoint, TransactionStore)>,
) -> Seq<(OutPoint, TransactionStore)>
    decreases items.len(),
{
    if items.len() == 0 {
        s
    } else {
        tx_put_all(tx_put(s, items[0].0, items[0].1), items.drop_first())
    }
}

/// Index of the record whose canonical key is `k`, or -1.
pub open spec fn tx_key_index(s: Seq<(OutPoint, TransactionStore)>, k: Seq<u8>) -> int
    decreases s.len(),
{
    if s.len() == 0 {
        -1
    } else if enc_out_point(s[0].0.t_hash@, s[0].0.n) == k {
        0
    } else {
        let r = tx_key_index(s.drop_first(), k);
        if r < 0 {
            -1
        } else {
            r + 1
        }
    }
}

/// `tx_key_index` points at the record stored under `k` whenever it is
/// non-negative.
pub proof fn lemma_tx_key_index(s: Seq<(OutPoint, TransactionStore)>, k: Seq<u8>)
    ensures
        tx_key_index(s, k) >= 0 ==> {
            &&& tx_key_index(s, k) < s.len()
            &&& enc_out_point(s[tx_key_index(s, k)].0.t_hash@, s[tx_key_index(s, k)].0.n) == k
            &&& forall|j: int|
                0 <= j < tx_key_index(s, k) ==> enc_out_point(
                    (#[trigger] s[j]).0.t_hash@,
                    s[j].0.n,
                ) != k
        },
        tx_key_index(s, k) < 0 ==> (forall|j: int|
            0 <= j < s.len() ==> enc_out_point((#[trigger] s[j]).0.t_hash@, s[j].0.n) != k),
    decreases s.len(),
{
    if s.len() > 0 && enc_out_point(s[0].0.t_hash@, s[0].0.n) != k {
        lemma_tx_key_index(s.drop_first(), k);
        assert(forall|j: int| 0 < j < s.len() ==> s[j] == s.drop_first()[j - 1]);
    }
}

/// A scan that found key `k` at `i`, with no earlier match, found
/// `tx_key_index`.
pub proof fn lemma_tx_key_index_at(s: Seq<(OutPoint, TransactionStore)>, k: Seq<u8>, i: int)
    requires
        0 <= i < s.len(),
        enc_out_point(s[i].0.t_hash@, s[i].0.n) == k,
        forall|j: int|
            0 <= j < i ==> enc_out_point((#[trigger] s[j]).0.t_hash@, s[j].0.n) != k,
    ensures
        tx_key_index(s, k) == i,
    decreases s.len(),
{
    if i > 0 {
        lemma_tx_key_index_at(s.drop_first(), k, i - 1);
        assert(forall|j: int| 0 <= j < s.drop_first().len() ==> s.drop_first()[j] == s[j + 1]);
    }
}

impl WalletDb {
    /// Records a received payment: the output's amount is added to the fund
    /// store, which is persisted. Re-recording an output replaces its amount
    /// so the running total stays the sum.
    pub fn save_payment_to_wallet(&mut self, hash: OutPoint, amount: TokenAmount) -> (r: Result<
        (),
        WalletError,
    >)
        requires
            old(self).wf(),
            fund_sum(old(self).fund.transactions@) - (if fund_has(
                old(self).fund.transactions@,
                hash,
            ) {
                fund_amount_of(old(self).fund.transactions@, hash)
            } else {
                0
            }) + amount.0 <= u64::MAX,
        ensures
            final(self).wf(),
            r is Ok,
            final(self).fund.transactions@ == fund_insert(
                old(self).fund.transactions@,
                hash,
                amount,
            ),
            final(self).fund.running_total.0 == fund_sum(final(self).fund.transactions@),
            final(self).addresses == old(self).addresses,
            final(self).tx_store == old(self).tx_store,
    {
        self.fund.insert(hash, amount);
        self.persist_fund();
        Ok(())
    }

    /// The stored record of one received output.
    pub fn get_transaction_store(&self, tx_hash: &OutPoint) -> (r: TransactionStore)
        requires
            tx_has(self.tx_store@, *tx_hash),
        ensures
            r.address@ == self.tx_store@[tx_index(self.tx_store@, *tx_hash)].1.address@,
            r.net == self.tx_store@[tx_index(self.tx_store@, *tx_hash)].1.net,
    {
        let mut i: usize = 0;
        let n = self.tx_store.len();
        proof {
            lemma_tx_index(self.tx_store@, *tx_hash);
        }
        loop
            invariant
                i <= self.tx_store@.len() <= usize::MAX,
                tx_has(self.tx_store@, *tx_hash),
                tx_index(self.tx_store@, *tx_hash) >= i,
                forall|j: int| 0 <= j < i ==> !same_out_point((#[trigger] self.tx_store@[j]).0, *tx_hash),
            ensures
                i == tx_index(self.tx_store@, *tx_hash),
            decreases self.tx_store@.len() - i,
        {
            proof {
                lemma_tx_index(self.tx_store@, *tx_hash);
            }
            let c = self.tx_store[i].0.cmp_order(tx_hash);
            let same = match c {
                ByteOrd::Eq => true,
                _ => false,
            };
            if same {
                proof {
                    lemma_tx_index_at(self.tx_store@, *tx_hash, i as int);
                }
                break ;
            }
            proof {
                if same_out_point(self.tx_store@[i as int].0, *tx_hash) {
                    crate::order::lemma_bytes_lt_irrefl(hash_bytes(tx_hash.t_hash@));
                }
                if i + 1 > tx_index(self.tx_store@, *tx_hash) {
                    assert(same_out_point(
                        self.tx_store@[tx_index(self.tx_store@, *tx_hash)].0,
                        *tx_hash,
                    ));
                }
            }
            i = i + 1;
        }
        let ts = TransactionStore {
            address: self.tx_store[i].1.address.clone(),
            net: self.tx_store[i].1.net,
        };
        ts
    }

    /// The address that owns one received output.
    pub fn get_transaction_address(&self, tx_hash: &OutPoint) -> (r: String)
        requires
            tx_has(self.tx_store@, *tx_hash),
        ensures
            r@ == self.tx_store@[tx_index(self.tx_store@, *tx_hash)].1.address@,
    {
        self.get_transaction_store(tx_hash).address
    }

    /// Every address the wallet knows, in strictly ascending lexicographic
    /// order: exactly the address store's keys, each once.
    pub fn get_known_address(&self) -> (r: Vec<String>)
        requires
            addr_unique(self.addresses@),
        ensures
            r@.len() == self.addresses@.len(),
            addrs_sorted(r@),
            forall|j: int|
                0 <= j < self.addresses@.len() ==> addrs_has(r@, (#[trigger] self.addresses@[j]).0@),
            forall|i: int| 0 <= i < r@.len() ==> addr_has(self.addresses@, (#[trigger] r@[i])@),
    {
        let mut out: Vec<String> = Vec::new();
        let mut i: usize = 0;
        while i < self.addresses.len()
            invariant
                addr_unique(self.addresses@),
                i <= self.addresses@.len(),
                out@.len() == i,
                addrs_sorted(out@),
                forall|j: int| 0 <= j < i ==> addrs_has(out@, (#[trigger] self.addresses@[j]).0@),
                forall|q: int|
                    0 <= q < out@.len() ==> addr_has(
                        self.addresses@.take(i as int),
                        (#[trigger] out@[q])@,
                    ),
            decreases self.addresses@.len() - i,
        {
            let addr = self.addresses[i].0.clone();
            proof {
                if addrs_has(out@, addr@) {
                    let q = choose|q: int| 0 <= q < out@.len() && (#[trigger] out@[q])@ == addr@;
                    let pre = self.addresses@.take(i as int);
                    assert(forall|j: int| 0 <= j < pre.len() ==> pre[j] == self.addresses@[j]);
                    assert(addr_has(pre, out@[q]@));
                    lemma_addr_index(pre, out@[q]@);
                    let j = addr_index(pre, out@[q]@);
                    assert(0 <= j < pre.len() && pre[j].0@ == out@[q]@);
                    assert(self.addresses@[j].0@ == self.addresses@[i as int].0@);
                }
            }
            let ghost outpre = out@;
            let ghost av = addr@;
            insert_sorted_address(&mut out, addr);
            i = i + 1;
            proof {
                assert forall|j: int| 0 <= j < i implies addrs_has(
                    out@,
                    (#[trigger] self.addresses@[j]).0@,
                ) by {
                    if j < i - 1 {
                        let q = choose|q: int|
                            0 <= q < outpre.len() && (#[trigger] outpre[q])@
                                == self.addresses@[j].0@;
                        assert(addrs_has(out@, outpre[q]@));
                    } else {
                        assert(addrs_has(out@, av));
                    }
                }
                assert forall|q: int| 0 <= q < out@.len() implies addr_has(
                    self.addresses@.take(i as int),
                    (#[trigger] out@[q])@,
                ) by {
                    let pre = self.addresses@.take(i - 1);
                    let cur = self.addresses@.take(i as int);
                    assert(forall|j: int| 0 <= j < cur.len() ==> cur[j] == self.addresses@[j]);
                    assert(forall|j: int| 0 <= j < pre.len() ==> pre[j] == self.addresses@[j]);
                    lemma_addr_index(cur, out@[q]@);
                    if out@[q]@ == av {
                        assert(cur[i - 1].0@ == out@[q]@);
                    } else {
                        let p = choose|p: int|
                            0 <= p < outpre.len() && (#[trigger] outpre[p])@ == out@[q]@;
                        lemma_addr_index(pre, outpre[p]@);
                        let j = addr_index(pre, outpre[p]@);
                        assert(0 <= j < pre.len() && pre[j].0@ == out@[q]@);
                        assert(cur[j].0@ == out@[q]@);
                    }
                }
            }
        }
        proof {
            assert(self.addresses@.take(self.addresses@.len() as int) =~= self.addresses@);
        }
        out
    }

    /// Deletes one stored key. Deleting a fixed store key empties the store
    /// it held; deleting an output's key drops its record.
    pub fn delete_key(&mut self, key: &Vec<u8>)
        requires
            old(self).wf(),
        ensures
            final(self).wf(),
            final(self).wallet_map() == old(self).wallet_map().remove(key@),
            final(self).fund.transactions@ == (if key@ == fund_key_bytes() {
                Seq::<(OutPoint, TokenAmount)>::empty()
            } else {
                old(self).fund.transactions@
            }),
            key@ != fund_key_bytes() ==> final(self).fund == old(self).fund,
            final(self).addresses@ == (if key@ == address_key_bytes() {
                Seq::<(String, AddressStore)>::empty()
            } else {
                old(self).addresses@
            }),
            final(self).tx_store@ == (if tx_key_index(old(self).tx_store@, key@) >= 0 {
                old(self).tx_store@.remove(tx_key_index(old(self).tx_store@, key@))
            } else {
                old(self).tx_store@
            }),
    {
        proof {
            crate::kv::lemma_col_map_delete(self.db@[0], key@);
        }
        self.db.delete(0, key);
        let fk = fund_key();
        let is_fund = match bytes_cmp(key, &fk) {
            ByteOrd::Eq => true,
            _ => false,
        };
        proof {
            crate::order::lemma_bytes_lt_irrefl(key@);
            crate::order::lemma_bytes_lt_irrefl(fund_key_bytes());
        }
        if is_fund {
            self.fund = FundStore::empty();
            proof {
                lemma_tx_key_index(self.tx_store@, key@);
                assert(tx_key_index(self.tx_store@, key@) < 0) by {
                    if tx_key_index(self.tx_store@, key@) >= 0 {
                        let w = tx_key_index(self.tx_store@, key@);
                        lemma_out_point_key_distinct(
                            self.tx_store@[w].0.t_hash@,
                            self.tx_store@[w].0.n,
                        );
                    }
                }
                assert forall|i: int| 0 <= i < self.tx_store@.len() implies tx_entry_stored(
                    self.wallet_map(),
                    #[trigger] self.tx_store@[i],
                ) by {
                    lemma_out_point_key_distinct(self.tx_store@[i].0.t_hash@, self.tx_store@[i].0.n);
                }
                assert(fund_key_bytes() != address_key_bytes()) by {
                    assert(fund_key_bytes()[0] == 0u8 && address_key_bytes()[0] == 1u8);
                }
            }
            return ;
        }
        let ak = address_key();
        let is_addr = match bytes_cmp(key, &ak) {
            ByteOrd::Eq => true,
            _ => false,
        };
        proof {
            crate::order::lemma_bytes_lt_irrefl(address_key_bytes());
        }
        if is_addr {
            self.addresses = Vec::new();
            proof {
                lemma_tx_key_index(self.tx_store@, key@);
                assert(tx_key_index(self.tx_store@, key@) < 0) by {
                    if tx_key_index(self.tx_store@, key@) >= 0 {
                        let w = tx_key_index(self.tx_store@, key@);
                        lemma_out_point_key_distinct(
                            self.tx_store@[w].0.t_hash@,
                            self.tx_store@[w].0.n,
                        );
                    }
                }
                assert forall|i: int| 0 <= i < self.tx_store@.len() implies tx_entry_stored(
                    self.wallet_map(),
                    #[trigger] self.tx_store@[i],
                ) by {
                    lemma_out_point_key_distinct(self.tx_store@[i].0.t_hash@, self.tx_store@[i].0.n);
                }
            }
            return ;
        }
        let ghost orig = self.tx_store@;
        let ghost dbsnap = self.db;
        let ghost fundsnap = self.fund;
        let ghost addrsnap = self.addresses;
        let mut i: usize = 0;
        loop
            invariant_except_break
                self.tx_store@ == orig,
                forall|j: int|
                    0 <= j < i ==> enc_out_point((#[trigger] orig[j]).0.t_hash@, orig[j].0.n) != key@,
            invariant
                0 <= i <= orig.len(),
                orig == old(self).tx_store@,
                self.db == dbsnap,
                self.fund == fundsnap,
                self.addresses == addrsnap,
            ensures
                self.tx_store@ == (if tx_key_index(orig, key@) >= 0 {
                    orig.remove(tx_key_index(orig, key@))
                } else {
                    orig
                }),
            decreases orig.len() - i,
        {
            if i >= self.tx_store.len() {
                proof {
                    lemma_tx_key_index(orig, key@);
                }
                break ;
            }
            let ekey = self.tx_store[i].0.to_key();
            let same = match bytes_cmp(&ekey, key) {
                ByteOrd::Eq => true,
                _ => false,
            };
            if same {
                proof {
                    lemma_tx_key_index_at(orig, key@, i as int);
                }
                self.tx_store.remove(i);
                break ;
            }
            proof {
                crate::order::lemma_bytes_lt_irrefl(key@);
            }
            i = i + 1;
        }
        proof {
            lemma_tx_key_index(orig, key@);
            let ki = tx_key_index(orig, key@);
            assert(tx_unique(self.tx_store@)) by {
                if ki >= 0 {
                    assert forall|a: int, b: int| 0 <= a < b < self.tx_store@.len() implies
                        !same_out_point(
                        (#[trigger] self.tx_store@[a]).0,
                        (#[trigger] self.tx_store@[b]).0,
                    ) by {
                        orig.remove_ensures(ki);
                        let oa = if a < ki {
                            a
                        } else {
                            a + 1
                        };
                        let ob = if b < ki {
                            b
                        } else {
                            b + 1
                        };
                        assert(self.tx_store@[a] == orig[oa] && self.tx_store@[b] == orig[ob]);
                        assert(!same_out_point(orig[oa].0, orig[ob].0));
                    }
                }
            }
            assert forall|i2: int| 0 <= i2 < self.tx_store@.len() implies tx_entry_stored(
                self.wallet_map(),
                #[trigger] self.tx_store@[i2],
            ) by {
                let e = self.tx_store@[i2];
                let oi = if ki >= 0 && i2 >= ki {
                    i2 + 1
                } else {
                    i2
                };
                if ki >= 0 {
                    orig.remove_ensures(ki);
                }
                assert(e == orig[oi]);
                assert(tx_entry_stored(old(self).wallet_map(), orig[oi]));
                if ki >= 0 && enc_out_point(e.0.t_hash@, e.0.n) == key@ {
                    lemma_out_point_key_injective(
                        e.0.t_hash@,
                        e.0.n,
                        orig[ki].0.t_hash@,
                        orig[ki].0.n,
                    );
                    assert(same_out_point(orig[oi].0, orig[ki].0));
                }
                assert(enc_out_point(e.0.t_hash@, e.0.n) != key@);
            }
            assert(fund_key_bytes() != address_key_bytes()) by {
                assert(fund_key_bytes()[0] == 0u8 && address_key_bytes()[0] == 1u8);
            }
        }
    }
}

/// The record the wallet holds for a received output.
pub open spec fn owner_store(w: WalletDb, op: OutPoint) -> TransactionStore {
    w.tx_store@[tx_index(w.tx_store@, op)].1
}

/// The keypair behind the address that owns a received output.
pub open spec fn owner_keys(w: WalletDb, op: OutPoint) -> AddressStore {
    w.addresses@[addr_index(w.addresses@, owner_store(w, op).address@)].1
}

/// The wallet can sign for this output: it knows the output's record and the
/// owning address's keys.
pub open spec fn has_signing_info(w: WalletDb, op: OutPoint) -> bool {
    &&& tx_has(w.tx_store@, op)
    &&& addr_has(w.addresses@, owner_store(w, op).address@)
}

/// `t` spends `op` exactly as wallet `w` signs it: one detached signature of
/// the spent transaction's hash under the owning address's secret key, paired
/// with its public key.
pub open spec fn spent_input(w: WalletDb, t: TxIn, op: OutPoint) -> bool {
    &&& t.previous_out.t_hash@ == op.t_hash@
    &&& t.previous_out.n == op.n
    &&& t.signatures.deep_view() == seq![
        signature_of(hash_bytes(op.t_hash@), owner_keys(w, op).secret_key@),
    ]
    &&& t.pub_keys.deep_view() == seq![owner_keys(w, op).public_key@]
}

/// Everything not consumed is untouched: every received-output record whose
/// output is not among the consumed entries survives unchanged, and so does
/// every address entry not owning a consumed entry.
#[verifier::opaque]
pub open spec fn wallet_frame(
    w0: WalletDb,
    w1: WalletDb,
    consumed: Seq<(OutPoint, TokenAmount)>,
) -> bool {
    &&& (forall|q: OutPoint|
        #[trigger] tx_has(w0.tx_store@, q) && (forall|m: int|
            0 <= m < consumed.len() ==> !same_out_point((#[trigger] consumed[m]).0, q))
            ==> tx_has(w1.tx_store@, q) && w1.tx_store@[tx_index(w1.tx_store@, q)]
            == w0.tx_store@[tx_index(w0.tx_store@, q)])
    &&& (forall|a2: Seq<char>|
        #[trigger] addr_has(w0.addresses@, a2) && (forall|m: int|
            0 <= m < consumed.len() ==> owner_store(w0, (#[trigger] consumed[m]).0).address@
                != a2) ==> addr_has(w1.addresses@, a2) && w1.addresses@[addr_index(
            w1.addresses@,
            a2,
        )] == w0.addresses@[addr_index(w0.addresses@, a2)])
}

/// Consuming the next entry keeps the frame: whatever survived the first
/// `i` consumed entries and is not touched by entry `i` still survives.
pub proof fn lemma_wallet_frame_step(
    w0: WalletDb,
    w1: WalletDb,
    w2: WalletDb,
    s: Seq<(OutPoint, TokenAmount)>,
    i: int,
)
    requires
        0 <= i < s.len(),
        wallet_frame(w0, w1, s.take(i)),
        tx_unique(w1.tx_store@),
        addr_unique(w1.addresses@),
        w2.tx_store@ == tx_remove(w1.tx_store@, s[i].0),
        w2.addresses@ == addr_remove(w1.addresses@, owner_store(w1, s[i].0).address@),
        owner_store(w1, s[i].0) == owner_store(w0, s[i].0),
    ensures
        wallet_frame(w0, w2, s.take(i + 1)),
{
    reveal(wallet_frame);
    let c0 = s.take(i);
    let c1 = s.take(i + 1);
    let removed_addr = owner_store(w1, s[i].0).address@;
    assert(forall|m: int| 0 <= m < c1.len() ==> c1[m] == s[m]);
    assert(forall|m: int| 0 <= m < c0.len() ==> c0[m] == s[m]);
    assert forall|q: OutPoint|
        #[trigger] tx_has(w0.tx_store@, q) && (forall|m: int|
            0 <= m < c1.len() ==> !same_out_point((#[trigger] c1[m]).0, q)) implies tx_has(
        w2.tx_store@,
        q,
    ) && w2.tx_store@[tx_index(w2.tx_store@, q)] == w0.tx_store@[tx_index(w0.tx_store@, q)] by {
        assert(!same_out_point(s[i].0, q)) by {
            assert(c1[i].0 == s[i].0);
        }
        assert(forall|m: int| 0 <= m < c0.len() ==> !same_out_point((#[trigger] c0[m]).0, q));
        assert(tx_has(w1.tx_store@, q) && w1.tx_store@[tx_index(w1.tx_store@, q)]
            == w0.tx_store@[tx_index(w0.tx_store@, q)]);
        lemma_tx_remove_other(w1.tx_store@, s[i].0, q);
    }
    assert forall|a2: Seq<char>|
        #[trigger] addr_has(w0.addresses@, a2) && (forall|m: int|
            0 <= m < c1.len() ==> owner_store(w0, (#[trigger] c1[m]).0).address@ != a2) implies
        addr_has(w2.addresses@, a2) && w2.addresses@[addr_index(w2.addresses@, a2)]
        == w0.addresses@[addr_index(w0.addresses@, a2)] by {
        assert(a2 != removed_addr) by {
            assert(c1[i].0 == s[i].0);
        }
        assert(forall|m: int|
            0 <= m < c0.len() ==> owner_store(w0, (#[trigger] c0[m]).0).address@ != a2);
        assert(addr_has(w1.addresses@, a2) && w1.addresses@[addr_index(w1.addresses@, a2)]
            == w0.addresses@[addr_index(w0.addresses@, a2)]);
        lemma_addr_remove_other(w1.addresses@, removed_addr, a2);
    }
}

/// Removing one output's record leaves every other output's lookup alone.
pub proof fn lemma_tx_remove_other(s: Seq<(OutPoint, TransactionStore)>, op: OutPoint, op2: OutPoint)
    requires
        tx_unique(s),
        !same_out_point(op, op2),
    ensures
        tx_has(tx_remove(s, op), op2) == tx_has(s, op2),
        tx_has(s, op2) ==> tx_remove(s, op)[tx_index(tx_remove(s, op), op2)] == s[tx_index(s, op2)],
{
    lemma_tx_index(s, op);
    lemma_tx_index(s, op2);
    if tx_has(s, op) {
        let k = tx_index(s, op);
        let r = s.remove(k);
        s.remove_ensures(k);
        assert(forall|j: int| 0 <= j < k ==> r[j] == s[j]);
        assert(forall|j: int| k <= j < r.len() ==> r[j] == s[j + 1]);
        if tx_has(s, op2) {
            let j = tx_index(s, op2);
            assert(j != k) by {
                if j == k {
                    assert(same_out_point(s[k].0, op) && same_out_point(s[j].0, op2));
                }
            }
            let j2 = if j < k {
                j
            } else {
                j - 1
            };
            assert(r[j2] == s[j]);
            assert forall|m: int| 0 <= m < j2 implies !same_out_point((#[trigger] r[m]).0, op2) by {
                if m < k {
                    assert(r[m] == s[m]);
                } else {
                    assert(r[m] == s[m + 1]);
                }
            }
            lemma_tx_index_at(r, op2, j2);
        } else {
            lemma_tx_index(r, op2);
            if tx_has(r, op2) {
                let j2 = tx_index(r, op2);
                if j2 < k {
                    assert(r[j2] == s[j2]);
                } else {
                    assert(r[j2] == s[j2 + 1]);
                }
            }
        }
    }
}

/// Removing one address's entry leaves every other address's lookup alone.
pub proof fn lemma_addr_remove_other(s: Seq<(String, AddressStore)>, a: Seq<char>, a2: Seq<char>)
    requires
        addr_unique(s),
        a != a2,
    ensures
        addr_has(addr_remove(s, a), a2) == addr_has(s, a2),
        addr_has(s, a2) ==> addr_remove(s, a)[addr_index(addr_remove(s, a), a2)] == s[addr_index(
            s,
            a2,
        )],
        addr_unique(addr_remove(s, a)),
{
    lemma_addr_index(s, a);
    lemma_addr_index(s, a2);
    if addr_has(s, a) {
        let k = addr_index(s, a);
        let r = s.remove(k);
        s.remove_ensures(k);
        assert(forall|j: int| 0 <= j < k ==> r[j] == s[j]);
        assert(forall|j: int| k <= j < r.len() ==> r[j] == s[j + 1]);
        assert(addr_unique(r)) by {
            assert forall|x: int, y: int| 0 <= x < y < r.len() implies (#[trigger] r[x]).0@ != (
            #[trigger] r[y]).0@ by {
                let ox = if x < k {
                    x
                } else {
                    x + 1
                };
                let oy = if y < k {
                    y
                } else {
                    y + 1
                };
                assert(r[x] == s[ox] && r[y] == s[oy]);
                assert(s[ox].0@ != s[oy].0@);
            }
        }
        if addr_has(s, a2) {
            let j = addr_index(s, a2);
            assert(j != k);
            let j2 = if j < k {
                j
            } else {
                j - 1
            };
            assert(r[j2] == s[j]);
            assert forall|m: int| 0 <= m < j2 implies (#[trigger] r[m]).0@ != a2 by {
                if m < k {
                    assert(r[m] == s[m]);
                } else {
                    assert(r[m] == s[m + 1]);
                }
            }
            lemma_addr_index_at(r, a2, j2);
        } else {
            lemma_addr_index(r, a2);
            if addr_has(r, a2) {
                let j2 = addr_index(r, a2);
                if j2 < k {
                    assert(r[j2] == s[j2]);
                } else {
                    assert(r[j2] == s[j2 + 1]);
                }
            }
        }
    }
}

impl WalletDb {
    /// A copy of the keys stored for `address`.
    fn get_address_keys(&self, address: &String) -> (r: AddressStore)
        requires
            self.wf(),
            addr_has(self.addresses@, address@),
        ensures
            r.public_key@ == self.addresses@[addr_index(self.addresses@, address@)].1.public_key@,
            r.secret_key@ == self.addresses@[addr_index(self.addresses@, address@)].1.secret_key@,
            r.public_key@.len() == PUBLIC_KEY_LEN,
            r.secret_key@.len() == SECRET_KEY_LEN,
    {
        let akey = address.as_str().as_bytes_vec();
        let mut i: usize = 0;
        let n = self.addresses.len();
        proof {
            lemma_addr_index(self.addresses@, address@);
        }
        loop
            invariant
                i <= self.addresses@.len() <= usize::MAX,
                addr_has(self.addresses@, address@),
                addr_index(self.addresses@, address@) >= i,
                akey@ == hash_bytes(address@),
                forall|j: int| 0 <= j < i ==> (#[trigger] self.addresses@[j]).0@ != address@,
            ensures
                i == addr_index(self.addresses@, address@),
            decreases self.addresses@.len() - i,
        {
            proof {
                lemma_addr_index(self.addresses@, address@);
            }
            let ekey = self.addresses[i].0.as_str().as_bytes_vec();
            let c = bytes_cmp(&ekey, &akey);
            let same = match c {
                ByteOrd::Eq => true,
                _ => false,
            };
            if same {
                proof {
                    crate::transaction::lemma_hash_bytes_injective(
                        self.addresses@[i as int].0@,
                        address@,
                    );
                    lemma_addr_index_at(self.addresses@, address@, i as int);
                }
                break ;
            }
            proof {
                if self.addresses@[i as int].0@ == address@ {
                    crate::order::lemma_bytes_lt_irrefl(akey@);
                }
                if i + 1 > addr_index(self.addresses@, address@) {
                    assert(self.addresses@[addr_index(self.addresses@, address@)].0@ == address@);
                }
            }
            i = i + 1;
        }
        AddressStore {
            public_key: crate::kv::copy_bytes(&self.addresses[i].1.public_key),
            secret_key: crate::kv::copy_bytes(&self.addresses[i].1.secret_key),
        }
    }

    /// Drops the entry for `address` from the address store and persists it.
    fn remove_address(&mut self, address: &String)
        requires
            old(self).wf(),
        ensures
            final(self).wf(),
            final(self).addresses@ == addr_remove(old(self).addresses@, address@),
            final(self).fund == old(self).fund,
            final(self).tx_store == old(self).tx_store,
    {
        let ghost orig = self.addresses@;
        let ghost dbsnap = self.db;
        let akey = address.as_str().as_bytes_vec();
        let mut i: usize = 0;
        loop
            invariant_except_break
                self.addresses@ == orig,
                forall|j: int| 0 <= j < i ==> (#[trigger] orig[j]).0@ != address@,
            invariant
                0 <= i <= orig.len(),
                addr_unique(orig),
                orig == old(self).addresses@,
                akey@ == hash_bytes(address@),
                self.db == dbsnap,
                self.fund == old(self).fund,
                self.tx_store == old(self).tx_store,
            ensures
                self.addresses@ == addr_remove(orig, address@),
            decreases orig.len() - i,
        {
            if i >= self.addresses.len() {
                proof {
                    lemma_addr_index(orig, address@);
                }
                break ;
            }
            let ekey = self.addresses[i].0.as_str().as_bytes_vec();
            let c = bytes_cmp(&ekey, &akey);
            let same = match c {
                ByteOrd::Eq => true,
                _ => false,
            };
            if same {
                proof {
                    crate::transaction::lemma_hash_bytes_injective(
                        self.addresses@[i as int].0@,
                        address@,
                    );
                    lemma_addr_index_at(orig, address@, i as int);
                }
                self.addresses.remove(i);
                break ;
            }
            proof {
                if self.addresses@[i as int].0@ == address@ {
                    crate::order::lemma_bytes_lt_irrefl(akey@);
                }
            }
            i = i + 1;
        }
        proof {
            lemma_addr_index(orig, address@);
            if addr_has(orig, address@) {
                let k = addr_index(orig, address@);
                orig.remove_ensures(k);
                assert(addr_unique(self.addresses@)) by {
                    assert forall|x: int, y: int| 0 <= x < y < self.addresses@.len() implies (
                    #[trigger] self.addresses@[x]).0@ != (#[trigger] self.addresses@[y]).0@ by {
                        let ox = if x < k {
                            x
                        } else {
                            x + 1
                        };
                        let oy = if y < k {
                            y
                        } else {
                            y + 1
                        };
                        assert(self.addresses@[x] == orig[ox] && self.addresses@[y] == orig[oy]);
                        assert(orig[ox].0@ != orig[oy].0@);
                    }
                }
                assert forall|i2: int| 0 <= i2 < self.addresses@.len() implies (
                #[trigger] self.addresses@[i2]).1.public_key@.len() == PUBLIC_KEY_LEN
                    && self.addresses@[i2].1.secret_key@.len() == SECRET_KEY_LEN by {
                    let oi = if i2 < k {
                        i2
                    } else {
                        i2 + 1
                    };
                    assert(self.addresses@[i2] == orig[oi]);
                }
            }
        }
        self.persist_addresses();
    }

    /// Builds a signed input spending a previously received output,
    /// optionally removing that output's record and its owning address from
    /// the wallet.
    pub fn construct_tx_in_from_prev_out(&mut self, tx_hash: OutPoint, remove_from_wallet: bool) -> (r:
        TxIn)
        requires
            old(self).wf(),
            has_signing_info(*old(self), tx_hash),
        ensures
            final(self).wf(),
            spent_input(*old(self), r, tx_hash),
            final(self).fund == old(self).fund,
            !remove_from_wallet ==> final(self).tx_store == old(self).tx_store
                && final(self).addresses == old(self).addresses,
            remove_from_wallet ==> final(self).tx_store@ == tx_remove(old(self).tx_store@, tx_hash)
                && final(self).addresses@ == addr_remove(
                old(self).addresses@,
                owner_store(*old(self), tx_hash).address@,
            ),
    {
        proof {
            lemma_tx_index(self.tx_store@, tx_hash);
        }
        let tx_store = self.get_transaction_store(&tx_hash);
        let needed_store = self.get_address_keys(&tx_store.address);
        let msg = tx_hash.t_hash.as_str().as_bytes_vec();
        let signature = sign_message(&msg, &needed_store.secret_key);
        let ghost sigv = signature@;
        let mut sigs: Vec<Vec<u8>> = Vec::new();
        sigs.push(signature);
        let mut pks: Vec<Vec<u8>> = Vec::new();
        pks.push(needed_store.public_key);
        let ghost pkv = pks@[0]@;
        let tx_const = TxConstructor {
            t_hash: tx_hash.t_hash.clone(),
            prev_n: tx_hash.n,
            signatures: sigs,
            pub_keys: pks,
        };
        let ghost cv = tx_const;
        let mut consts: Vec<TxConstructor> = Vec::new();
        consts.push(tx_const);
        let ghost consts_v = consts@;
        let mut tx_ins = construct_payment_tx_ins(consts);
        proof {
            assert(consts_v[0] == cv);
            assert(crate::transaction::tx_in_from_constructor(tx_ins@[0], consts_v[0]));
        }
        let tx_in = tx_ins.remove(0);
        proof {
            assert(crate::transaction::tx_in_from_constructor(tx_in, cv));
            assert(tx_in.signatures.deep_view() =~~= seq![sigv]);
            assert(tx_in.pub_keys.deep_view() =~~= seq![pkv]);
            assert(spent_input(*old(self), tx_in, tx_hash));
        }
        if remove_from_wallet {
            let key = tx_hash.to_key();
            proof {
                let ti = tx_index(self.tx_store@, tx_hash);
                assert(enc_out_point(self.tx_store@[ti].0.t_hash@, self.tx_store@[ti].0.n)
                    == key@);
                assert forall|j: int| 0 <= j < ti implies enc_out_point(
                    (#[trigger] self.tx_store@[j]).0.t_hash@,
                    self.tx_store@[j].0.n,
                ) != key@ by {
                    if enc_out_point(self.tx_store@[j].0.t_hash@, self.tx_store@[j].0.n) == key@ {
                        lemma_out_point_key_injective(
                            self.tx_store@[j].0.t_hash@,
                            self.tx_store@[j].0.n,
                            tx_hash.t_hash@,
                            tx_hash.n,
                        );
                    }
                }
                lemma_tx_key_index_at(self.tx_store@, key@, ti);
            }
            self.delete_key(&key);
            proof {
                lemma_out_point_key_distinct(tx_hash.t_hash@, tx_hash.n);
            }
            let addr = tx_store.address;
            self.remove_address(&addr);
        }
        tx_in
    }
}

/// Number of entries, from the front, needed to reach `amount`.
pub open spec fn sel_len(s: Seq<(OutPoint, TokenAmount)>, amount: int) -> int
    decreases s.len(),
{
    if amount <= 0 {
        0
    } else if s.len() == 0 {
        0
    } else {
        1 + sel_len(s.drop_first(), amount - s[0].1.0)
    }
}

/// One more entry adds its amount to the prefix sum.
pub proof fn lemma_fund_sum_take_next(s: Seq<(OutPoint, TokenAmount)>, m: int)
    requires
        0 <= m < s.len(),
    ensures
        fund_sum(s.take(m + 1)) == fund_sum(s.take(m)) + s[m].1.0,
{
    assert(s.take(m + 1).drop_last() =~= s.take(m));
}

/// The whole sum splits at any point into the prefix and the rest.
pub proof fn lemma_fund_sum_split(s: Seq<(OutPoint, TokenAmount)>, m: int)
    requires
        0 <= m <= s.len(),
    ensures
        fund_sum(s) == fund_sum(s.take(m)) + fund_sum(s.skip(m)),
    decreases m,
{
    if m == 0 {
        assert(s.take(0) =~= Seq::<(OutPoint, TokenAmount)>::empty());
        assert(s.skip(0) =~= s);
        assert(fund_sum(Seq::<(OutPoint, TokenAmount)>::empty()) == 0);
    } else {
        lemma_fund_sum_split(s, m - 1);
        lemma_fund_sum_take_next(s, m - 1);
        lemma_fund_sum_first(s.skip(m - 1));
        assert(s.skip(m - 1)[0] == s[m - 1]);
        assert(s.skip(m - 1).drop_first() =~= s.skip(m));
    }
}

/// Prefix sums only grow.
pub proof fn lemma_fund_sum_take_mono(s: Seq<(OutPoint, TokenAmount)>, a: int, b: int)
    requires
        0 <= a <= b <= s.len(),
    ensures
        fund_sum(s.take(a)) <= fund_sum(s.take(b)),
    decreases b - a,
{
    if a < b {
        lemma_fund_sum_take_mono(s, a, b - 1);
        lemma_fund_sum_take_next(s, b - 1);
    }
}

/// Where the selection stops: the first prefix whose sum reaches the amount.
pub proof fn lemma_sel_len_bounds(s: Seq<(OutPoint, TokenAmount)>, amount: int)
    requires
        amount <= fund_sum(s),
    ensures
        0 <= sel_len(s, amount) <= s.len(),
        fund_sum(s.take(sel_len(s, amount))) >= amount,
        forall|m: int| 0 <= m < sel_len(s, amount) ==> fund_sum(s.take(m)) < amount,
    decreases s.len(),
{
    let k = sel_len(s, amount);
    if amount <= 0 {
        assert(s.take(0) =~= Seq::<(OutPoint, TokenAmount)>::empty());
        assert(fund_sum(Seq::<(OutPoint, TokenAmount)>::empty()) == 0);
    } else if s.len() == 0 {
    } else {
        let t = s.drop_first();
        lemma_fund_sum_first(s);
        lemma_sel_len_bounds(t, amount - s[0].1.0);
        let kt = sel_len(t, amount - s[0].1.0);
        assert(k == 1 + kt);
        assert(s.take(k).drop_first() =~= t.take(kt)) by {
            assert(s.take(k).len() == k);
            assert(forall|j: int| 0 <= j < k - 1 ==> s.take(k).drop_first()[j] == s[j + 1]);
            assert(forall|j: int| 0 <= j < kt ==> t.take(kt)[j] == s[j + 1]);
        }
        lemma_fund_sum_first(s.take(k));
        assert(s.take(k)[0] == s[0]);
        assert(fund_sum(s.take(k)) == s[0].1.0 + fund_sum(t.take(kt)));
        assert forall|m: int| 0 <= m < k implies fund_sum(s.take(m)) < amount by {
            if m == 0 {
                assert(s.take(0) =~= Seq::<(OutPoint, TokenAmount)>::empty());
                assert(fund_sum(Seq::<(OutPoint, TokenAmount)>::empty()) == 0);
            } else {
                assert(fund_sum(t.take(m - 1)) < amount - s[0].1.0);
                lemma_fund_sum_first(s.take(m));
                assert(s.take(m)[0] == s[0]);
                assert(s.take(m).drop_first() =~= t.take(m - 1)) by {
                    assert(forall|j: int|
                        0 <= j < m - 1 ==> s.take(m).drop_first()[j] == s[j + 1] && t.take(m - 1)[j]
                            == s[j + 1]);
                }
            }
        }
    }
}

/// The entry for `op` itself is gone after its removal.
pub proof fn lemma_tx_remove_self(s: Seq<(OutPoint, TransactionStore)>, op: OutPoint)
    requires
        tx_unique(s),
    ensures
        !tx_has(tx_remove(s, op), op),
        tx_unique(tx_remove(s, op)),
{
    lemma_tx_index(s, op);
    if tx_has(s, op) {
        let k = tx_index(s, op);
        let r = s.remove(k);
        s.remove_ensures(k);
        assert(forall|j: int| 0 <= j < k ==> r[j] == s[j]);
        assert(forall|j: int| k <= j < r.len() ==> r[j] == s[j + 1]);
        assert(tx_unique(r)) by {
            assert forall|x: int, y: int| 0 <= x < y < r.len() implies !same_out_point(
                (#[trigger] r[x]).0,
                (#[trigger] r[y]).0,
            ) by {
                let ox = if x < k {
                    x
                } else {
                    x + 1
                };
                let oy = if y < k {
                    y
                } else {
                    y + 1
                };
                assert(r[x] == s[ox] && r[y] == s[oy]);
                assert(!same_out_point(s[ox].0, s[oy].0));
            }
        }
        lemma_tx_index(r, op);
        if tx_has(r, op) {
            let j = tx_index(r, op);
            let oj = if j < k {
                j
            } else {
                j + 1
            };
            assert(r[j] == s[oj]);
            assert(same_out_point(s[oj].0, op) && same_out_point(s[k].0, op));
            assert(!same_out_point(s[if oj < k {
                oj
            } else {
                k
            }].0, s[if oj < k {
                k
            } else {
                oj
            }].0));
        }
    }
}

/// The entry for `a` itself is gone after its removal.
pub proof fn lemma_addr_remove_self(s: Seq<(String, AddressStore)>, a: Seq<char>)
    requires
        addr_unique(s),
    ensures
        !addr_has(addr_remove(s, a), a),
{
    lemma_addr_index(s, a);
    if addr_has(s, a) {
        let k = addr_index(s, a);
        let r = s.remove(k);
        s.remove_ensures(k);
        assert(forall|j: int| 0 <= j < k ==> r[j] == s[j]);
        assert(forall|j: int| k <= j < r.len() ==> r[j] == s[j + 1]);
        lemma_addr_index(r, a);
        if addr_has(r, a) {
            let j = addr_index(r, a);
            let oj = if j < k {
                j
            } else {
                j + 1
            };
            assert(r[j] == s[oj]);
            assert(s[oj].0@ == a && s[k].0@ == a);
            assert(s[if oj < k {
                oj
            } else {
                k
            }].0@ != s[if oj < k {
                k
            } else {
                oj
            }].0@);
        }
    }
}

/// The wallet can sign for every recorded fund entry, and no two entries are
/// owned by the same address.
pub open spec fn spendable(w: WalletDb) -> bool {
    &&& forall|i: int|
        0 <= i < w.fund.transactions@.len() ==> has_signing_info(
            w,
            (#[trigger] w.fund.transactions@[i]).0,
        )
    &&& forall|i: int, j: int|
        0 <= i < j < w.fund.transactions@.len() ==> owner_store(
            w,
            (#[trigger] w.fund.transactions@[i]).0,
        ).address@ != owner_store(w, (#[trigger] w.fund.transactions@[j]).0).address@
}

impl WalletDb {
    /// Spends the first recorded fund entry: signs an input for it and drops
    /// the entry, its record and its owning address from the wallet.
    fn spend_first_entry(&mut self) -> (r: TxIn)
        requires
            old(self).wf(),
            old(self).fund.transactions@.len() > 0,
            has_signing_info(*old(self), old(self).fund.transactions@[0].0),
        ensures
            final(self).wf(),
            spent_input(*old(self), r, old(self).fund.transactions@[0].0),
            final(self).fund.transactions@ == old(self).fund.transactions@.drop_first(),
            final(self).fund.running_total.0 == fund_sum(final(self).fund.transactions@),
            final(self).tx_store@ == tx_remove(
                old(self).tx_store@,
                old(self).fund.transactions@[0].0,
            ),
            final(self).addresses@ == addr_remove(
                old(self).addresses@,
                owner_store(*old(self), old(self).fund.transactions@[0].0).address@,
            ),
    {
        let ghost s0 = self.fund.transactions@;
        let amt = self.fund.transactions[0].1.0;
        let op = OutPoint {
            t_hash: self.fund.transactions[0].0.t_hash.clone(),
            n: self.fund.transactions[0].0.n,
        };
        proof {
            assert(same_out_point(op, s0[0].0));
            assert(has_signing_info(*self, op));
            lemma_fund_sum_first(s0);
            lemma_fund_sum_nonneg(s0.drop_first());
        }
        let tx_in = self.construct_tx_in_from_prev_out(op, true);
        let _entry = self.fund.transactions.remove(0);
        self.fund.running_total = TokenAmount(self.fund.running_total.0 - amt);
        proof {
            assert(self.fund.transactions@ =~= s0.drop_first());
            assert(fund_sorted(self.fund.transactions@)) by {
                assert(forall|a: int|
                    0 <= a < s0.drop_first().len() ==> (#[trigger] s0.drop_first()[a]) == s0[a
                        + 1]);
            }
            assert(self.fund.wf());
        }
        self.persist_fund();
        proof {
            assert(spent_input(*old(self), tx_in, old(self).fund.transactions@[0].0));
        }
        tx_in
    }

    /// Selects the inputs of a payment: consumes recorded outputs in
    /// ascending order until their amounts reach what is required, signing
    /// one input per consumed output and dropping each consumed output and
    /// its owning address from the wallet. Overshooting produces a change
    /// entry for the difference. With too little in the fund store the
    /// payment fails and the wallet is untouched.
    #[verifier::rlimit(100)]
    #[verifier::spinoff_prover]
    pub fn fetch_inputs_for_payment(&mut self, amount_required: TokenAmount) -> (r: Result<
        (Vec<TxIn>, Option<ReturnPayment>),
        WalletError,
    >)
        requires
            old(self).wf(),
            spendable(*old(self)),
        ensures
            match r {
                Err(e) => {
                    &&& e == WalletError::InsufficientFunds
                    &&& old(self).fund.running_total.0 < amount_required.0
                    &&& *final(self) == *old(self)
                },
                Ok(p) => ({
                    let s = old(self).fund.transactions@;
                    let k = sel_len(s, amount_required.0 as int);
                    &&& old(self).fund.running_total.0 >= amount_required.0
                    &&& final(self).wf()
                    &&& p.0@.len() == k
                    &&& (forall|i: int|
                        0 <= i < k ==> spent_input(*old(self), #[trigger] p.0@[i], s[i].0))
                    &&& final(self).fund.transactions@ == s.skip(k)
                    &&& final(self).fund.running_total.0 == fund_sum(s.skip(k))
                    &&& (p.1 is Some <==> fund_sum(s.take(k)) > amount_required.0)
                    &&& (p.1 matches Some(rp) ==> rp.amount.0 == fund_sum(s.take(k))
                        - amount_required.0 && spent_input(*old(self), rp.tx_in, s[k - 1].0)
                        && rp.transaction.inputs@.len() == 0 && rp.transaction.outputs@.len() == 0)
                    &&& (forall|i: int| 0 <= i < k ==> !tx_has(final(self).tx_store@, s[i].0))
                    &&& (forall|i: int|
                        0 <= i < k ==> !addr_has(
                            final(self).addresses@,
                            owner_store(*old(self), s[i].0).address@,
                        ))
                    &&& (forall|j: int|
                        k <= j < s.len() ==> has_signing_info(*final(self), (#[trigger] s[j]).0)
                            && owner_store(*final(self), s[j].0) == owner_store(
                            *old(self),
                            s[j].0,
                        ) && owner_keys(*final(self), s[j].0) == owner_keys(*old(self), s[j].0))
                    &&& spendable(*final(self))
                    &&& wallet_frame(*old(self), *final(self), s.take(k))
                }),
            },
    {
        let ghost s = self.fund.transactions@;
        let amount = amount_required.0;
        if self.fund.running_total.0 < amount {
            return Err(WalletError::InsufficientFunds);
        }
        let ghost k = sel_len(s, amount as int);
        proof {
            lemma_sel_len_bounds(s, amount as int);
        }
        let mut tx_ins: Vec<TxIn> = Vec::new();
        let mut return_payment: Option<ReturnPayment> = None;
        let mut made: u64 = 0;
        proof {
            assert(wallet_frame(*self, *self, s.take(0))) by {
                reveal(wallet_frame);
            }
        }
        while made < amount
            invariant
                self.wf(),
                spendable(*old(self)),
                s == old(self).fund.transactions@,
                fund_sorted(s),
                fund_sum(s) <= u64::MAX,
                k == sel_len(s, amount as int),
                amount == amount_required.0,
                0 <= k <= s.len(),
                fund_sum(s.take(k)) >= amount,
                forall|m: int| 0 <= m < k ==> fund_sum(s.take(m)) < amount,
                tx_ins@.len() <= k,
                made == fund_sum(s.take(tx_ins@.len() as int)),
                self.fund.transactions@ == s.skip(tx_ins@.len() as int),
                forall|i: int|
                    0 <= i < tx_ins@.len() ==> spent_input(
                        *old(self),
                        #[trigger] tx_ins@[i],
                        s[i].0,
                    ),
                forall|i: int| 0 <= i < tx_ins@.len() ==> !tx_has(self.tx_store@, s[i].0),
                forall|i: int|
                    0 <= i < tx_ins@.len() ==> !addr_has(
                        self.addresses@,
                        owner_store(*old(self), s[i].0).address@,
                    ),
                forall|j: int|
                    tx_ins@.len() <= j < s.len() ==> has_signing_info(*self, (#[trigger] s[j]).0)
                        && owner_store(*self, s[j].0) == owner_store(*old(self), s[j].0)
                        && owner_keys(*self, s[j].0) == owner_keys(*old(self), s[j].0),
                wallet_frame(*old(self), *self, s.take(tx_ins@.len() as int)),
                made < amount ==> return_payment is None,
                made >= amount ==> ((return_payment is Some <==> made > amount) && (
                return_payment matches Some(rp) ==> rp.amount.0 == made - amount && spent_input(
                    *old(self),
                    rp.tx_in,
                    s[tx_ins@.len() - 1].0,
                ) && rp.transaction.inputs@.len() == 0 && rp.transaction.outputs@.len() == 0)),
            decreases k - tx_ins@.len(),
        {
            let ghost i = tx_ins@.len() as int;
            let ghost head = *self;
            proof {
                if i >= k {
                    lemma_fund_sum_take_mono(s, k, i);
                }
                assert(i < k);
                assert(i < s.len());
                lemma_fund_sum_take_next(s, i);
                lemma_fund_sum_take_mono(s, i + 1, s.len() as int);
                assert(s.take(s.len() as int) =~= s);
                assert(s.skip(i as int)[0] == s[i]);
            }
            let amt = self.fund.transactions[0].1.0;
            if made + amt > amount {
                let op2 = OutPoint {
                    t_hash: self.fund.transactions[0].0.t_hash.clone(),
                    n: self.fund.transactions[0].0.n,
                };
                proof {
                    assert(same_out_point(op2, s[i].0));
                    assert(has_signing_info(*self, op2));
                }
                let rtx = self.construct_tx_in_from_prev_out(op2, false);
                proof {
                    assert(owner_keys(*self, s[i].0) == owner_keys(*old(self), s[i].0));
                    assert(spent_input(*old(self), rtx, s[i].0));
                }
                return_payment = Some(
                    ReturnPayment {
                        tx_in: rtx,
                        amount: TokenAmount(made + amt - amount),
                        transaction: Transaction::new(),
                    },
                );
            }
            let ghost pre = *self;
            let tx_in = self.spend_first_entry();
            proof {
                assert(pre.fund.transactions@[0] == s[i]);
                assert(owner_keys(pre, s[i].0) == owner_keys(*old(self), s[i].0));
                assert(spent_input(*old(self), tx_in, s[i].0));
                assert(self.fund.transactions@ =~= s.skip(i + 1)) by {
                    assert(forall|a: int|
                        0 <= a < s.skip(i).drop_first().len() ==> (#[trigger] s.skip(
                            i,
                        ).drop_first()[a]) == s[a + i + 1]);
                }
                lemma_fund_sum_split(s, i + 1);
                lemma_fund_sum_first(s.skip(i));
                assert(s.skip(i).drop_first() =~= s.skip(i + 1));
            }
            tx_ins.push(tx_in);
            made = made + amt;
            proof {
                let removed_addr = owner_store(pre, s[i].0).address@;
                assert(removed_addr == owner_store(*old(self), s[i].0).address@);
                lemma_tx_remove_self(pre.tx_store@, s[i].0);
                lemma_addr_remove_self(pre.addresses@, removed_addr);
                assert forall|j: int| 0 <= j < tx_ins@.len() implies !tx_has(
                    self.tx_store@,
                    (#[trigger] s[j]).0,
                ) && !addr_has(self.addresses@, owner_store(*old(self), s[j].0).address@) by {
                    if j < i {
                        lemma_tx_index(self.tx_store@, s[j].0);
                        assert(!same_out_point(s[i].0, s[j].0)) by {
                            assert(op_lt(s[j].0, s[i].0));
                            crate::transaction::lemma_op_lt_irrefl(s[j].0, s[i].0);
                        }
                        if tx_has(self.tx_store@, s[j].0) {
                            lemma_tx_remove_other(pre.tx_store@, s[i].0, s[j].0);
                        }
                        let aj = owner_store(*old(self), s[j].0).address@;
                        if addr_has(self.addresses@, aj) {
                            assert(aj != removed_addr);
                            lemma_addr_remove_other(pre.addresses@, removed_addr, aj);
                        }
                    }
                }
                assert forall|j: int| tx_ins@.len() <= j < s.len() implies has_signing_info(
                    *self,
                    (#[trigger] s[j]).0,
                ) && owner_store(*self, s[j].0) == owner_store(*old(self), s[j].0) && owner_keys(
                    *self,
                    s[j].0,
                ) == owner_keys(*old(self), s[j].0) by {
                    assert(!same_out_point(s[i].0, s[j].0)) by {
                        assert(op_lt(s[i].0, s[j].0));
                        crate::transaction::lemma_op_lt_irrefl(s[i].0, s[j].0);
                    }
                    lemma_tx_remove_other(pre.tx_store@, s[i].0, s[j].0);
                    assert(owner_store(*self, s[j].0) == owner_store(pre, s[j].0));
                    let aj = owner_store(pre, s[j].0).address@;
                    assert(aj != removed_addr);
                    lemma_addr_remove_other(pre.addresses@, removed_addr, aj);
                }
                assert(wallet_frame(*old(self), pre, s.take(i))) by {
                    reveal(wallet_frame);
                    assert(pre.tx_store == head.tx_store && pre.addresses == head.addresses);
                }
                assert(wallet_frame(*old(self), *self, s.take(tx_ins@.len() as int))) by {
                    lemma_wallet_frame_step(*old(self), pre, *self, s, i);
                }
            }
        }
        proof {
            let i = tx_ins@.len() as int;
            if i < k {
                assert(fund_sum(s.take(i)) < amount);
            }
            assert(i == k);
            let rest = self.fund.transactions@;
            assert(rest == s.skip(k));
            assert(spendable(*self)) by {
                assert forall|a: int| 0 <= a < rest.len() implies has_signing_info(
                    *self,
                    (#[trigger] rest[a]).0,
                ) by {
                    assert(rest[a] == s[k + a]);
                }
                assert forall|a: int, b: int| 0 <= a < b < rest.len() implies owner_store(
                    *self,
                    (#[trigger] rest[a]).0,
                ).address@ != owner_store(*self, (#[trigger] rest[b]).0).address@ by {
                    assert(rest[a] == s[k + a] && rest[b] == s[k + b]);
                    assert(owner_store(*self, s[k + a].0) == owner_store(*old(self), s[k + a].0));
                    assert(owner_store(*self, s[k + b].0) == owner_store(*old(self), s[k + b].0));
                    assert(owner_store(*old(self), s[k + a].0).address@ != owner_store(
                        *old(self),
                        s[k + b].0,
                    ).address@);
                }
            }
        }
        Ok((tx_ins, return_payment))
    }
}

/// Reads the fund store out of a wallet database: the empty store when none
/// was written yet, the decoded store when the stored bytes are its
/// canonical encoding, and an error exactly on bytes that are no canonical
/// encoding — which the wallet itself never writes.
pub fn get_fund_store(db: &SimpleDb) -> (r: Result<FundStore, WalletError>)
    requires
        db@.len() >= 1,
    ensures
        match r {
            Ok(fs) => fs.wf() && (if has_key(db@[0], fund_key_bytes()) {
                db@[0][key_index(db@[0], fund_key_bytes())].1 == enc_fund_store(fs)
            } else {
                fs.transactions@.len() == 0 && fs.running_total.0 == 0
            }),
            Err(e) => e == WalletError::CorruptStore && has_key(db@[0], fund_key_bytes())
                && (forall|fs: FundStore|
                !(#[trigger] is_canonical_fund_store(
                    db@[0][key_index(db@[0], fund_key_bytes())].1,
                    fs,
                ))),
        },
{
    match db.get(0, &fund_key()) {
        None => Ok(FundStore::empty()),
        Some(bytes) => match decode_fund_store(&bytes) {
            Some(fs) => Ok(fs),
            None => {
                proof {
                    assert forall|fs: FundStore| !(#[trigger] is_canonical_fund_store(
                        bytes@,
                        fs,
                    )) by {
                        if is_canonical_fund_store(bytes@, fs) {
                        }
                    }
                }
                Err(WalletError::CorruptStore)
            },
        },
    }
}

/// Writes the fund store's canonical encoding under its key.
pub fn set_fund_store(db: &mut SimpleDb, fund_store: FundStore)
    requires
        old(db).wf(),
        old(db)@.len() >= 1,
        fund_store.wf(),
    ensures
        final(db).wf(),
        final(db)@ == old(db)@.update(
            0,
            col_put(old(db)@[0], fund_key_bytes(), enc_fund_store(fund_store)),
        ),
{
    let bytes = encode_fund_store(&fund_store);
    db.put(0, fund_key(), bytes);
}

/// Reads the address store out of a wallet database; an error exactly on
/// bytes that are no canonical encoding — which the wallet never writes.
pub fn get_address_stores(db: &SimpleDb) -> (r: Result<Vec<(String, AddressStore)>, WalletError>)
    requires
        db@.len() >= 1,
    ensures
        match r {
            Ok(v) => (if has_key(db@[0], address_key_bytes()) {
                db@[0][key_index(db@[0], address_key_bytes())].1 == enc_address_stores(v@)
            } else {
                v@.len() == 0
            }),
            Err(e) => e == WalletError::CorruptStore && has_key(db@[0], address_key_bytes())
                && (forall|v: Seq<(String, AddressStore)>|
                !(#[trigger] is_canonical_address_stores(
                    db@[0][key_index(db@[0], address_key_bytes())].1,
                    v,
                ))),
        },
{
    match db.get(0, &address_key()) {
        None => Ok(Vec::new()),
        Some(bytes) => match decode_address_stores(&bytes) {
            Some(v) => Ok(v),
            None => {
                proof {
                    assert forall|v: Seq<(String, AddressStore)>| !(
                    #[trigger] is_canonical_address_stores(bytes@, v)) by {
                        if is_canonical_address_stores(bytes@, v) {
                        }
                    }
                }
                Err(WalletError::CorruptStore)
            },
        },
    }
}

/// Writes the address store's canonical encoding under its key.
pub fn set_address_stores(db: &mut SimpleDb, address_store: Vec<(String, AddressStore)>)
    requires
        old(db).wf(),
        old(db)@.len() >= 1,
    ensures
        final(db).wf(),
        final(db)@ == old(db)@.update(
            0,
            col_put(old(db)@[0], address_key_bytes(), enc_address_stores(address_store@)),
        ),
{
    let bytes = encode_address_stores(&address_store);
    db.put(0, address_key(), bytes);
}

/// Reads the record stored for one received output; an error exactly on
/// bytes that are no canonical record encoding.
pub fn get_transaction_store(db: &SimpleDb, tx_hash: &OutPoint) -> (r: Result<
    TransactionStore,
    WalletError,
>)
    requires
        db@.len() >= 1,
        has_key(db@[0], enc_out_point(tx_hash.t_hash@, tx_hash.n)),
    ensures
        match r {
            Ok(ts) => db@[0][key_index(db@[0], enc_out_point(tx_hash.t_hash@, tx_hash.n))].1
                == enc_transaction_store(ts),
            Err(e) => e == WalletError::CorruptStore && (forall|ts: TransactionStore|
                !(#[trigger] is_canonical_transaction_store(
                    db@[0][key_index(db@[0], enc_out_point(tx_hash.t_hash@, tx_hash.n))].1,
                    ts,
                ))),
        },
{
    let key = tx_hash.to_key();
    match db.get(0, &key) {
        None => Err(WalletError::CorruptStore),
        Some(bytes) => match decode_transaction_store(&bytes) {
            Some(ts) => Ok(ts),
            None => {
                proof {
                    assert forall|ts: TransactionStore| !(
                    #[trigger] is_canonical_transaction_store(bytes@, ts)) by {
                        if is_canonical_transaction_store(bytes@, ts) {
                        }
                    }
                }
                Err(WalletError::CorruptStore)
            },
        },
    }
}

/// The fund store's running total is always the sum of its recorded amounts:
/// the well-formedness every wallet operation preserves and every persisted
/// fund store satisfies.
pub proof fn lemma_fund_store_total(fs: FundStore)
    requires
        fs.wf(),
    ensures
        fs.running_total.0 == fund_sum(fs.transactions@),
{
}

/// Every byte is a decimal digit.
pub open spec fn all_digits(s: Seq<u8>) -> bool {
    forall|i: int| 0 <= i < s.len() ==> 48 <= #[trigger] s[i] <= 57
}

/// The value a string of decimal digits spells.
pub open spec fn digits_val(s: Seq<u8>) -> int
    decreases s.len(),
{
    if s.len() == 0 {
        0
    } else {
        digits_val(s.drop_last()) * 10 + (s.last() - 48)
    }
}

/// A digit string's value is never negative, and no prefix exceeds the
/// whole.
pub proof fn lemma_digits_val_prefix(s: Seq<u8>, m: int)
    requires
        all_digits(s),
        0 <= m <= s.len(),
    ensures
        0 <= digits_val(s.take(m)) <= digits_val(s),
    decreases s.len(),
{
    if s.len() == 0 {
        assert(s.take(0) =~= s);
    } else {
        let t = s.drop_last();
        assert(all_digits(t)) by {
            assert(forall|j: int| 0 <= j < t.len() ==> t[j] == s[j]);
        }
        lemma_digits_val_prefix(t, if m <= t.len() {
            m
        } else {
            t.len() as int
        });
        assert(t.take(t.len() as int) =~= t);
        if m <= t.len() {
            assert(t.take(m) =~= s.take(m));
        } else {
            assert(s.take(m) =~= s);
        }
    }
}

/// Two decompositions of one seed agree: the dashes that split it are
/// pinned by the digit fields around them.
pub proof fn lemma_seed_fields_unique(
    b: Seq<u8>,
    i1: u64,
    h1: Seq<char>,
    a1: u64,
    i2: u64,
    h2: Seq<char>,
    a2: u64,
)
    requires
        seed_fields(b, i1, h1, a1),
        seed_fields(b, i2, h2, a2),
    ensures
        i1 == i2,
        h1 == h2,
        a1 == a2,
{
    let (p1, q1) = choose|p: int, q: int| #[trigger] seed_split_at(b, i1, h1, a1, p, q);
    let (p2, q2) = choose|p: int, q: int| #[trigger] seed_split_at(b, i2, h2, a2, p, q);
    assert(p1 == p2) by {
        if p1 < p2 {
            assert(b.subrange(0, p2)[p1] == b[p1]);
        }
        if p2 < p1 {
            assert(b.subrange(0, p1)[p2] == b[p2]);
        }
    }
    assert(q1 == q2) by {
        if q1 < q2 {
            assert(b.subrange(q1 + 1, b.len() as int)[q2 - q1 - 1] == b[q2]);
        }
        if q2 < q1 {
            assert(b.subrange(q2 + 1, b.len() as int)[q1 - q2 - 1] == b[q1]);
        }
    }
    crate::transaction::lemma_hash_bytes_injective(h1, h2);
}

/// Whether some entry records output `n` of the transaction named by the
/// hash characters `h`.
pub open spec fn fund_has_view(s: Seq<(OutPoint, TokenAmount)>, h: Seq<char>, n: u32) -> bool {
    exists|i: int| 0 <= i < s.len() && (#[trigger] s[i]).0.t_hash@ == h && s[i].0.n == n
}

/// The inserted output is recorded.
pub proof fn lemma_fund_insert_has_self(s: Seq<(OutPoint, TokenAmount)>, op: OutPoint, a: TokenAmount)
    ensures
        fund_has(fund_insert(s, op, a), op),
    decreases s.len(),
{
    let r = fund_insert(s, op, a);
    if s.len() == 0 {
        assert(same_out_point(r[0].0, op));
    } else if same_out_point(s[0].0, op) {
        assert(same_out_point(r[0].0, op));
    } else if op_lt(op, s[0].0) {
        assert(same_out_point(r[0].0, op));
    } else {
        lemma_fund_insert_has_self(s.drop_first(), op, a);
        let t = fund_insert(s.drop_first(), op, a);
        let w = choose|i: int| 0 <= i < t.len() && same_out_point((#[trigger] t[i]).0, op);
        assert(r[w + 1] == t[w]);
        assert(same_out_point(r[w + 1].0, op));
    }
}

/// The amount the seed names for the given node index, or zero when it
/// names another node.
pub open spec fn seed_amount_for(b: Seq<u8>, idx: u64) -> int {
    if exists|h: Seq<char>, amt: u64| #[trigger] seed_fields(b, idx, h, amt) {
        ({
            let (h, amt) = choose|h: Seq<char>, amt: u64| #[trigger] seed_fields(b, idx, h, amt);
            amt as int
        })
    } else {
        0
    }
}

/// The total amount the seeds name for one node index.
pub open spec fn seeds_total(seeds: Seq<String>, idx: u64) -> int
    decreases seeds.len(),
{
    if seeds.len() == 0 {
        0
    } else {
        seeds_total(seeds.drop_last(), idx) + seed_amount_for(hash_bytes(seeds.last()@), idx)
    }
}

/// Seed amounts are never negative, so the total only grows with more
/// seeds.
pub proof fn lemma_seeds_total_bounds(seeds: Seq<String>, idx: u64, m: int)
    requires
        0 <= m <= seeds.len(),
    ensures
        0 <= seeds_total(seeds.take(m), idx) <= seeds_total(seeds, idx),
        m < seeds.len() ==> seeds_total(seeds.take(m + 1), idx) == seeds_total(seeds.take(m), idx)
            + seed_amount_for(hash_bytes(seeds[m]@), idx),
    decreases seeds.len(),
{
    if m < seeds.len() {
        assert(seeds.take(m + 1).drop_last() =~= seeds.take(m));
        assert(seeds.take(m + 1).last() == seeds[m]);
    }
    if seeds.len() == 0 {
        assert(seeds.take(0) =~= seeds);
    } else {
        let t = seeds.drop_last();
        if m <= t.len() {
            assert(t.take(m) =~= seeds.take(m));
            lemma_seeds_total_bounds(t, idx, m);
        } else {
            assert(seeds.take(m) =~= seeds);
            lemma_seeds_total_bounds(t, idx, t.len() as int);
            assert(t.take(t.len() as int) =~= t);
        }
    }
}

/// Splits a seed of the form index, transaction hash and amount, the three
/// parts separated by dashes, into its fields. Seeds that do not fit the
/// form give `None`.
fn parse_seed(seed: &String) -> (r: Option<(u64, String, u64)>)
    ensures
        r matches Some(p) ==> seed_fields(hash_bytes(seed@), p.0, p.1@, p.2),
        forall|idx: u64, h: Seq<char>, amt: u64|
            #[trigger] seed_fields(hash_bytes(seed@), idx, h, amt) ==> (r matches Some(p) && p.0
                == idx && p.1@ == h && p.2 == amt),
{
    let bytes = seed.as_str().as_bytes_vec();
    let mut first: usize = 0;
    let mut found_first = false;
    let mut i: usize = 0;
    while i < bytes.len()
        invariant
            bytes@ == hash_bytes(seed@),
            i <= bytes@.len(),
            found_first ==> first < i && bytes@[first as int] == 45,
            !found_first ==> (forall|m: int| 0 <= m < i ==> bytes@[m] != 45),
            found_first ==> (forall|m: int| 0 <= m < first ==> bytes@[m] != 45),
        decreases bytes@.len() - i,
    {
        if bytes[i] == 45u8 && !found_first {
            first = i;
            found_first = true;
        }
        i = i + 1;
    }
    if !found_first {
        proof {
            assert forall|idx: u64, h: Seq<char>, amt: u64| !(#[trigger] seed_fields(
                hash_bytes(seed@),
                idx,
                h,
                amt,
            )) by {
                if seed_fields(bytes@, idx, h, amt) {
                    let (a, c) = choose|a: int, c: int| seed_split_at(bytes@, idx, h, amt, a, c);
                    assert(bytes@[a] == 45);
                }
            }
        }
        return None;
    }
    let mut second: usize = 0;
    let mut found_second = false;
    let mut j: usize = bytes.len();
    while j > first + 1
        invariant
            bytes@ == hash_bytes(seed@),
            first < bytes@.len(),
            first + 1 <= j <= bytes@.len(),
            found_second ==> first + 1 <= second < bytes@.len() && bytes@[second as int] == 45,
            !found_second ==> (forall|m: int| j <= m < bytes@.len() ==> bytes@[m] != 45),
            found_second ==> (forall|m: int| second < m < bytes@.len() ==> bytes@[m] != 45),
        decreases j,
    {
        j = j - 1;
        if bytes[j] == 45u8 && !found_second {
            second = j;
            found_second = true;
        }
    }
    proof {
        lemma_seed_scan_pins(bytes@, first as int, second as int, found_second);
    }
    if !found_second || second <= first {
        return None;
    }
    let idx = match parse_decimal(&bytes, 0, first) {
        Some(v) => v,
        None => {
            proof {
                assert forall|idx2: u64, h: Seq<char>, amt: u64| !(#[trigger] seed_fields(
                    bytes@,
                    idx2,
                    h,
                    amt,
                )) by {
                    if seed_fields(bytes@, idx2, h, amt) {
                        assert(seed_split_at(bytes@, idx2, h, amt, first as int, second as int));
                    }
                }
            }
            return None;
        },
    };
    let amount = match parse_decimal(&bytes, second + 1, bytes.len()) {
        Some(v) => v,
        None => {
            proof {
                assert forall|idx2: u64, h: Seq<char>, amt: u64| !(#[trigger] seed_fields(
                    bytes@,
                    idx2,
                    h,
                    amt,
                )) by {
                    if seed_fields(bytes@, idx2, h, amt) {
                        assert(seed_split_at(bytes@, idx2, h, amt, first as int, second as int));
                    }
                }
            }
            return None;
        },
    };
    let mut hash_bytes_v: Vec<u8> = Vec::new();
    let mut k: usize = first + 1;
    while k < second
        invariant
            first + 1 <= k <= second <= bytes@.len(),
            hash_bytes_v@ == bytes@.subrange(first + 1, k as int),
        decreases second - k,
    {
        hash_bytes_v.push(bytes[k]);
        k = k + 1;
        proof {
            assert(hash_bytes_v@ =~= bytes@.subrange(first + 1, k as int));
        }
    }
    let ghost hv = hash_bytes_v@;
    let hash = match string_from_utf8(hash_bytes_v) {
        Some(sx) => sx,
        None => {
            proof {
                assert forall|idx2: u64, h: Seq<char>, amt: u64| !(#[trigger] seed_fields(
                    bytes@,
                    idx2,
                    h,
                    amt,
                )) by {
                    if seed_fields(bytes@, idx2, h, amt) {
                        assert(seed_split_at(bytes@, idx2, h, amt, first as int, second as int));
                        assert(hv =~= bytes@.subrange(first + 1, second as int));
                        vstd::utf8::encode_utf8_valid_utf8(h);
                    }
                }
            }
            return None;
        },
    };
    proof {
        assert(hv =~= bytes@.subrange(first + 1, second as int));
        assert(seed_fields(bytes@, idx, hash@, amount)) by {
            assert(seed_split_at(bytes@, idx, hash@, amount, first as int, second as int)) by {
                assert(bytes@[first as int] == 45 && bytes@[second as int] == 45);
            }
        }
        assert forall|idx2: u64, h: Seq<char>, amt: u64|
            #[trigger] seed_fields(bytes@, idx2, h, amt) implies idx2 == idx && h == hash@ && amt
            == amount by {
            lemma_seed_fields_unique(bytes@, idx2, h, amt, idx, hash@, amount);
        }
    }
    Some((idx, hash, amount))
}

/// One decomposition of a seed at dash positions `a` and `c`.
pub open spec fn seed_split_at(
    b: Seq<u8>,
    idx: u64,
    hash: Seq<char>,
    amount: u64,
    a: int,
    c: int,
) -> bool {
    &&& 0 < a < c
    &&& c + 1 < b.len()
    &&& b[a] == 45
    &&& b[c] == 45
    &&& all_digits(b.subrange(0, a))
    &&& idx == digits_val(b.subrange(0, a))
    &&& hash_bytes(hash) == b.subrange(a + 1, c)
    &&& all_digits(b.subrange(c + 1, b.len() as int))
    &&& amount == digits_val(b.subrange(c + 1, b.len() as int))
}

/// A seed's bytes split at two dashes into a decimal index, the hash's
/// bytes, and a decimal amount.
pub open spec fn seed_fields(b: Seq<u8>, idx: u64, hash: Seq<char>, amount: u64) -> bool {
    exists|a: int, c: int| #[trigger] seed_split_at(b, idx, hash, amount, a, c)
}

/// The seed names some node, hash and amount.
pub open spec fn seed_well_formed(b: Seq<u8>) -> bool {
    exists|idx: u64, h: Seq<char>, amt: u64| #[trigger] seed_fields(b, idx, h, amt)
}

/// Any decomposition's dashes are the first dash and the last dash, which a
/// scan finds.
proof fn lemma_seed_scan_pins(b: Seq<u8>, first: int, second: int, found_second: bool)
    requires
        0 <= first < b.len(),
        b[first] == 45,
        forall|m: int| 0 <= m < first ==> b[m] != 45,
        found_second ==> first + 1 <= second < b.len() && b[second] == 45,
        found_second ==> (forall|m: int| second < m < b.len() ==> b[m] != 45),
        !found_second ==> (forall|m: int| first + 1 <= m < b.len() ==> b[m] != 45),
    ensures
        forall|idx: u64, h: Seq<char>, amt: u64|
            #[trigger] seed_fields(b, idx, h, amt) ==> found_second && second > first
                && seed_split_at(b, idx, h, amt, first, second),
{
    assert forall|idx: u64, h: Seq<char>, amt: u64|
        #[trigger] seed_fields(b, idx, h, amt) implies found_second && second > first
        && seed_split_at(b, idx, h, amt, first, second) by {
        let (a, c) = choose|a: int, c: int| #[trigger] seed_split_at(b, idx, h, amt, a, c);
        assert(a == first) by {
            if a < first {
            } else if a > first {
                assert(b.subrange(0, a)[first] == b[first]);
                assert(48 <= b.subrange(0, a)[first] <= 57);
            }
        }
        if !found_second {
            assert(b[c] != 45);
        }
        assert(c == second) by {
            if c > second {
                assert(b[c] != 45);
            } else if c < second {
                assert(b.subrange(c + 1, b.len() as int)[second - c - 1] == b[second]);
                assert(48 <= b.subrange(c + 1, b.len() as int)[second - c - 1] <= 57);
            }
        }
    }
}

/// Parses the decimal digits of `data` between `from` and `to`; `None` when
/// the range is empty, holds a non-digit, or overflows.
fn parse_decimal(data: &Vec<u8>, from: usize, to: usize) -> (r: Option<u64>)
    requires
        from <= to <= data@.len(),
    ensures
        r matches Some(v) ==> from < to && all_digits(data@.subrange(from as int, to as int)) && v
            == digits_val(data@.subrange(from as int, to as int)),
        (from < to && all_digits(data@.subrange(from as int, to as int)) && digits_val(
            data@.subrange(from as int, to as int),
        ) <= u64::MAX) ==> r is Some,
{
    if from >= to {
        return None;
    }
    let mut acc: u64 = 0;
    let mut i: usize = from;
    proof {
        assert(data@.subrange(from as int, from as int) =~= Seq::<u8>::empty());
    }
    while i < to
        invariant
            from <= i <= to <= data@.len(),
            all_digits(data@.subrange(from as int, i as int)),
            acc == digits_val(data@.subrange(from as int, i as int)),
        decreases to - i,
    {
        let b = data[i];
        if b < 48u8 || b > 57u8 {
            proof {
                let seg = data@.subrange(from as int, to as int);
                if all_digits(seg) {
                    assert(seg[i - from] == b);
                }
            }
            return None;
        }
        let digit = (b - 48u8) as u64;
        let ghost stepped = data@.subrange(from as int, i + 1);
        proof {
            assert(stepped.drop_last() =~= data@.subrange(from as int, i as int));
            assert(stepped.last() == b);
            let seg = data@.subrange(from as int, to as int);
            if all_digits(seg) && digits_val(seg) <= u64::MAX {
                assert(stepped =~= seg.take(i + 1 - from));
                lemma_digits_val_prefix(seg, i + 1 - from);
                assert(acc * 10 + digit == digits_val(stepped));
            }
        }
        acc = match acc.checked_mul(10) {
            Some(v) => v,
            None => {
                proof {
                    let seg = data@.subrange(from as int, to as int);
                    if all_digits(seg) && digits_val(seg) <= u64::MAX {
                        assert(acc * 10 <= acc * 10 + digit);
                    }
                }
                return None;
            },
        };
        acc = match acc.checked_add(digit) {
            Some(v) => v,
            None => {
                return None;
            },
        };
        i = i + 1;
        proof {
            let pre = data@.subrange(from as int, i - 1);
            let cur = data@.subrange(from as int, i as int);
            assert(cur.drop_last() =~= pre);
            assert(cur.last() == b);
            assert forall|k: int| 0 <= k < cur.len() implies 48 <= #[trigger] cur[k] <= 57 by {
                if k < cur.len() - 1 {
                    assert(pre[k] == cur[k]);
                }
            }
        }
    }
    Some(acc)
}

impl WalletDb {
    /// Seeds the wallet for one test node: every seed naming this node's
    /// index contributes one received output, recorded under a freshly
    /// generated address with its amount added to the fund store; seeds
    /// naming other nodes leave the wallet alone, and no recorded output is
    /// ever dropped. Seeds are three dash-separated fields — index,
    /// transaction hash, amount — and the named amounts must fit the fund
    /// store's total.
    pub fn with_seed(self, index: usize, seeds: &Vec<String>) -> (r: Self)
        requires
            self.wf(),
            forall|i: int|
                0 <= i < seeds@.len() ==> seed_well_formed(hash_bytes((#[trigger] seeds@[i])@)),
            fund_sum(self.fund.transactions@) + seeds_total(seeds@, index as u64) <= u64::MAX,
        ensures
            r.wf(),
            forall|op: OutPoint|
                fund_has(self.fund.transactions@, op) ==> fund_has(r.fund.transactions@, op),
            forall|i: int, h: Seq<char>, amt: u64|
                0 <= i < seeds@.len() && #[trigger] seed_fields(
                    hash_bytes(seeds@[i]@),
                    index as u64,
                    h,
                    amt,
                ) ==> fund_has_view(r.fund.transactions@, h, 0),
    {
        let mut wallet = self;
        let ghost fund0 = self.fund.transactions@;
        let mut i: usize = 0;
        proof {
            lemma_seeds_total_bounds(seeds@, index as u64, 0);
            assert(seeds@.take(0) =~= Seq::<String>::empty());
        }
        while i < seeds.len()
            invariant
                i <= seeds@.len(),
                wallet.wf(),
                fund0 == self.fund.transactions@,
                fund_sum(fund0) + seeds_total(seeds@, index as u64) <= u64::MAX,
                fund_sum(wallet.fund.transactions@) <= fund_sum(fund0) + seeds_total(
                    seeds@.take(i as int),
                    index as u64,
                ),
                forall|j: int|
                    0 <= j < seeds@.len() ==> seed_well_formed(hash_bytes((#[trigger] seeds@[j])@)),
                forall|op: OutPoint|
                    fund_has(fund0, op) ==> fund_has(wallet.fund.transactions@, op),
                forall|j: int, h: Seq<char>, amt: u64|
                    0 <= j < i && #[trigger] seed_fields(
                        hash_bytes(seeds@[j]@),
                        index as u64,
                        h,
                        amt,
                    ) ==> fund_has_view(wallet.fund.transactions@, h, 0),
            decreases seeds@.len() - i,
        {
            let ghost bi = hash_bytes(seeds@[i as int]@);
            match parse_seed(&seeds[i]) {
                Some((seed_idx, tx_hash, amount)) => {
                    proof {
                        lemma_seeds_total_bounds(seeds@, index as u64, i as int);
                    }
                    if seed_idx == index as u64 {
                        let tx_out_p = OutPoint::new(tx_hash, 0);
                        let ghost hview = tx_out_p.t_hash@;
                        proof {
                            assert(seed_fields(bi, index as u64, hview, amount));
                            let (hc, ac) = choose|h: Seq<char>, amt: u64|
                                #[trigger] seed_fields(bi, index as u64, h, amt);
                            lemma_seed_fields_unique(
                                bi,
                                index as u64,
                                hc,
                                ac,
                                index as u64,
                                hview,
                                amount,
                            );
                            assert(seed_amount_for(bi, index as u64) == amount);
                            lemma_seeds_total_bounds(seeds@, index as u64, i + 1);
                            lemma_fund_sum_nonneg(wallet.fund.transactions@);
                            lemma_fund_amount_nonneg(wallet.fund.transactions@, tx_out_p);
                        }
                        let fits = amount <= u64::MAX - wallet.fund.running_total.0;
                        proof {
                            assert(fits);
                        }
                        if fits {
                            let (address, _keys) = wallet.generate_payment_address();
                            let op_copy = OutPoint {
                                t_hash: tx_out_p.t_hash.clone(),
                                n: tx_out_p.n,
                            };
                            let _saved = wallet.save_transaction_to_wallet(op_copy, address);
                            let ghost before = wallet.fund.transactions@;
                            let ghost opv = tx_out_p;
                            let _paid = wallet.save_payment_to_wallet(
                                tx_out_p,
                                TokenAmount(amount),
                            );
                            proof {
                                assert forall|op: OutPoint| fund_has(fund0, op) implies fund_has(
                                    wallet.fund.transactions@,
                                    op,
                                ) by {
                                    lemma_fund_insert_has(before, opv, TokenAmount(amount), op);
                                }
                                lemma_fund_insert_sum(before, opv, TokenAmount(amount));
                                lemma_fund_amount_nonneg(before, opv);
                                lemma_fund_insert_has_self(before, opv, TokenAmount(amount));
                                assert(fund_has_view(wallet.fund.transactions@, hview, 0)) by {
                                    let cur = wallet.fund.transactions@;
                                    let w = choose|m: int|
                                        0 <= m < cur.len() && same_out_point(
                                            (#[trigger] cur[m]).0,
                                            opv,
                                        );
                                    assert(cur[w].0.t_hash@ == hview && cur[w].0.n == 0);
                                }
                                assert forall|j: int, h: Seq<char>, amt: u64|
                                    0 <= j < i + 1 && #[trigger] seed_fields(
                                        hash_bytes(seeds@[j]@),
                                        index as u64,
                                        h,
                                        amt,
                                    ) implies fund_has_view(
                                    wallet.fund.transactions@,
                                    h,
                                    0,
                                ) by {
                                    if j < i {
                                        let w = choose|m: int|
                                            0 <= m < before.len() && (#[trigger] before[m]).0.t_hash@
                                                == h && before[m].0.n == 0;
                                        assert(fund_has(before, before[w].0)) by {
                                            assert(same_out_point(before[w].0, before[w].0));
                                        }
                                        lemma_fund_insert_has(
                                            before,
                                            opv,
                                            TokenAmount(amount),
                                            before[w].0,
                                        );
                                        let cur = wallet.fund.transactions@;
                                        let w2 = choose|m: int|
                                            0 <= m < cur.len() && same_out_point(
                                                (#[trigger] cur[m]).0,
                                                before[w].0,
                                            );
                                        assert(cur[w2].0.t_hash@ == h && cur[w2].0.n == 0);
                                    } else {
                                        lemma_seed_fields_unique(
                                            bi,
                                            index as u64,
                                            h,
                                            amt,
                                            index as u64,
                                            hview,
                                            amount,
                                        );
                                    }
                                }
                            }
                        }
                    } else {
                        proof {
                            assert forall|j: int, h: Seq<char>, amt: u64|
                                0 <= j < i + 1 && #[trigger] seed_fields(
                                    hash_bytes(seeds@[j]@),
                                    index as u64,
                                    h,
                                    amt,
                                ) implies fund_has_view(wallet.fund.transactions@, h, 0) by {
                                if j == i {
                                    assert(seed_idx == index as u64);
                                }
                            }
                            assert(seed_amount_for(bi, index as u64) >= 0) by {
                                if exists|h: Seq<char>, amt: u64|
                                    #[trigger] seed_fields(bi, index as u64, h, amt) {
                                }
                            }
                        }
                    }
                },
                None => {
                    proof {
                        assert(seed_well_formed(bi));
                        let (idx, h, amt) = choose|idx: u64, h: Seq<char>, amt: u64|
                            #[trigger] seed_fields(bi, idx, h, amt);
                        assert(seed_fields(bi, idx, h, amt));
                    }
                },
            }
            i = i + 1;
            proof {
                lemma_seeds_total_bounds(seeds@, index as u64, i as int);
                lemma_seeds_total_bounds(seeds@, index as u64, i - 1);
            }
        }
        proof {
            assert(seeds@.take(seeds@.len() as int) =~= seeds@);
        }
        wallet
    }
}

} // verus!
