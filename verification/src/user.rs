//! The user node's payment construction: turning a required amount into a
//! signed transaction over the wallet's recorded outputs, with change sent
//! to a freshly generated address.

use vstd::prelude::*;
use crate::transaction::{Asset, OutPoint, TokenAmount, Transaction, TxIn, TxOut};
use crate::wallet::{
    fund_sum, sel_len, spendable, spent_input, WalletDb, WalletError,
};

verus! {

/// A change output produced by payment selection: an input re-signed for the
/// overshooting output, the amount owed back, and the transaction it will be
/// returned in once built.
#[derive(Debug, Clone, PartialEq, Eq)]
pub struct ReturnPayment {
    pub tx_in: TxIn,
    pub amount: TokenAmount,
    pub transaction: Transaction,
}

/// Builds a payment of `amount_required` to `to_address`: the wallet's
/// outputs are consumed in ascending order until they cover the amount and
/// become the transaction's signed inputs; the first output pays the
/// destination, and any overshoot comes back as a second output to a
/// freshly generated wallet address. With too little in the fund store the
/// payment fails and the wallet is untouched.
pub fn make_payment_transaction(
    wallet: &mut WalletDb,
    to_address: String,
    amount_required: TokenAmount,
) -> (r: Result<(Transaction, Option<ReturnPayment>), WalletError>)
    requires
        old(wallet).wf(),
        spendable(*old(wallet)),
    ensures
        final(wallet).wf(),
        match r {
            Err(e) => {
                &&& e == WalletError::InsufficientFunds
                &&& old(wallet).fund.running_total.0 < amount_required.0
                &&& *final(wallet) == *old(wallet)
            },
            Ok(p) => ({
                let s = old(wallet).fund.transactions@;
                let k = sel_len(s, amount_required.0 as int);
                let consumed = fund_sum(s.take(k));
                &&& p.0.inputs@.len() == k
                &&& (forall|i: int|
                    0 <= i < k ==> spent_input(*old(wallet), #[trigger] p.0.inputs@[i], s[i].0))
                &&& p.0.outputs@.len() == (if consumed > amount_required.0 {
                    2int
                } else {
                    1int
                })
                &&& p.0.outputs@[0].value == Asset::Token(amount_required.0)
                &&& p.0.outputs@[0].address@ == to_address@
                &&& (consumed > amount_required.0 ==> p.0.outputs@[1].value == Asset::Token(
                    (consumed - amount_required.0) as u64,
                ) && crate::wallet::addr_has(final(wallet).addresses@, p.0.outputs@[1].address@))
                &&& final(wallet).fund.transactions@ == s.skip(k)
                &&& final(wallet).fund.running_total.0 == fund_sum(s.skip(k))
                &&& (p.1 is Some <==> consumed > amount_required.0)
            }),
        },
{
    let (tx_ins, return_payment) = match wallet.fetch_inputs_for_payment(amount_required) {
        Ok(p) => p,
        Err(e) => {
            return Err(e);
        },
    };
    let mut outputs: Vec<TxOut> = Vec::new();
    outputs.push(
        TxOut {
            value: Asset::Token(amount_required.0),
            locktime: None,
            drs_tag: None,
            address: to_address,
        },
    );
    let with_change = match &return_payment {
        Some(_) => true,
        None => false,
    };
    if with_change {
        let change_amount = match &return_payment {
            Some(rp) => rp.amount.0,
            None => 0,
        };
        let (change_address, _keys) = wallet.generate_payment_address();
        outputs.push(
            TxOut {
                value: Asset::Token(change_amount),
                locktime: None,
                drs_tag: None,
                address: change_address.address,
            },
        );
    }
    let tx = Transaction { inputs: tx_ins, outputs };
    Ok((tx, return_payment))
}

} // verus!
