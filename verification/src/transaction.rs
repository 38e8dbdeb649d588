//! The chain's data model: assets, output references, transaction inputs and
//! outputs, and the canonical transaction identifier.

use vstd::prelude::*;
use crate::codec::{enc_str, enc_u32, enc_u64, emit_u32, emit_u64, emit_bytes};
use crate::crypto::{hex_of, sha3_256, sha3_256_of, hex_encode};
use crate::order::{bytes_cmp, bytes_lt, ByteOrd};

verus! {

/// An amount of atomic token units.
#[derive(Debug, Clone, Copy, PartialEq, Eq, Structural)]
pub struct TokenAmount(pub u64);

/// A tagged value carried by a transaction output.
#[derive(Debug, Clone, PartialEq, Eq)]
pub enum Asset {
    Token(u64),
    Data(Vec<u8>),
}

impl Asset {
    /// Adds two assets of the same variant: token amounts sum, data
    /// concatenates. Mixed variants, and token sums that overflow, give
    /// `None`.
    pub fn checked_add(self, other: Asset) -> (r: Option<Asset>)
        ensures
            match (self, other) {
                (Asset::Token(a), Asset::Token(b)) => if a + b <= u64::MAX {
                    r == Some(Asset::Token((a + b) as u64))
                } else {
                    r is None
                },
                (Asset::Data(a), Asset::Data(b)) => {
                    &&& r is Some
                    &&& r->0 matches Asset::Data(d) && d@ == a@ + b@
                },
                _ => r is None,
            },
    {
        match (self, other) {
            (Asset::Token(a), Asset::Token(b)) => match a.checked_add(b) {
                Some(s) => Some(Asset::Token(s)),
                None => None,
            },
            (Asset::Data(mut a), Asset::Data(b)) => {
                let ghost av = a@;
                let mut i: usize = 0;
                while i < b.len()
                    invariant
                        i <= b@.len(),
                        a@ == av + b@.subrange(0, i as int),
                    decreases b@.len() - i,
                {
                    a.push(b[i]);
                    i = i + 1;
                    proof {
                        assert(a@ =~= av + b@.subrange(0, i as int));
                    }
                }
                proof {
                    assert(a@ =~= av + b@);
                }
                Some(Asset::Data(a))
            },
            _ => None,
        }
    }
}

/// A reference to one output of one transaction.
#[derive(Debug, Clone, PartialEq, Eq)]
pub struct OutPoint {
    pub t_hash: String,
    pub n: u32,
}

/// The UTF-8 bytes of a hash string, the form hashes are signed and ordered
/// in.
pub open spec fn hash_bytes(s: Seq<char>) -> Seq<u8> {
    vstd::utf8::encode_utf8(s)
}

/// Whether two output references name the same output.
pub open spec fn same_out_point(a: OutPoint, b: OutPoint) -> bool {
    a.t_hash@ == b.t_hash@ && a.n == b.n
}

/// Strict order on output references: lexicographic by hash, then by output
/// index.
pub open spec fn op_lt(a: OutPoint, b: OutPoint) -> bool {
    ||| bytes_lt(hash_bytes(a.t_hash@), hash_bytes(b.t_hash@))
    ||| (hash_bytes(a.t_hash@) == hash_bytes(b.t_hash@) && a.n < b.n)
}

/// Equal hash encodings come from equal hash strings.
pub proof fn lemma_hash_bytes_injective(a: Seq<char>, b: Seq<char>)
    requires
        hash_bytes(a) == hash_bytes(b),
    ensures
        a == b,
{
    vstd::utf8::encode_utf8_decode_utf8(a);
    vstd::utf8::encode_utf8_decode_utf8(b);
}

/// The output-reference order is transitive.
pub proof fn lemma_op_lt_trans(a: OutPoint, b: OutPoint, c: OutPoint)
    requires
        op_lt(a, b),
        op_lt(b, c),
    ensures
        op_lt(a, c),
{
    if bytes_lt(hash_bytes(a.t_hash@), hash_bytes(b.t_hash@)) && bytes_lt(
        hash_bytes(b.t_hash@),
        hash_bytes(c.t_hash@),
    ) {
        crate::order::lemma_bytes_lt_trans(
            hash_bytes(a.t_hash@),
            hash_bytes(b.t_hash@),
            hash_bytes(c.t_hash@),
        );
    }
}

/// Distinct output references are ordered one way or the other.
pub proof fn lemma_op_lt_connected(a: OutPoint, b: OutPoint)
    ensures
        !same_out_point(a, b) ==> op_lt(a, b) || op_lt(b, a),
{
    crate::order::lemma_bytes_lt_connected(hash_bytes(a.t_hash@), hash_bytes(b.t_hash@));
    if hash_bytes(a.t_hash@) == hash_bytes(b.t_hash@) {
        lemma_hash_bytes_injective(a.t_hash@, b.t_hash@);
    }
}

/// The order runs one way only.
pub proof fn lemma_op_lt_asym(a: OutPoint, b: OutPoint)
    requires
        op_lt(a, b),
    ensures
        !op_lt(b, a),
{
    if op_lt(b, a) {
        lemma_op_lt_trans(a, b, a);
        lemma_op_lt_irrefl(a, a);
    }
}

/// An ordered output reference never names the same output.
pub proof fn lemma_op_lt_irrefl(a: OutPoint, b: OutPoint)
    requires
        op_lt(a, b),
    ensures
        !same_out_point(a, b),
{
    crate::order::lemma_bytes_lt_irrefl(hash_bytes(a.t_hash@));
}

/// Canonical encoding of an output reference.
pub open spec fn enc_out_point(t_hash: Seq<char>, n: u32) -> Seq<u8> {
    enc_str(t_hash) + enc_u32(n)
}

impl OutPoint {
    /// Builds a reference to output `n` of the transaction named `t_hash`.
    pub fn new(t_hash: String, n: u32) -> (r: Self)
        ensures
            r.t_hash@ == t_hash@,
            r.n == n,
    {
        OutPoint { t_hash, n }
    }

    /// The canonical bytes this reference is persisted under.
    pub fn to_key(&self) -> (r: Vec<u8>)
        ensures
            r@ == enc_out_point(self.t_hash@, self.n),
    {
        let mut out: Vec<u8> = Vec::new();
        let hb = self.t_hash.as_str().as_bytes_vec();
        emit_bytes(&mut out, &hb);
        emit_u32(&mut out, self.n);
        proof {
            assert(out@ =~= enc_out_point(self.t_hash@, self.n));
        }
        out
    }

    /// Compares two references in the canonical order.
    pub fn cmp_order(&self, other: &OutPoint) -> (r: ByteOrd)
        ensures
            match r {
                ByteOrd::Lt => op_lt(*self, *other),
                ByteOrd::Eq => same_out_point(*self, *other),
                ByteOrd::Gt => op_lt(*other, *self),
            },
    {
        let ha = self.t_hash.as_str().as_bytes_vec();
        let hb = other.t_hash.as_str().as_bytes_vec();
        match bytes_cmp(&ha, &hb) {
            ByteOrd::Lt => ByteOrd::Lt,
            ByteOrd::Gt => ByteOrd::Gt,
            ByteOrd::Eq => {
                proof {
                    lemma_hash_bytes_injective(self.t_hash@, other.t_hash@);
                }
                if self.n < other.n {
                    ByteOrd::Lt
                } else if self.n > other.n {
                    ByteOrd::Gt
                } else {
                    ByteOrd::Eq
                }
            },
        }
    }
}

/// A transaction input: the output it spends, with detached signatures over
/// the spent transaction's hash and the keys they verify under.
#[derive(Debug, Clone, PartialEq, Eq)]
pub struct TxIn {
    pub previous_out: OutPoint,
    pub signatures: Vec<Vec<u8>>,
    pub pub_keys: Vec<Vec<u8>>,
}

impl TxIn {
    /// Every signature verifies against the referenced transaction hash under
    /// its paired public key, and at least one is present.
    pub open spec fn sigs_valid(&self) -> bool {
        &&& self.signatures@.len() == self.pub_keys@.len()
        &&& self.signatures@.len() >= 1
        &&& forall|i: int|
            0 <= i < self.signatures@.len() ==> (#[trigger] self.signatures@[i])@.len() == 64
                && self.pub_keys@[i]@.len() == 32 && crate::crypto::signature_valid(
                self.signatures@[i]@,
                hash_bytes(self.previous_out.t_hash@),
                self.pub_keys@[i]@,
            )
    }
}

/// A transaction output: an asset locked to a destination address.
#[derive(Debug, Clone, PartialEq, Eq)]
pub struct TxOut {
    pub value: Asset,
    pub locktime: Option<u64>,
    pub drs_tag: Option<Vec<u8>>,
    pub address: String,
}

/// A transaction: ordered inputs and ordered outputs.
#[derive(Debug, Clone, PartialEq, Eq)]
pub struct Transaction {
    pub inputs: Vec<TxIn>,
    pub outputs: Vec<TxOut>,
}

impl Transaction {
    /// An empty transaction.
    pub fn new() -> (r: Self)
        ensures
            r.inputs@.len() == 0,
            r.outputs@.len() == 0,
    {
        Transaction { inputs: Vec::new(), outputs: Vec::new() }
    }
}

/// Everything needed to build one signed transaction input.
#[derive(Debug, Clone, PartialEq, Eq)]
pub struct TxConstructor {
    pub t_hash: String,
    pub prev_n: u32,
    pub signatures: Vec<Vec<u8>>,
    pub pub_keys: Vec<Vec<u8>>,
}

/// Whether a built input carries exactly what its constructor held.
pub open spec fn tx_in_from_constructor(t: TxIn, c: TxConstructor) -> bool {
    &&& t.previous_out.t_hash@ == c.t_hash@
    &&& t.previous_out.n == c.prev_n
    &&& t.signatures.deep_view() == c.signatures.deep_view()
    &&& t.pub_keys.deep_view() == c.pub_keys.deep_view()
}

/// Builds the signed inputs of a payment, one per constructor, in order.
pub fn construct_payment_tx_ins(tx_values: Vec<TxConstructor>) -> (r: Vec<TxIn>)
    ensures
        r@.len() == tx_values@.len(),
        forall|i: int|
            0 <= i < r@.len() ==> tx_in_from_constructor(r@[i], #[trigger] tx_values@[i]),
{
    let ghost orig = tx_values@;
    let mut rest = tx_values;
    let mut out: Vec<TxIn> = Vec::new();
    while rest.len() > 0
        invariant
            rest@.len() + out@.len() == orig.len(),
            rest@ == orig.subrange(out@.len() as int, orig.len() as int),
            forall|i: int| 0 <= i < out@.len() ==> tx_in_from_constructor(out@[i], #[trigger] orig[i]),
        decreases rest@.len(),
    {
        let c = rest.remove(0);
        proof {
            assert(c == orig[out@.len() as int]);
        }
        let tx_in = TxIn {
            previous_out: OutPoint { t_hash: c.t_hash, n: c.prev_n },
            signatures: c.signatures,
            pub_keys: c.pub_keys,
        };
        out.push(tx_in);
        proof {
            assert(rest@ =~= orig.subrange(out@.len() as int, orig.len() as int));
        }
    }
    out
}

/// Canonical encoding of an asset.
pub open spec fn enc_asset(a: Asset) -> Seq<u8> {
    match a {
        Asset::Token(v) => seq![0u8] + enc_u64(v),
        Asset::Data(d) => seq![1u8] + crate::codec::enc_bytes(d@),
    }
}

/// Canonical encoding of a transaction output.
pub open spec fn enc_tx_out(o: TxOut) -> Seq<u8> {
    enc_asset(o.value) + (match o.locktime {
        Some(v) => seq![1u8] + enc_u64(v),
        None => seq![0u8],
    }) + (match o.drs_tag {
        Some(d) => seq![1u8] + crate::codec::enc_bytes(d@),
        None => seq![0u8],
    }) + enc_str(o.address@)
}

/// Canonical encoding of one input with its signatures stripped: only the
/// output it spends.
pub open spec fn enc_tx_in_stripped(t: TxIn) -> Seq<u8> {
    enc_out_point(t.previous_out.t_hash@, t.previous_out.n)
}

/// Canonical encoding of a sequence of encoded items, count first.
pub open spec fn enc_list(items: Seq<Seq<u8>>) -> Seq<u8>
    decreases items.len(),
{
    if items.len() == 0 {
        Seq::empty()
    } else {
        enc_list(items.drop_last()) + items.last()
    }
}

/// Canonical serialization of a transaction with signatures stripped: the
/// form its identifier hashes.
pub open spec fn enc_transaction_stripped(tx: Transaction) -> Seq<u8> {
    enc_u64(tx.inputs@.len() as u64) + enc_list(
        tx.inputs@.map_values(|t: TxIn| enc_tx_in_stripped(t)),
    ) + enc_u64(tx.outputs@.len() as u64) + enc_list(
        tx.outputs@.map_values(|o: TxOut| enc_tx_out(o)),
    )
}

/// The canonical identifier of a transaction: the hex form of the SHA-3-256
/// digest of its signature-stripped serialization.
pub open spec fn tx_hash_of(tx: Transaction) -> Seq<char> {
    hex_of(sha3_256_of(enc_transaction_stripped(tx)))
}

/// Serializes a transaction with signatures stripped.
pub fn serialize_transaction_stripped(tx: &Transaction) -> (r: Vec<u8>)
    ensures
        r@ == enc_transaction_stripped(*tx),
{
    let mut out: Vec<u8> = Vec::new();
    emit_u64(&mut out, tx.inputs.len() as u64);
    let ghost ins = tx.inputs@.map_values(|t: TxIn| enc_tx_in_stripped(t));
    let ghost base = out@;
    let mut i: usize = 0;
    while i < tx.inputs.len()
        invariant
            i <= tx.inputs@.len(),
            ins == tx.inputs@.map_values(|t: TxIn| enc_tx_in_stripped(t)),
            out@ == base + enc_list(ins.subrange(0, i as int)),
        decreases tx.inputs@.len() - i,
    {
        let key = tx.inputs[i].previous_out.to_key();
        let mut j: usize = 0;
        let ghost mid = out@;
        while j < key.len()
            invariant
                j <= key@.len(),
                out@ == mid + key@.subrange(0, j as int),
            decreases key@.len() - j,
        {
            out.push(key[j]);
            j = j + 1;
            proof {
                assert(out@ =~= mid + key@.subrange(0, j as int));
            }
        }
        i = i + 1;
        proof {
            assert(key@.subrange(0, key@.len() as int) =~= key@);
            assert(ins.subrange(0, i as int).drop_last() =~= ins.subrange(0, i - 1));
            assert(out@ =~= base + enc_list(ins.subrange(0, i as int)));
        }
    }
    proof {
        assert(ins.subrange(0, ins.len() as int) =~= ins);
    }
    emit_u64(&mut out, tx.outputs.len() as u64);
    let ghost outs = tx.outputs@.map_values(|o: TxOut| enc_tx_out(o));
    let ghost base2 = out@;
    let mut i2: usize = 0;
    while i2 < tx.outputs.len()
        invariant
            i2 <= tx.outputs@.len(),
            outs == tx.outputs@.map_values(|o: TxOut| enc_tx_out(o)),
            out@ == base2 + enc_list(outs.subrange(0, i2 as int)),
        decreases tx.outputs@.len() - i2,
    {
        serialize_tx_out(&mut out, &tx.outputs[i2]);
        i2 = i2 + 1;
        proof {
            assert(outs.subrange(0, i2 as int).drop_last() =~= outs.subrange(0, i2 - 1));
            assert(out@ =~= base2 + enc_list(outs.subrange(0, i2 as int)));
        }
    }
    proof {
        assert(outs.subrange(0, outs.len() as int) =~= outs);
        assert(out@ =~= enc_transaction_stripped(*tx));
    }
    out
}

/// Appends the canonical encoding of one output.
fn serialize_tx_out(out: &mut Vec<u8>, o: &TxOut)
    ensures
        final(out)@ == old(out)@ + enc_tx_out(*o),
{
    match &o.value {
        Asset::Token(v) => {
            out.push(0u8);
            emit_u64(out, *v);
        },
        Asset::Data(d) => {
            out.push(1u8);
            emit_bytes(out, d);
        },
    }
    match &o.locktime {
        Some(v) => {
            out.push(1u8);
            emit_u64(out, *v);
        },
        None => {
            out.push(0u8);
        },
    }
    match &o.drs_tag {
        Some(d) => {
            out.push(1u8);
            emit_bytes(out, d);
        },
        None => {
            out.push(0u8);
        },
    }
    let ab = o.address.as_str().as_bytes_vec();
    emit_bytes(out, &ab);
    proof {
        assert(out@ =~= old(out)@ + enc_tx_out(*o));
    }
}

/// Computes a transaction's canonical identifier.
pub fn construct_tx_hash(tx: &Transaction) -> (r: String)
    ensures
        r@ == tx_hash_of(*tx),
{
    let stripped = serialize_transaction_stripped(tx);
    let digest = sha3_256(&stripped);
    hex_encode(&digest)
}

} // verus!
