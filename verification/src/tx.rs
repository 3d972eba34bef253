//! The transaction assembler: well-formed funding and spending
//! transactions, their canonical binary serialization (little-endian
//! fields, count-prefixed lists), lossless deserialization, and the
//! double-hash transaction identifier.

use vstd::prelude::*;

use vstd::bytes::{
    spec_u32_to_le_bytes, spec_u64_to_le_bytes, lemma_auto_spec_u32_to_from_le_bytes,
    lemma_auto_spec_u64_to_from_le_bytes,
};

use crate::address::{Address, wf_address, spec_witness_script, witness_script_pubkey};
use crate::codec::{
    spec_varint, write_u32_le, write_u64_le, write_varint, read_u32_le, read_u64_le, read_bytes,
    read_varint, valid_varint_at, lemma_varint_len, lemma_varint_at_unique, lemma_concat_split,
    lemma_varint_prefix,
    lemma_u32_le_inj, lemma_u64_le_inj,
};
use crate::errors::Error;
use crate::hashes::{sha256, sha256_of};

verus! {

/// One transaction input: a reference to a prior output, the unlocking
/// data that satisfies its script, and a sequence number.
#[derive(Debug)]
pub struct TxIn {
    /// Identifier of the transaction whose output is being spent.
    pub prev_txid: Vec<u8>,
    /// Index of the spent output within that transaction.
    pub prev_vout: u32,
    /// The unlocking (redeem) data supplied by the spender.
    pub script_sig: Vec<u8>,
    /// The input's sequence number.
    pub sequence: u32,
}

/// One transaction output: a value and the script that locks it.
#[derive(Debug)]
pub struct TxOut {
    /// The amount, in the smallest currency unit.
    pub value: u64,
    /// The predicate a future spender must satisfy.
    pub script_pubkey: Vec<u8>,
}

/// A transaction: versioned, time-locked, with ordered inputs and outputs.
#[derive(Debug)]
pub struct Transaction {
    /// Format version of the transaction.
    pub version: u32,
    /// Earliest time or height at which the transaction is final.
    pub lock_time: u32,
    /// The ordered inputs.
    pub input: Vec<TxIn>,
    /// The ordered outputs.
    pub output: Vec<TxOut>,
}

/// The mathematical value of an input.
#[verifier::ext_equal]
pub ghost struct TxInView {
    /// Identifier bytes of the referenced transaction.
    pub prev_txid: Seq<u8>,
    /// Index of the referenced output.
    pub prev_vout: u32,
    /// The unlocking data bytes.
    pub script_sig: Seq<u8>,
    /// The sequence number.
    pub sequence: u32,
}

/// The mathematical value of an output.
#[verifier::ext_equal]
pub ghost struct TxOutView {
    /// The amount.
    pub value: u64,
    /// The locking script bytes.
    pub script_pubkey: Seq<u8>,
}

/// The mathematical value of a transaction.
#[verifier::ext_equal]
pub ghost struct TransactionView {
    /// Format version.
    pub version: u32,
    /// Lock time.
    pub lock_time: u32,
    /// The inputs, in order.
    pub inputs: Seq<TxInView>,
    /// The outputs, in order.
    pub outputs: Seq<TxOutView>,
}

impl View for TxIn {
    type V = TxInView;

    open spec fn view(&self) -> TxInView {
        TxInView {
            prev_txid: self.prev_txid@,
            prev_vout: self.prev_vout,
            script_sig: self.script_sig@,
            sequence: self.sequence,
        }
    }
}

impl View for TxOut {
    type V = TxOutView;

    open spec fn view(&self) -> TxOutView {
        TxOutView { value: self.value, script_pubkey: self.script_pubkey@ }
    }
}

impl View for Transaction {
    type V = TransactionView;

    open spec fn view(&self) -> TransactionView {
        TransactionView {
            version: self.version,
            lock_time: self.lock_time,
            inputs: self.input@.map_values(|i: TxIn| i@),
            outputs: self.output@.map_values(|o: TxOut| o@),
        }
    }
}

/// A well-formed input references a transaction by a 32-byte identifier
/// and carries a script the count encoding can measure.
pub open spec fn wf_txin(i: TxInView) -> bool {
    &&& i.prev_txid.len() == 32
    &&& i.script_sig.len() <= u64::MAX
}

/// A well-formed output carries a script the count encoding can measure.
pub open spec fn wf_txout(o: TxOutView) -> bool {
    o.script_pubkey.len() <= u64::MAX
}

/// A well-formed transaction has well-formed inputs and outputs, in lists
/// the count encoding can measure.
pub open spec fn wf_tx(t: TransactionView) -> bool {
    &&& t.inputs.len() <= u64::MAX
    &&& t.outputs.len() <= u64::MAX
    &&& forall|j: int| 0 <= j < t.inputs.len() ==> wf_txin(#[trigger] t.inputs[j])
    &&& forall|j: int| 0 <= j < t.outputs.len() ==> wf_txout(#[trigger] t.outputs[j])
}

/// The canonical byte encoding of one input.
pub open spec fn spec_ser_txin(i: TxInView) -> Seq<u8> {
    i.prev_txid + spec_u32_to_le_bytes(i.prev_vout) + spec_varint(i.script_sig.len() as u64)
        + i.script_sig + spec_u32_to_le_bytes(i.sequence)
}

/// The canonical byte encoding of one output.
pub open spec fn spec_ser_txout(o: TxOutView) -> Seq<u8> {
    spec_u64_to_le_bytes(o.value) + spec_varint(o.script_pubkey.len() as u64) + o.script_pubkey
}

/// The concatenated encodings of a list of inputs.
pub open spec fn spec_ser_inputs(s: Seq<TxInView>) -> Seq<u8>
    decreases s.len(),
{
    if s.len() == 0 {
        Seq::empty()
    } else {
        spec_ser_txin(s[0]) + spec_ser_inputs(s.drop_first())
    }
}

/// The concatenated encodings of a list of outputs.
pub open spec fn spec_ser_outputs(s: Seq<TxOutView>) -> Seq<u8>
    decreases s.len(),
{
    if s.len() == 0 {
        Seq::empty()
    } else {
        spec_ser_txout(s[0]) + spec_ser_outputs(s.drop_first())
    }
}

/// The canonical byte encoding of a whole transaction: version, counted
/// inputs, counted outputs, lock time.
pub open spec fn spec_ser_tx(t: TransactionView) -> Seq<u8> {
    spec_u32_to_le_bytes(t.version) + spec_varint(t.inputs.len() as u64) + spec_ser_inputs(t.inputs)
        + spec_varint(t.outputs.len() as u64) + spec_ser_outputs(t.outputs) + spec_u32_to_le_bytes(
        t.lock_time,
    )
}

/// The transaction identifier: the double hash of the canonical encoding.
pub open spec fn spec_txid(t: TransactionView) -> Seq<u8> {
    sha256_of(sha256_of(spec_ser_tx(t)))
}

/// Encoding a list is encoding a prefix and then the rest.
proof fn lemma_ser_inputs_concat(a: Seq<TxInView>, b: Seq<TxInView>)
    ensures
        spec_ser_inputs(a + b) == spec_ser_inputs(a) + spec_ser_inputs(b),
    decreases a.len(),
{
    if a.len() == 0 {
        assert(a + b =~= b);
        assert(spec_ser_inputs(a) + spec_ser_inputs(b) =~= spec_ser_inputs(b));
    } else {
        assert((a + b).len() > 0);
        assert((a + b)[0] == a[0]);
        assert((a + b).drop_first() =~= a.drop_first() + b);
        lemma_ser_inputs_concat(a.drop_first(), b);
        assert(spec_ser_inputs(a + b) =~= spec_ser_inputs(a) + spec_ser_inputs(b));
    }
}

/// Encoding a list is encoding a prefix and then the rest.
proof fn lemma_ser_outputs_concat(a: Seq<TxOutView>, b: Seq<TxOutView>)
    ensures
        spec_ser_outputs(a + b) == spec_ser_outputs(a) + spec_ser_outputs(b),
    decreases a.len(),
{
    if a.len() == 0 {
        assert(a + b =~= b);
        assert(spec_ser_outputs(a) + spec_ser_outputs(b) =~= spec_ser_outputs(b));
    } else {
        assert((a + b).len() > 0);
        assert((a + b)[0] == a[0]);
        assert((a + b).drop_first() =~= a.drop_first() + b);
        lemma_ser_outputs_concat(a.drop_first(), b);
        assert(spec_ser_outputs(a + b) =~= spec_ser_outputs(a) + spec_ser_outputs(b));
    }
}

/// Appends the canonical encoding of one input.
fn write_txin(out: &mut Vec<u8>, txin: &TxIn)
    ensures
        final(out)@ == old(out)@ + spec_ser_txin(txin@),
{
    let mut txid = vstd::slice::slice_to_vec(txin.prev_txid.as_slice());
    out.append(&mut txid);
    write_u32_le(out, txin.prev_vout);
    write_varint(out, txin.script_sig.len() as u64);
    let mut ss = vstd::slice::slice_to_vec(txin.script_sig.as_slice());
    out.append(&mut ss);
    write_u32_le(out, txin.sequence);
    proof {
        assert(out@ =~= old(out)@ + spec_ser_txin(txin@));
    }
}

/// Appends the canonical encoding of one output.
fn write_txout(out: &mut Vec<u8>, txout: &TxOut)
    ensures
        final(out)@ == old(out)@ + spec_ser_txout(txout@),
{
    write_u64_le(out, txout.value);
    write_varint(out, txout.script_pubkey.len() as u64);
    let mut spk = vstd::slice::slice_to_vec(txout.script_pubkey.as_slice());
    out.append(&mut spk);
    proof {
        assert(out@ =~= old(out)@ + spec_ser_txout(txout@));
    }
}

/// Serializes a transaction into its canonical consensus bytes.
pub fn serialize_tx(tx: &Transaction) -> (r: Vec<u8>)
    ensures
        r@ == spec_ser_tx(tx@),
{
    let mut out: Vec<u8> = Vec::new();
    write_u32_le(&mut out, tx.version);
    write_varint(&mut out, tx.input.len() as u64);
    let ghost head: Seq<u8> = spec_u32_to_le_bytes(tx.version) + spec_varint(
        tx@.inputs.len() as u64,
    );
    proof {
        assert(tx@.inputs.len() == tx.input@.len());
        assert(out@ =~= head + spec_ser_inputs(tx@.inputs.take(0)));
    }
    let mut i: usize = 0;
    while i < tx.input.len()
        invariant
            i <= tx.input@.len(),
            tx@.inputs.len() == tx.input@.len(),
            out@ == head + spec_ser_inputs(tx@.inputs.take(i as int)),
        decreases tx.input@.len() - i,
    {
        write_txin(&mut out, &tx.input[i]);
        proof {
            let single = seq![tx@.inputs[i as int]];
            assert(tx@.inputs.take(i + 1) =~= tx@.inputs.take(i as int) + single);
            lemma_ser_inputs_concat(tx@.inputs.take(i as int), single);
            assert(single.drop_first() =~= Seq::<TxInView>::empty());
            assert(spec_ser_inputs(Seq::<TxInView>::empty()) =~= Seq::<u8>::empty());
            assert(spec_ser_inputs(single) =~= spec_ser_txin(tx@.inputs[i as int]));
            assert(tx@.inputs[i as int] == tx.input@[i as int]@);
            assert(out@ =~= head + spec_ser_inputs(tx@.inputs.take(i + 1)));
        }
        i = i + 1;
    }
    proof {
        assert(tx@.inputs.take(tx@.inputs.len() as int) =~= tx@.inputs);
    }
    write_varint(&mut out, tx.output.len() as u64);
    let ghost head2: Seq<u8> = head + spec_ser_inputs(tx@.inputs) + spec_varint(
        tx@.outputs.len() as u64,
    );
    proof {
        assert(tx@.outputs.len() == tx.output@.len());
        assert(out@ =~= head2 + spec_ser_outputs(tx@.outputs.take(0)));
    }
    let mut j: usize = 0;
    while j < tx.output.len()
        invariant
            j <= tx.output@.len(),
            tx@.outputs.len() == tx.output@.len(),
            out@ == head2 + spec_ser_outputs(tx@.outputs.take(j as int)),
        decreases tx.output@.len() - j,
    {
        write_txout(&mut out, &tx.output[j]);
        proof {
            let single = seq![tx@.outputs[j as int]];
            assert(tx@.outputs.take(j + 1) =~= tx@.outputs.take(j as int) + single);
            lemma_ser_outputs_concat(tx@.outputs.take(j as int), single);
            assert(single.drop_first() =~= Seq::<TxOutView>::empty());
            assert(spec_ser_outputs(Seq::<TxOutView>::empty()) =~= Seq::<u8>::empty());
            assert(spec_ser_outputs(single) =~= spec_ser_txout(tx@.outputs[j as int]));
            assert(tx@.outputs[j as int] == tx.output@[j as int]@);
            assert(out@ =~= head2 + spec_ser_outputs(tx@.outputs.take(j + 1)));
        }
        j = j + 1;
    }
    proof {
        assert(tx@.outputs.take(tx@.outputs.len() as int) =~= tx@.outputs);
    }
    write_u32_le(&mut out, tx.lock_time);
    proof {
        assert(out@ =~= spec_ser_tx(tx@));
    }
    out
}

/// The double-hash identifier of a transaction: a deterministic function
/// of its canonical serialized bytes.
pub fn transaction_id(tx: &Transaction) -> (r: Vec<u8>)
    ensures
        r@ == spec_txid(tx@),
        r@.len() == 32,
{
    let ser = serialize_tx(tx);
    let once = sha256(&ser);
    sha256(&once)
}

/// Builds the funding transaction: no inputs, one output paying `amount`
/// to the target address's locking script, version one, zero lock time.
pub fn build_funding_transaction(target: &Address, amount: u64) -> (r: Transaction)
    requires
        wf_address(*target),
    ensures
        r@.version == 1,
        r@.lock_time == 0,
        r@.inputs.len() == 0,
        r@.outputs.len() == 1,
        r@.outputs[0].value == amount,
        r@.outputs[0].script_pubkey == spec_witness_script(target.program@),
        wf_tx(r@),
{
    let spk = witness_script_pubkey(target);
    let txout = TxOut { value: amount, script_pubkey: spk };
    let mut output: Vec<TxOut> = Vec::new();
    output.push(txout);
    let r = Transaction { version: 1, lock_time: 0, input: Vec::new(), output };
    proof {
        assert(r@.inputs =~= Seq::<TxInView>::empty());
        assert(r@.outputs.len() == 1);
    }
    r
}

/// Builds the spending transaction: one input revealing the redeem data
/// against the funding transaction's first output, a payout output of
/// `spend_amount` to the change address, and a residual output returning
/// the remainder to the prior locking script. The two output values sum
/// exactly to the prior output's value: nothing is created or destroyed.
pub fn build_spending_transaction(
    prior: &Transaction,
    redeem_witness: &Vec<u8>,
    spend_amount: u64,
    change_address: &Address,
) -> (r: Result<Transaction, Error>)
    requires
        wf_address(*change_address),
    ensures
        r matches Ok(t) ==> {
            &&& prior@.outputs.len() > 0
            &&& spend_amount <= prior@.outputs[0].value
            &&& t@.version == 1
            &&& t@.lock_time == 0
            &&& t@.inputs.len() == 1
            &&& t@.inputs[0].prev_txid == spec_txid(prior@)
            &&& t@.inputs[0].prev_vout == 0
            &&& t@.inputs[0].script_sig == redeem_witness@
            &&& t@.inputs[0].sequence == 0xffffffffu32
            &&& t@.outputs.len() == 2
            &&& t@.outputs[0].value == spend_amount
            &&& t@.outputs[0].script_pubkey == spec_witness_script(change_address.program@)
            &&& t@.outputs[1].value == prior@.outputs[0].value - spend_amount
            &&& t@.outputs[1].script_pubkey == prior@.outputs[0].script_pubkey
            &&& t@.outputs[0].value + t@.outputs[1].value == prior@.outputs[0].value
            &&& wf_tx(t@)
        },
        r matches Err(e) ==> (prior@.outputs.len() == 0 && e == Error::NoPriorOutput) || (
        prior@.outputs.len() > 0 && spend_amount > prior@.outputs[0].value && e
            == Error::InsufficientFunds),
{
    if prior.output.len() == 0 {
        return Err(Error::NoPriorOutput);
    }
    let prior_value: u64 = prior.output[0].value;
    if spend_amount > prior_value {
        return Err(Error::InsufficientFunds);
    }
    // The residual is re-checked defensively before any output is built.
    let residual: u64 = match prior_value.checked_sub(spend_amount) {
        Some(v) => v,
        None => {
            return Err(Error::ValueConservationViolation);
        },
    };
    let txid = transaction_id(prior);
    let txin = TxIn {
        prev_txid: txid,
        prev_vout: 0,
        script_sig: vstd::slice::slice_to_vec(redeem_witness.as_slice()),
        sequence: 0xffffffffu32,
    };
    let payout = TxOut {
        value: spend_amount,
        script_pubkey: witness_script_pubkey(change_address),
    };
    let change = TxOut {
        value: residual,
        script_pubkey: vstd::slice::slice_to_vec(prior.output[0].script_pubkey.as_slice()),
    };
    let mut input: Vec<TxIn> = Vec::new();
    input.push(txin);
    let mut output: Vec<TxOut> = Vec::new();
    output.push(payout);
    output.push(change);
    let r = Transaction { version: 1, lock_time: 0, input, output };
    proof {
        vstd::std_specs::vec::axiom_spec_len(redeem_witness);
        vstd::std_specs::vec::axiom_spec_len(&prior.output@[0].script_pubkey);
        assert(r@.inputs.len() == 1 && r@.outputs.len() == 2);
        assert(prior@.outputs[0] == prior.output@[0]@);
        assert(r@.inputs[0] == input@[0]@);
        assert(r@.outputs[0] == output@[0]@);
        assert(r@.outputs[1] == output@[1]@);
    }
    Ok(r)
}

/// Whether the canonical encoding of input `a`, followed by `rest`,
/// fills the stream from `pos` on.
pub open spec fn txin_at(b: Seq<u8>, pos: int, a: TxInView, rest: Seq<u8>) -> bool {
    &&& wf_txin(a)
    &&& 0 <= pos <= b.len()
    &&& b.skip(pos) == spec_ser_txin(a) + rest
}

/// Whether the canonical encoding of output `o`, followed by `rest`,
/// fills the stream from `pos` on.
pub open spec fn txout_at(b: Seq<u8>, pos: int, o: TxOutView, rest: Seq<u8>) -> bool {
    &&& wf_txout(o)
    &&& 0 <= pos <= b.len()
    &&& b.skip(pos) == spec_ser_txout(o) + rest
}

/// A stream holding an encoded input at `pos` is long enough for all its
/// fields, and the script-length count sits at its fixed offset.
proof fn lemma_txin_at_facts(b: Seq<u8>, pos: int, a: TxInView, rest: Seq<u8>)
    requires
        txin_at(b, pos, a, rest),
    ensures
        b.len() - pos == 40 + spec_varint(a.script_sig.len() as u64).len() + a.script_sig.len()
            + rest.len(),
        b.len() - pos >= 41,
        valid_varint_at(b, pos + 36, a.script_sig.len() as u64),
{
    let sl = a.script_sig.len() as u64;
    let vl = spec_varint(sl).len() as int;
    lemma_varint_len(sl);
    lemma_auto_spec_u32_to_from_le_bytes();
    assert(b.skip(pos).len() == b.len() - pos);
    let head = a.prev_txid + spec_u32_to_le_bytes(a.prev_vout);
    let tail = a.script_sig + (spec_u32_to_le_bytes(a.sequence) + rest);
    assert(b.skip(pos) =~= head + (spec_varint(sl) + tail));
    assert(head.len() == 36);
    assert forall|j: int| 0 <= j < vl implies b.subrange(pos + 36, pos + 36 + vl)[j]
        == spec_varint(sl)[j] by {
        assert(b.subrange(pos + 36, pos + 36 + vl)[j] == b[pos + 36 + j]);
        assert(b[pos + 36 + j] == b.skip(pos)[36 + j]);
        assert((head + (spec_varint(sl) + tail))[36 + j] == (spec_varint(sl) + tail)[j]);
    }
    assert(b.subrange(pos + 36, pos + 36 + vl) =~= spec_varint(sl));
}

/// A stream holding an encoded output at `pos` is long enough for all its
/// fields, and the script-length count sits at its fixed offset.
proof fn lemma_txout_at_facts(b: Seq<u8>, pos: int, o: TxOutView, rest: Seq<u8>)
    requires
        txout_at(b, pos, o, rest),
    ensures
        b.len() - pos == 8 + spec_varint(o.script_pubkey.len() as u64).len()
            + o.script_pubkey.len() + rest.len(),
        b.len() - pos >= 9,
        valid_varint_at(b, pos + 8, o.script_pubkey.len() as u64),
{
    let sl = o.script_pubkey.len() as u64;
    let vl = spec_varint(sl).len() as int;
    lemma_varint_len(sl);
    lemma_auto_spec_u64_to_from_le_bytes();
    assert(b.skip(pos).len() == b.len() - pos);
    let head = spec_u64_to_le_bytes(o.value);
    let tail = o.script_pubkey + rest;
    assert(b.skip(pos) =~= head + (spec_varint(sl) + tail));
    assert(head.len() == 8);
    assert forall|j: int| 0 <= j < vl implies b.subrange(pos + 8, pos + 8 + vl)[j]
        == spec_varint(sl)[j] by {
        assert(b.subrange(pos + 8, pos + 8 + vl)[j] == b[pos + 8 + j]);
        assert(b[pos + 8 + j] == b.skip(pos)[8 + j]);
        assert((head + (spec_varint(sl) + tail))[8 + j] == (spec_varint(sl) + tail)[j]);
    }
    assert(b.subrange(pos + 8, pos + 8 + vl) =~= spec_varint(sl));
}

/// Reads one input at `pos`; it succeeds exactly when a canonical input
/// encoding starts there, and the consumed bytes are that encoding.
fn read_txin(bs: &[u8], pos: usize) -> (r: Result<(TxIn, usize), Error>)
    ensures
        r matches Ok(x) ==> {
            &&& pos <= x.1 <= bs@.len()
            &&& wf_txin(x.0@)
            &&& bs@.subrange(pos as int, x.1 as int) == spec_ser_txin(x.0@)
        },
        r matches Err(e) ==> e == Error::InvalidEncoding && (forall|a: TxInView, rest: Seq<u8>|
            !#[trigger] txin_at(bs@, pos as int, a, rest)),
{
    let (txid, p1) = match read_bytes(bs, pos, 32) {
        Ok(x) => x,
        Err(e) => {
            proof {
                assert forall|a: TxInView, rest: Seq<u8>| !#[trigger] txin_at(
                    bs@,
                    pos as int,
                    a,
                    rest,
                ) by {
                    if txin_at(bs@, pos as int, a, rest) {
                        lemma_txin_at_facts(bs@, pos as int, a, rest);
                    }
                }
            }
            return Err(e);
        },
    };
    let (vout, p2) = match read_u32_le(bs, p1) {
        Ok(x) => x,
        Err(e) => {
            proof {
                assert forall|a: TxInView, rest: Seq<u8>| !#[trigger] txin_at(
                    bs@,
                    pos as int,
                    a,
                    rest,
                ) by {
                    if txin_at(bs@, pos as int, a, rest) {
                        lemma_txin_at_facts(bs@, pos as int, a, rest);
                    }
                }
            }
            return Err(e);
        },
    };
    let (slen, p3) = match read_varint(bs, p2) {
        Ok(x) => x,
        Err(e) => {
            proof {
                assert forall|a: TxInView, rest: Seq<u8>| !#[trigger] txin_at(
                    bs@,
                    pos as int,
                    a,
                    rest,
                ) by {
                    if txin_at(bs@, pos as int, a, rest) {
                        lemma_txin_at_facts(bs@, pos as int, a, rest);
                    }
                }
            }
            return Err(e);
        },
    };
    if slen > (bs.len() - p3) as u64 {
        proof {
            assert forall|a: TxInView, rest: Seq<u8>| !#[trigger] txin_at(
                bs@,
                pos as int,
                a,
                rest,
            ) by {
                if txin_at(bs@, pos as int, a, rest) {
                    lemma_txin_at_facts(bs@, pos as int, a, rest);
                    lemma_varint_at_unique(
                        bs@,
                        pos as int + 36,
                        slen,
                        a.script_sig.len() as u64,
                    );
                }
            }
        }
        return Err(Error::InvalidEncoding);
    }
    let (script, p4) = match read_bytes(bs, p3, slen as usize) {
        Ok(x) => x,
        Err(e) => {
            proof {
                assert forall|a: TxInView, rest: Seq<u8>| !#[trigger] txin_at(
                    bs@,
                    pos as int,
                    a,
                    rest,
                ) by {
                    if txin_at(bs@, pos as int, a, rest) {
                        lemma_txin_at_facts(bs@, pos as int, a, rest);
                        lemma_varint_at_unique(
                            bs@,
                            pos as int + 36,
                            slen,
                            a.script_sig.len() as u64,
                        );
                    }
                }
            }
            return Err(e);
        },
    };
    let (seqno, p5) = match read_u32_le(bs, p4) {
        Ok(x) => x,
        Err(e) => {
            proof {
                assert forall|a: TxInView, rest: Seq<u8>| !#[trigger] txin_at(
                    bs@,
                    pos as int,
                    a,
                    rest,
                ) by {
                    if txin_at(bs@, pos as int, a, rest) {
                        lemma_txin_at_facts(bs@, pos as int, a, rest);
                        lemma_varint_at_unique(
                            bs@,
                            pos as int + 36,
                            slen,
                            a.script_sig.len() as u64,
                        );
                    }
                }
            }
            return Err(e);
        },
    };
    let txin = TxIn { prev_txid: txid, prev_vout: vout, script_sig: script, sequence: seqno };
    proof {
        assert(txin@.script_sig.len() as u64 == slen);
        assert(bs@.subrange(pos as int, p5 as int) =~= bs@.subrange(pos as int, p1 as int)
            + bs@.subrange(p1 as int, p2 as int) + bs@.subrange(p2 as int, p3 as int)
            + bs@.subrange(p3 as int, p4 as int) + bs@.subrange(p4 as int, p5 as int));
        assert(bs@.subrange(pos as int, p5 as int) =~= spec_ser_txin(txin@));
    }
    Ok((txin, p5))
}

/// Reads one output at `pos`; it succeeds exactly when a canonical output
/// encoding starts there, and the consumed bytes are that encoding.
fn read_txout(bs: &[u8], pos: usize) -> (r: Result<(TxOut, usize), Error>)
    ensures
        r matches Ok(x) ==> {
            &&& pos <= x.1 <= bs@.len()
            &&& wf_txout(x.0@)
            &&& bs@.subrange(pos as int, x.1 as int) == spec_ser_txout(x.0@)
        },
        r matches Err(e) ==> e == Error::InvalidEncoding && (forall|o: TxOutView, rest: Seq<u8>|
            !#[trigger] txout_at(bs@, pos as int, o, rest)),
{
    let (value, p1) = match read_u64_le(bs, pos) {
        Ok(x) => x,
        Err(e) => {
            proof {
                assert forall|o: TxOutView, rest: Seq<u8>| !#[trigger] txout_at(
                    bs@,
                    pos as int,
                    o,
                    rest,
                ) by {
                    if txout_at(bs@, pos as int, o, rest) {
                        lemma_txout_at_facts(bs@, pos as int, o, rest);
                    }
                }
            }
            return Err(e);
        },
    };
    let (slen, p2) = match read_varint(bs, p1) {
        Ok(x) => x,
        Err(e) => {
            proof {
                assert forall|o: TxOutView, rest: Seq<u8>| !#[trigger] txout_at(
                    bs@,
                    pos as int,
                    o,
                    rest,
                ) by {
                    if txout_at(bs@, pos as int, o, rest) {
                        lemma_txout_at_facts(bs@, pos as int, o, rest);
                    }
                }
            }
            return Err(e);
        },
    };
    if slen > (bs.len() - p2) as u64 {
        proof {
            assert forall|o: TxOutView, rest: Seq<u8>| !#[trigger] txout_at(
                bs@,
                pos as int,
                o,
                rest,
            ) by {
                if txout_at(bs@, pos as int, o, rest) {
                    lemma_txout_at_facts(bs@, pos as int, o, rest);
                    lemma_varint_at_unique(
                        bs@,
                        pos as int + 8,
                        slen,
                        o.script_pubkey.len() as u64,
                    );
                }
            }
        }
        return Err(Error::InvalidEncoding);
    }
    let (script, p3) = match read_bytes(bs, p2, slen as usize) {
        Ok(x) => x,
        Err(e) => {
            proof {
                assert forall|o: TxOutView, rest: Seq<u8>| !#[trigger] txout_at(
                    bs@,
                    pos as int,
                    o,
                    rest,
                ) by {
                    if txout_at(bs@, pos as int, o, rest) {
                        lemma_txout_at_facts(bs@, pos as int, o, rest);
                        lemma_varint_at_unique(
                            bs@,
                            pos as int + 8,
                            slen,
                            o.script_pubkey.len() as u64,
                        );
                    }
                }
            }
            return Err(e);
        },
    };
    let txout = TxOut { value, script_pubkey: script };
    proof {
        assert(txout@.script_pubkey.len() as u64 == slen);
        assert(bs@.subrange(pos as int, p3 as int) =~= bs@.subrange(pos as int, p1 as int)
            + bs@.subrange(p1 as int, p2 as int) + bs@.subrange(p2 as int, p3 as int));
        assert(bs@.subrange(pos as int, p3 as int) =~= spec_ser_txout(txout@));
    }
    Ok((txout, p3))
}

/// Whether a byte string is the canonical encoding of a well-formed
/// transaction.
pub open spec fn canonical_tx_bytes(b: Seq<u8>, t: TransactionView) -> bool {
    &&& wf_tx(t)
    &&& b == spec_ser_tx(t)
}

/// An encoded input list is at least as long as the list itself.
proof fn lemma_ser_inputs_min_len(s: Seq<TxInView>)
    ensures
        spec_ser_inputs(s).len() >= s.len(),
    decreases s.len(),
{
    if s.len() > 0 {
        lemma_ser_inputs_min_len(s.drop_first());
        lemma_auto_spec_u32_to_from_le_bytes();
        lemma_varint_len(s[0].script_sig.len() as u64);
    }
}

/// An encoded output list is at least as long as the list itself.
proof fn lemma_ser_outputs_min_len(s: Seq<TxOutView>)
    ensures
        spec_ser_outputs(s).len() >= s.len(),
    decreases s.len(),
{
    if s.len() > 0 {
        lemma_ser_outputs_min_len(s.drop_first());
        lemma_auto_spec_u64_to_from_le_bytes();
        lemma_varint_len(s[0].script_pubkey.len() as u64);
    }
}

/// A shorter input list decoded off the same stream is a prefix of the
/// longer one, and the remainder starts with the longer list's leftover
/// encodings.
proof fn lemma_ser_inputs_take_prefix(s1: Seq<TxInView>, x: Seq<u8>, s2: Seq<TxInView>, y: Seq<u8>)
    requires
        s1.len() <= s2.len(),
        forall|j: int| 0 <= j < s1.len() ==> wf_txin(#[trigger] s1[j]),
        forall|j: int| 0 <= j < s2.len() ==> wf_txin(#[trigger] s2[j]),
        spec_ser_inputs(s1) + x == spec_ser_inputs(s2) + y,
    ensures
        s1 == s2.take(s1.len() as int),
        x == spec_ser_inputs(s2.skip(s1.len() as int)) + y,
    decreases s1.len(),
{
    let n1 = s1.len() as int;
    if s1.len() == 0 {
        assert(s1 =~= s2.take(0));
        assert(s2.skip(0) =~= s2);
        assert(spec_ser_inputs(s1) =~= Seq::<u8>::empty());
        assert(x =~= spec_ser_inputs(s2) + y);
    } else {
        assert(spec_ser_inputs(s1) + x =~= spec_ser_txin(s1[0]) + (spec_ser_inputs(s1.drop_first())
            + x));
        assert(spec_ser_inputs(s2) + y =~= spec_ser_txin(s2[0]) + (spec_ser_inputs(s2.drop_first())
            + y));
        lemma_ser_txin_prefix(
            s1[0],
            spec_ser_inputs(s1.drop_first()) + x,
            s2[0],
            spec_ser_inputs(s2.drop_first()) + y,
        );
        assert forall|j: int| 0 <= j < s1.drop_first().len() implies wf_txin(
            #[trigger] s1.drop_first()[j],
        ) by {
            assert(s1.drop_first()[j] == s1[j + 1]);
        }
        assert forall|j: int| 0 <= j < s2.drop_first().len() implies wf_txin(
            #[trigger] s2.drop_first()[j],
        ) by {
            assert(s2.drop_first()[j] == s2[j + 1]);
        }
        lemma_ser_inputs_take_prefix(s1.drop_first(), x, s2.drop_first(), y);
        assert forall|j: int| 0 <= j < n1 implies s1[j] == s2.take(n1)[j] by {
            if j > 0 {
                assert(s1.drop_first()[j - 1] == s1[j]);
                assert(s2.drop_first().take(n1 - 1)[j - 1] == s2[j]);
            }
        }
        assert(s1 =~= s2.take(n1));
        assert(s2.drop_first().skip(n1 - 1) =~= s2.skip(n1));
    }
}

/// A shorter output list decoded off the same stream is a prefix of the
/// longer one, and the remainder starts with the longer list's leftover
/// encodings.
proof fn lemma_ser_outputs_take_prefix(
    s1: Seq<TxOutView>,
    x: Seq<u8>,
    s2: Seq<TxOutView>,
    y: Seq<u8>,
)
    requires
        s1.len() <= s2.len(),
        forall|j: int| 0 <= j < s1.len() ==> wf_txout(#[trigger] s1[j]),
        forall|j: int| 0 <= j < s2.len() ==> wf_txout(#[trigger] s2[j]),
        spec_ser_outputs(s1) + x == spec_ser_outputs(s2) + y,
    ensures
        s1 == s2.take(s1.len() as int),
        x == spec_ser_outputs(s2.skip(s1.len() as int)) + y,
    decreases s1.len(),
{
    let n1 = s1.len() as int;
    if s1.len() == 0 {
        assert(s1 =~= s2.take(0));
        assert(s2.skip(0) =~= s2);
        assert(spec_ser_outputs(s1) =~= Seq::<u8>::empty());
        assert(x =~= spec_ser_outputs(s2) + y);
    } else {
        assert(spec_ser_outputs(s1) + x =~= spec_ser_txout(s1[0]) + (spec_ser_outputs(
            s1.drop_first(),
        ) + x));
        assert(spec_ser_outputs(s2) + y =~= spec_ser_txout(s2[0]) + (spec_ser_outputs(
            s2.drop_first(),
        ) + y));
        lemma_ser_txout_prefix(
            s1[0],
            spec_ser_outputs(s1.drop_first()) + x,
            s2[0],
            spec_ser_outputs(s2.drop_first()) + y,
        );
        assert forall|j: int| 0 <= j < s1.drop_first().len() implies wf_txout(
            #[trigger] s1.drop_first()[j],
        ) by {
            assert(s1.drop_first()[j] == s1[j + 1]);
        }
        assert forall|j: int| 0 <= j < s2.drop_first().len() implies wf_txout(
            #[trigger] s2.drop_first()[j],
        ) by {
            assert(s2.drop_first()[j] == s2[j + 1]);
        }
        lemma_ser_outputs_take_prefix(s1.drop_first(), x, s2.drop_first(), y);
        assert forall|j: int| 0 <= j < n1 implies s1[j] == s2.take(n1)[j] by {
            if j > 0 {
                assert(s1.drop_first()[j - 1] == s1[j]);
                assert(s2.drop_first().take(n1 - 1)[j - 1] == s2[j]);
            }
        }
        assert(s1 =~= s2.take(n1));
        assert(s2.drop_first().skip(n1 - 1) =~= s2.skip(n1));
    }
}

/// A canonical transaction stream opens with the version and the input
/// count, and what follows them is the input list and the tail.
proof fn lemma_canonical_tx_facts(b: Seq<u8>, t: TransactionView)
    requires
        canonical_tx_bytes(b, t),
    ensures
        b.len() >= 10,
        b.len() == 8 + spec_varint(t.inputs.len() as u64).len() + spec_ser_inputs(t.inputs).len()
            + spec_varint(t.outputs.len() as u64).len() + spec_ser_outputs(t.outputs).len(),
        b.subrange(0, 4) == spec_u32_to_le_bytes(t.version),
        valid_varint_at(b, 4, t.inputs.len() as u64),
        b.skip(4 + spec_varint(t.inputs.len() as u64).len() as int) == spec_ser_inputs(t.inputs)
            + (spec_varint(t.outputs.len() as u64) + (spec_ser_outputs(t.outputs)
            + spec_u32_to_le_bytes(t.lock_time))),
{
    let nt = t.inputs.len() as u64;
    let vl = spec_varint(nt).len() as int;
    lemma_varint_len(nt);
    lemma_varint_len(t.outputs.len() as u64);
    lemma_auto_spec_u32_to_from_le_bytes();
    let tail = spec_ser_inputs(t.inputs) + (spec_varint(t.outputs.len() as u64) + (spec_ser_outputs(
        t.outputs,
    ) + spec_u32_to_le_bytes(t.lock_time)));
    assert(b =~= spec_u32_to_le_bytes(t.version) + (spec_varint(nt) + tail));
    assert(b.subrange(0, 4) =~= spec_u32_to_le_bytes(t.version));
    assert forall|j: int| 0 <= j < vl implies b.subrange(4, 4 + vl)[j] == spec_varint(nt)[j] by {
        assert(b.subrange(4, 4 + vl)[j] == b[4 + j]);
        assert((spec_u32_to_le_bytes(t.version) + (spec_varint(nt) + tail))[4 + j] == (spec_varint(
            nt,
        ) + tail)[j]);
    }
    assert(b.subrange(4, 4 + vl) =~= spec_varint(nt));
    assert(b.skip(4 + vl) =~= tail);
}

/// What lies after a known head of the remaining stream.
proof fn lemma_skip_peel(b: Seq<u8>, q: int, a: Seq<u8>, rest: Seq<u8>)
    requires
        0 <= q <= b.len(),
        b.skip(q) == a + rest,
    ensures
        q + a.len() <= b.len(),
        b.skip(q + a.len() as int) == rest,
        b.subrange(q, q + a.len() as int) == a,
{
    assert(b.skip(q).len() == b.len() - q);
    assert forall|j: int| 0 <= j < rest.len() implies b.skip(q + a.len() as int)[j] == rest[j] by {
        assert(b.skip(q + a.len() as int)[j] == b[q + a.len() + j]);
        assert(b[q + a.len() + j] == b.skip(q)[a.len() + j]);
        assert((a + rest)[a.len() + j] == rest[j]);
    }
    assert(b.skip(q + a.len() as int) =~= rest);
    assert forall|j: int| 0 <= j < a.len() implies b.subrange(q, q + a.len() as int)[j] == a[j] by {
        assert(b.subrange(q, q + a.len() as int)[j] == b[q + j]);
        assert(b[q + j] == b.skip(q)[j]);
        assert((a + rest)[j] == a[j]);
    }
    assert(b.subrange(q, q + a.len() as int) =~= a);
}

/// Once every input of a canonical stream is decoded, the output count
/// sits at the cursor and the rest of the stream is the output section.
proof fn lemma_canonical_after_inputs(
    b: Seq<u8>,
    tv: TransactionView,
    parsed: Seq<TxInView>,
    p1: int,
    pos: int,
)
    requires
        canonical_tx_bytes(b, tv),
        parsed.len() == tv.inputs.len(),
        forall|j: int| 0 <= j < parsed.len() ==> wf_txin(#[trigger] parsed[j]),
        p1 == 4 + spec_varint(tv.inputs.len() as u64).len(),
        0 <= p1 <= pos <= b.len(),
        spec_ser_inputs(parsed) == b.subrange(p1, pos),
    ensures
        parsed == tv.inputs,
        b.skip(pos) == spec_varint(tv.outputs.len() as u64) + (spec_ser_outputs(tv.outputs)
            + spec_u32_to_le_bytes(tv.lock_time)),
        valid_varint_at(b, pos, tv.outputs.len() as u64),
        pos + spec_varint(tv.outputs.len() as u64).len() <= b.len(),
{
    lemma_canonical_tx_facts(b, tv);
    let tail = spec_varint(tv.outputs.len() as u64) + (spec_ser_outputs(tv.outputs)
        + spec_u32_to_le_bytes(tv.lock_time));
    assert(b.skip(p1) == spec_ser_inputs(tv.inputs) + tail);
    assert(b.skip(p1) =~= b.subrange(p1, pos) + b.skip(pos));
    lemma_ser_inputs_take_prefix(parsed, b.skip(pos), tv.inputs, tail);
    assert(tv.inputs.skip(parsed.len() as int) =~= Seq::<TxInView>::empty());
    assert(spec_ser_inputs(Seq::<TxInView>::empty()) =~= Seq::<u8>::empty());
    assert(b.skip(pos) =~= tail);
    assert(parsed =~= tv.inputs);
    let mt = tv.outputs.len() as u64;
    lemma_varint_len(mt);
    lemma_skip_peel(b, pos, spec_varint(mt), spec_ser_outputs(tv.outputs) + spec_u32_to_le_bytes(
        tv.lock_time,
    ));
}

/// Once both lists of a canonical stream are decoded, exactly the four
/// lock-time bytes remain.
proof fn lemma_deserialize_tail(
    b: Seq<u8>,
    tv: TransactionView,
    parsed_inputs: Seq<TxInView>,
    parsed_outputs: Seq<TxOutView>,
    n_in: u64,
    n_out: u64,
    p1: int,
    in_end: int,
    p3: int,
    out_end: int,
)
    requires
        canonical_tx_bytes(b, tv),
        valid_varint_at(b, 4, n_in),
        p1 == 4 + spec_varint(n_in).len(),
        parsed_inputs.len() == n_in,
        forall|j: int| 0 <= j < parsed_inputs.len() ==> wf_txin(#[trigger] parsed_inputs[j]),
        spec_ser_inputs(parsed_inputs) == b.subrange(p1, in_end),
        p1 <= in_end <= b.len(),
        valid_varint_at(b, in_end, n_out),
        p3 == in_end + spec_varint(n_out).len(),
        parsed_outputs.len() == n_out,
        forall|j: int| 0 <= j < parsed_outputs.len() ==> wf_txout(#[trigger] parsed_outputs[j]),
        spec_ser_outputs(parsed_outputs) == b.subrange(p3, out_end),
        p3 <= out_end <= b.len(),
    ensures
        b.len() == out_end + 4,
        b.skip(out_end) == spec_u32_to_le_bytes(tv.lock_time),
{
    lemma_canonical_tx_facts(b, tv);
    lemma_varint_at_unique(b, 4, n_in, tv.inputs.len() as u64);
    lemma_canonical_after_inputs(b, tv, parsed_inputs, p1, in_end);
    lemma_varint_at_unique(b, in_end, n_out, tv.outputs.len() as u64);
    let lt_tail = spec_u32_to_le_bytes(tv.lock_time);
    lemma_skip_peel(
        b,
        in_end,
        spec_varint(tv.outputs.len() as u64),
        spec_ser_outputs(tv.outputs) + lt_tail,
    );
    assert(b.skip(p3) == spec_ser_outputs(tv.outputs) + lt_tail);
    assert(b.skip(p3) =~= b.subrange(p3, out_end) + b.skip(out_end));
    lemma_ser_outputs_take_prefix(parsed_outputs, b.skip(out_end), tv.outputs, lt_tail);
    assert(tv.outputs.skip(parsed_outputs.len() as int) =~= Seq::<TxOutView>::empty());
    assert(spec_ser_outputs(Seq::<TxOutView>::empty()) =~= Seq::<u8>::empty());
    assert(b.skip(out_end) =~= lt_tail);
    lemma_auto_spec_u32_to_from_le_bytes();
    assert(b.skip(out_end).len() == b.len() - out_end);
}

/// Deserializes canonical transaction bytes. Decoding accepts a byte
/// string exactly when it is the canonical encoding of a well-formed
/// transaction, and then returns that transaction: together with
/// `serialize_tx`, the round trip gives back what was serialized,
/// unchanged, for every well-formed transaction.
#[verifier::loop_isolation(false)]
#[verifier::rlimit(80)]
#[verifier::spinoff_prover]
pub fn deserialize_tx(bytes: &Vec<u8>) -> (r: Result<Transaction, Error>)
    ensures
        r matches Ok(t) ==> wf_tx(t@) && spec_ser_tx(t@) == bytes@,
        r matches Err(e) ==> e == Error::InvalidEncoding,
        forall|tv: TransactionView| #[trigger] canonical_tx_bytes(bytes@, tv) ==> (r matches Ok(t2)
            && t2@ == tv),
{
    let bs: &[u8] = bytes.as_slice();
    let (version, p0) = match read_u32_le(bs, 0) {
        Ok(x) => x,
        Err(e) => {
            proof {
                assert forall|tv: TransactionView| !#[trigger] canonical_tx_bytes(bytes@, tv) by {
                    if canonical_tx_bytes(bytes@, tv) {
                        lemma_canonical_tx_facts(bytes@, tv);
                    }
                }
            }
            return Err(e);
        },
    };
    let (n_in, p1) = match read_varint(bs, p0) {
        Ok(x) => x,
        Err(e) => {
            proof {
                assert forall|tv: TransactionView| !#[trigger] canonical_tx_bytes(bytes@, tv) by {
                    if canonical_tx_bytes(bytes@, tv) {
                        lemma_canonical_tx_facts(bytes@, tv);
                    }
                }
            }
            return Err(e);
        },
    };
    if n_in > bs.len() as u64 {
        proof {
            assert forall|tv: TransactionView| !#[trigger] canonical_tx_bytes(bytes@, tv) by {
                if canonical_tx_bytes(bytes@, tv) {
                    lemma_canonical_tx_facts(bytes@, tv);
                    lemma_varint_at_unique(bytes@, 4, n_in, tv.inputs.len() as u64);
                    lemma_ser_inputs_min_len(tv.inputs);
                    assert(tv.inputs.len() <= bytes@.len());
                }
            }
        }
        return Err(Error::InvalidEncoding);
    }
    let mut inputs: Vec<TxIn> = Vec::new();
    let mut pos: usize = p1;
    let mut i: u64 = 0;
    proof {
        assert(inputs@.map_values(|t: TxIn| t@) =~= Seq::<TxInView>::empty());
        assert(spec_ser_inputs(Seq::<TxInView>::empty()) =~= Seq::<u8>::empty());
        assert(bs@.subrange(p1 as int, pos as int) =~= Seq::<u8>::empty());
    }
    while i < n_in
        invariant
            i <= n_in,
            inputs@.len() == i,
            p1 <= pos <= bs@.len(),
            forall|j: int| 0 <= j < inputs@.len() ==> wf_txin((#[trigger] inputs@[j])@),
            spec_ser_inputs(inputs@.map_values(|t: TxIn| t@)) == bs@.subrange(
                p1 as int,
                pos as int,
            ),
        decreases n_in - i,
    {
        let ghost prev = inputs@.map_values(|t: TxIn| t@);
        let ghost prev_pos = pos;
        let (txin, p2) = match read_txin(bs, pos) {
            Ok(x) => x,
            Err(e) => {
                proof {
                    assert forall|tv: TransactionView| !#[trigger] canonical_tx_bytes(
                        bytes@,
                        tv,
                    ) by {
                        if canonical_tx_bytes(bytes@, tv) {
                            lemma_canonical_tx_facts(bytes@, tv);
                            lemma_varint_at_unique(bytes@, 4, n_in, tv.inputs.len() as u64);
                            let tail = spec_varint(tv.outputs.len() as u64) + (spec_ser_outputs(
                                tv.outputs,
                            ) + spec_u32_to_le_bytes(tv.lock_time));
                            assert(bytes@.skip(p1 as int) == spec_ser_inputs(tv.inputs) + tail);
                            let parsed = inputs@.map_values(|t: TxIn| t@);
                            assert forall|j: int| 0 <= j < parsed.len() implies wf_txin(
                                #[trigger] parsed[j],
                            ) by {
                                assert(parsed[j] == inputs@[j]@);
                            }
                            assert(bytes@.skip(p1 as int) =~= bytes@.subrange(
                                p1 as int,
                                pos as int,
                            ) + bytes@.skip(pos as int));
                            lemma_ser_inputs_take_prefix(
                                parsed,
                                bytes@.skip(pos as int),
                                tv.inputs,
                                tail,
                            );
                            let restlist = tv.inputs.skip(i as int);
                            assert(restlist.len() > 0);
                            assert(restlist[0] == tv.inputs[i as int]);
                            assert(bytes@.skip(pos as int) =~= spec_ser_txin(tv.inputs[i as int])
                                + (spec_ser_inputs(restlist.drop_first()) + tail));
                            assert(txin_at(
                                bytes@,
                                pos as int,
                                tv.inputs[i as int],
                                spec_ser_inputs(restlist.drop_first()) + tail,
                            ));
                        }
                    }
                }
                return Err(e);
            },
        };
        inputs.push(txin);
        proof {
            assert(inputs@.map_values(|t: TxIn| t@) =~= prev + seq![txin@]);
            lemma_ser_inputs_concat(prev, seq![txin@]);
            assert(seq![txin@].drop_first() =~= Seq::<TxInView>::empty());
            assert(spec_ser_inputs(Seq::<TxInView>::empty()) =~= Seq::<u8>::empty());
            assert(spec_ser_inputs(seq![txin@]) =~= spec_ser_txin(txin@));
            assert(bs@.subrange(p1 as int, p2 as int) =~= bs@.subrange(p1 as int, prev_pos as int)
                + bs@.subrange(prev_pos as int, p2 as int));
            assert(spec_ser_inputs(inputs@.map_values(|t: TxIn| t@)) =~= bs@.subrange(
                p1 as int,
                p2 as int,
            ));
        }
        pos = p2;
        i = i + 1;
    }
    let in_end: usize = pos;
    let ghost parsed_inputs = inputs@.map_values(|t: TxIn| t@);
    proof {
        assert forall|j: int| 0 <= j < parsed_inputs.len() implies wf_txin(
            #[trigger] parsed_inputs[j],
        ) by {
            assert(parsed_inputs[j] == inputs@[j]@);
        }
    }
    let (n_out, p3) = match read_varint(bs, in_end) {
        Ok(x) => x,
        Err(e) => {
            proof {
                assert forall|tv: TransactionView| !#[trigger] canonical_tx_bytes(bytes@, tv) by {
                    if canonical_tx_bytes(bytes@, tv) {
                        lemma_canonical_tx_facts(bytes@, tv);
                        lemma_varint_at_unique(bytes@, 4, n_in, tv.inputs.len() as u64);
                        lemma_canonical_after_inputs(
                            bytes@,
                            tv,
                            parsed_inputs,
                            p1 as int,
                            in_end as int,
                        );
                    }
                }
            }
            return Err(e);
        },
    };
    if n_out > bs.len() as u64 {
        proof {
            assert forall|tv: TransactionView| !#[trigger] canonical_tx_bytes(bytes@, tv) by {
                if canonical_tx_bytes(bytes@, tv) {
                    lemma_canonical_tx_facts(bytes@, tv);
                    lemma_varint_at_unique(bytes@, 4, n_in, tv.inputs.len() as u64);
                    lemma_canonical_after_inputs(
                        bytes@,
                        tv,
                        parsed_inputs,
                        p1 as int,
                        in_end as int,
                    );
                    lemma_varint_at_unique(bytes@, in_end as int, n_out, tv.outputs.len() as u64);
                    lemma_ser_outputs_min_len(tv.outputs);
                    assert(tv.outputs.len() <= bytes@.len());
                }
            }
        }
        return Err(Error::InvalidEncoding);
    }
    let mut outputs: Vec<TxOut> = Vec::new();
    let mut pos2: usize = p3;
    let mut k: u64 = 0;
    proof {
        assert(outputs@.map_values(|t: TxOut| t@) =~= Seq::<TxOutView>::empty());
        assert(spec_ser_outputs(Seq::<TxOutView>::empty()) =~= Seq::<u8>::empty());
        assert(bs@.subrange(p3 as int, pos2 as int) =~= Seq::<u8>::empty());
    }
    while k < n_out
        invariant
            k <= n_out,
            outputs@.len() == k,
            p3 <= pos2 <= bs@.len(),
            forall|j: int| 0 <= j < outputs@.len() ==> wf_txout((#[trigger] outputs@[j])@),
            spec_ser_outputs(outputs@.map_values(|t: TxOut| t@)) == bs@.subrange(
                p3 as int,
                pos2 as int,
            ),
        decreases n_out - k,
    {
        let ghost prev = outputs@.map_values(|t: TxOut| t@);
        let ghost prev_pos = pos2;
        let (txout, p4) = match read_txout(bs, pos2) {
            Ok(x) => x,
            Err(e) => {
                proof {
                    assert forall|tv: TransactionView| !#[trigger] canonical_tx_bytes(
                        bytes@,
                        tv,
                    ) by {
                        if canonical_tx_bytes(bytes@, tv) {
                            lemma_canonical_tx_facts(bytes@, tv);
                            lemma_varint_at_unique(bytes@, 4, n_in, tv.inputs.len() as u64);
                            lemma_canonical_after_inputs(
                                bytes@,
                                tv,
                                parsed_inputs,
                                p1 as int,
                                in_end as int,
                            );
                            lemma_varint_at_unique(
                                bytes@,
                                in_end as int,
                                n_out,
                                tv.outputs.len() as u64,
                            );
                            let lt_tail = spec_u32_to_le_bytes(tv.lock_time);
                            lemma_skip_peel(
                                bytes@,
                                in_end as int,
                                spec_varint(tv.outputs.len() as u64),
                                spec_ser_outputs(tv.outputs) + lt_tail,
                            );
                            assert(bytes@.skip(p3 as int) == spec_ser_outputs(tv.outputs)
                                + lt_tail);
                            let parsedo = outputs@.map_values(|t: TxOut| t@);
                            assert forall|j: int| 0 <= j < parsedo.len() implies wf_txout(
                                #[trigger] parsedo[j],
                            ) by {
                                assert(parsedo[j] == outputs@[j]@);
                            }
                            assert(bytes@.skip(p3 as int) =~= bytes@.subrange(
                                p3 as int,
                                pos2 as int,
                            ) + bytes@.skip(pos2 as int));
                            lemma_ser_outputs_take_prefix(
                                parsedo,
                                bytes@.skip(pos2 as int),
                                tv.outputs,
                                lt_tail,
                            );
                            let restlist = tv.outputs.skip(k as int);
                            assert(restlist.len() > 0);
                            assert(restlist[0] == tv.outputs[k as int]);
                            assert(bytes@.skip(pos2 as int) =~= spec_ser_txout(
                                tv.outputs[k as int],
                            ) + (spec_ser_outputs(restlist.drop_first()) + lt_tail));
                            assert(txout_at(
                                bytes@,
                                pos2 as int,
                                tv.outputs[k as int],
                                spec_ser_outputs(restlist.drop_first()) + lt_tail,
                            ));
                        }
                    }
                }
                return Err(e);
            },
        };
        outputs.push(txout);
        proof {
            assert(outputs@.map_values(|t: TxOut| t@) =~= prev + seq![txout@]);
            lemma_ser_outputs_concat(prev, seq![txout@]);
            assert(seq![txout@].drop_first() =~= Seq::<TxOutView>::empty());
            assert(spec_ser_outputs(Seq::<TxOutView>::empty()) =~= Seq::<u8>::empty());
            assert(spec_ser_outputs(seq![txout@]) =~= spec_ser_txout(txout@));
            assert(bs@.subrange(p3 as int, p4 as int) =~= bs@.subrange(p3 as int, prev_pos as int)
                + bs@.subrange(prev_pos as int, p4 as int));
            assert(spec_ser_outputs(outputs@.map_values(|t: TxOut| t@)) =~= bs@.subrange(
                p3 as int,
                p4 as int,
            ));
        }
        pos2 = p4;
        k = k + 1;
    }
    let out_end: usize = pos2;
    let ghost parsed_outputs = outputs@.map_values(|t: TxOut| t@);
    proof {
        assert forall|j: int| 0 <= j < parsed_outputs.len() implies wf_txout(
            #[trigger] parsed_outputs[j],
        ) by {
            assert(parsed_outputs[j] == outputs@[j]@);
        }
    }
    let (lock_time, p5) = match read_u32_le(bs, out_end) {
        Ok(x) => x,
        Err(e) => {
            proof {
                assert forall|tv: TransactionView| !#[trigger] canonical_tx_bytes(bytes@, tv) by {
                    if canonical_tx_bytes(bytes@, tv) {
                        lemma_deserialize_tail(
                            bytes@,
                            tv,
                            parsed_inputs,
                            parsed_outputs,
                            n_in,
                            n_out,
                            p1 as int,
                            in_end as int,
                            p3 as int,
                            out_end as int,
                        );
                    }
                }
            }
            return Err(e);
        },
    };
    if p5 != bytes.len() {
        proof {
            assert forall|tv: TransactionView| !#[trigger] canonical_tx_bytes(bytes@, tv) by {
                if canonical_tx_bytes(bytes@, tv) {
                    lemma_deserialize_tail(
                        bytes@,
                        tv,
                        parsed_inputs,
                        parsed_outputs,
                        n_in,
                        n_out,
                        p1 as int,
                        in_end as int,
                        p3 as int,
                        out_end as int,
                    );
                }
            }
        }
        return Err(Error::InvalidEncoding);
    }
    let t = Transaction { version, lock_time, input: inputs, output: outputs };
    proof {
        assert(t@.inputs.len() == n_in && t@.outputs.len() == n_out);
        assert forall|j: int| 0 <= j < t@.inputs.len() implies wf_txin(#[trigger] t@.inputs[j]) by {
            assert(t@.inputs[j] == inputs@[j]@);
        }
        assert forall|j: int| 0 <= j < t@.outputs.len() implies wf_txout(
            #[trigger] t@.outputs[j],
        ) by {
            assert(t@.outputs[j] == outputs@[j]@);
        }
        assert(bs@ =~= bs@.subrange(0, p0 as int) + bs@.subrange(p0 as int, p1 as int)
            + bs@.subrange(p1 as int, in_end as int) + bs@.subrange(in_end as int, p3 as int)
            + bs@.subrange(p3 as int, out_end as int) + bs@.subrange(out_end as int, p5 as int));
        assert(spec_ser_tx(t@) =~= bytes@);
        assert forall|tv: TransactionView| #[trigger] canonical_tx_bytes(bytes@, tv) implies t@
            == tv by {
            lemma_tx_encoding_injective(tv, t@);
        }
    }
    Ok(t)
}

/// One encoded input determines the input and the bytes after it.
proof fn lemma_ser_txin_prefix(a: TxInView, x: Seq<u8>, b: TxInView, y: Seq<u8>)
    requires
        wf_txin(a),
        wf_txin(b),
        spec_ser_txin(a) + x == spec_ser_txin(b) + y,
    ensures
        a == b,
        x == y,
{
    lemma_auto_spec_u32_to_from_le_bytes();
    let ra = spec_u32_to_le_bytes(a.prev_vout) + (spec_varint(a.script_sig.len() as u64)
        + (a.script_sig + (spec_u32_to_le_bytes(a.sequence) + x)));
    let rb = spec_u32_to_le_bytes(b.prev_vout) + (spec_varint(b.script_sig.len() as u64)
        + (b.script_sig + (spec_u32_to_le_bytes(b.sequence) + y)));
    assert(spec_ser_txin(a) + x =~= a.prev_txid + ra);
    assert(spec_ser_txin(b) + y =~= b.prev_txid + rb);
    lemma_concat_split(a.prev_txid, ra, b.prev_txid, rb);
    lemma_concat_split(
        spec_u32_to_le_bytes(a.prev_vout),
        spec_varint(a.script_sig.len() as u64) + (a.script_sig + (spec_u32_to_le_bytes(a.sequence)
            + x)),
        spec_u32_to_le_bytes(b.prev_vout),
        spec_varint(b.script_sig.len() as u64) + (b.script_sig + (spec_u32_to_le_bytes(b.sequence)
            + y)),
    );
    lemma_u32_le_inj(a.prev_vout, b.prev_vout);
    lemma_varint_prefix(
        a.script_sig.len() as u64,
        a.script_sig + (spec_u32_to_le_bytes(a.sequence) + x),
        b.script_sig.len() as u64,
        b.script_sig + (spec_u32_to_le_bytes(b.sequence) + y),
    );
    assert(a.script_sig.len() == b.script_sig.len());
    lemma_concat_split(
        a.script_sig,
        spec_u32_to_le_bytes(a.sequence) + x,
        b.script_sig,
        spec_u32_to_le_bytes(b.sequence) + y,
    );
    lemma_concat_split(spec_u32_to_le_bytes(a.sequence), x, spec_u32_to_le_bytes(b.sequence), y);
    lemma_u32_le_inj(a.sequence, b.sequence);
    assert(a =~= b);
}

/// One encoded output determines the output and the bytes after it.
proof fn lemma_ser_txout_prefix(a: TxOutView, x: Seq<u8>, b: TxOutView, y: Seq<u8>)
    requires
        wf_txout(a),
        wf_txout(b),
        spec_ser_txout(a) + x == spec_ser_txout(b) + y,
    ensures
        a == b,
        x == y,
{
    lemma_auto_spec_u64_to_from_le_bytes();
    let ra = spec_varint(a.script_pubkey.len() as u64) + (a.script_pubkey + x);
    let rb = spec_varint(b.script_pubkey.len() as u64) + (b.script_pubkey + y);
    assert(spec_ser_txout(a) + x =~= spec_u64_to_le_bytes(a.value) + ra);
    assert(spec_ser_txout(b) + y =~= spec_u64_to_le_bytes(b.value) + rb);
    lemma_concat_split(spec_u64_to_le_bytes(a.value), ra, spec_u64_to_le_bytes(b.value), rb);
    lemma_u64_le_inj(a.value, b.value);
    lemma_varint_prefix(
        a.script_pubkey.len() as u64,
        a.script_pubkey + x,
        b.script_pubkey.len() as u64,
        b.script_pubkey + y,
    );
    assert(a.script_pubkey.len() == b.script_pubkey.len());
    lemma_concat_split(a.script_pubkey, x, b.script_pubkey, y);
    assert(a =~= b);
}

/// An encoded input list of known length determines the list and the
/// bytes after it.
proof fn lemma_ser_inputs_prefix(s1: Seq<TxInView>, x: Seq<u8>, s2: Seq<TxInView>, y: Seq<u8>)
    requires
        s1.len() == s2.len(),
        forall|j: int| 0 <= j < s1.len() ==> wf_txin(#[trigger] s1[j]),
        forall|j: int| 0 <= j < s2.len() ==> wf_txin(#[trigger] s2[j]),
        spec_ser_inputs(s1) + x == spec_ser_inputs(s2) + y,
    ensures
        s1 == s2,
        x == y,
    decreases s1.len(),
{
    if s1.len() == 0 {
        assert(spec_ser_inputs(s1) =~= Seq::<u8>::empty());
        assert(spec_ser_inputs(s2) =~= Seq::<u8>::empty());
        lemma_concat_split(spec_ser_inputs(s1), x, spec_ser_inputs(s2), y);
        assert(s1 =~= s2);
    } else {
        assert(spec_ser_inputs(s1) + x =~= spec_ser_txin(s1[0]) + (spec_ser_inputs(s1.drop_first())
            + x));
        assert(spec_ser_inputs(s2) + y =~= spec_ser_txin(s2[0]) + (spec_ser_inputs(s2.drop_first())
            + y));
        lemma_ser_txin_prefix(
            s1[0],
            spec_ser_inputs(s1.drop_first()) + x,
            s2[0],
            spec_ser_inputs(s2.drop_first()) + y,
        );
        assert forall|j: int| 0 <= j < s1.drop_first().len() implies wf_txin(
            #[trigger] s1.drop_first()[j],
        ) by {
            assert(s1.drop_first()[j] == s1[j + 1]);
        }
        assert forall|j: int| 0 <= j < s2.drop_first().len() implies wf_txin(
            #[trigger] s2.drop_first()[j],
        ) by {
            assert(s2.drop_first()[j] == s2[j + 1]);
        }
        lemma_ser_inputs_prefix(s1.drop_first(), x, s2.drop_first(), y);
        assert forall|j: int| 0 <= j < s1.len() implies s1[j] == s2[j] by {
            if j > 0 {
                assert(s1.drop_first()[j - 1] == s1[j]);
                assert(s2.drop_first()[j - 1] == s2[j]);
            }
        }
        assert(s1 =~= s2);
    }
}

/// An encoded output list of known length determines the list and the
/// bytes after it.
proof fn lemma_ser_outputs_prefix(s1: Seq<TxOutView>, x: Seq<u8>, s2: Seq<TxOutView>, y: Seq<u8>)
    requires
        s1.len() == s2.len(),
        forall|j: int| 0 <= j < s1.len() ==> wf_txout(#[trigger] s1[j]),
        forall|j: int| 0 <= j < s2.len() ==> wf_txout(#[trigger] s2[j]),
        spec_ser_outputs(s1) + x == spec_ser_outputs(s2) + y,
    ensures
        s1 == s2,
        x == y,
    decreases s1.len(),
{
    if s1.len() == 0 {
        assert(spec_ser_outputs(s1) =~= Seq::<u8>::empty());
        assert(spec_ser_outputs(s2) =~= Seq::<u8>::empty());
        lemma_concat_split(spec_ser_outputs(s1), x, spec_ser_outputs(s2), y);
        assert(s1 =~= s2);
    } else {
        assert(spec_ser_outputs(s1) + x =~= spec_ser_txout(s1[0]) + (spec_ser_outputs(
            s1.drop_first(),
        ) + x));
        assert(spec_ser_outputs(s2) + y =~= spec_ser_txout(s2[0]) + (spec_ser_outputs(
            s2.drop_first(),
        ) + y));
        lemma_ser_txout_prefix(
            s1[0],
            spec_ser_outputs(s1.drop_first()) + x,
            s2[0],
            spec_ser_outputs(s2.drop_first()) + y,
        );
        assert forall|j: int| 0 <= j < s1.drop_first().len() implies wf_txout(
            #[trigger] s1.drop_first()[j],
        ) by {
            assert(s1.drop_first()[j] == s1[j + 1]);
        }
        assert forall|j: int| 0 <= j < s2.drop_first().len() implies wf_txout(
            #[trigger] s2.drop_first()[j],
        ) by {
            assert(s2.drop_first()[j] == s2[j + 1]);
        }
        lemma_ser_outputs_prefix(s1.drop_first(), x, s2.drop_first(), y);
        assert forall|j: int| 0 <= j < s1.len() implies s1[j] == s2[j] by {
            if j > 0 {
                assert(s1.drop_first()[j - 1] == s1[j]);
                assert(s2.drop_first()[j - 1] == s2[j]);
            }
        }
        assert(s1 =~= s2);
    }
}

/// The canonical encoding is injective on well-formed transactions:
/// transactions with the same bytes are the same transaction. Together
/// with the contracts of `serialize_tx` and `deserialize_tx`, decoding
/// the encoding of any well-formed transaction gives that transaction
/// back unchanged.
#[verifier::rlimit(80)]
#[verifier::spinoff_prover]
pub proof fn lemma_tx_encoding_injective(t1: TransactionView, t2: TransactionView)
    requires
        wf_tx(t1),
        wf_tx(t2),
        spec_ser_tx(t1) == spec_ser_tx(t2),
    ensures
        t1 == t2,
{
    lemma_auto_spec_u32_to_from_le_bytes();
    let ra = spec_varint(t1.inputs.len() as u64) + (spec_ser_inputs(t1.inputs) + (spec_varint(
        t1.outputs.len() as u64,
    ) + (spec_ser_outputs(t1.outputs) + spec_u32_to_le_bytes(t1.lock_time))));
    let rb = spec_varint(t2.inputs.len() as u64) + (spec_ser_inputs(t2.inputs) + (spec_varint(
        t2.outputs.len() as u64,
    ) + (spec_ser_outputs(t2.outputs) + spec_u32_to_le_bytes(t2.lock_time))));
    assert(spec_ser_tx(t1) =~= spec_u32_to_le_bytes(t1.version) + ra);
    assert(spec_ser_tx(t2) =~= spec_u32_to_le_bytes(t2.version) + rb);
    lemma_concat_split(spec_u32_to_le_bytes(t1.version), ra, spec_u32_to_le_bytes(t2.version), rb);
    lemma_u32_le_inj(t1.version, t2.version);
    lemma_varint_prefix(
        t1.inputs.len() as u64,
        spec_ser_inputs(t1.inputs) + (spec_varint(t1.outputs.len() as u64) + (spec_ser_outputs(
            t1.outputs,
        ) + spec_u32_to_le_bytes(t1.lock_time))),
        t2.inputs.len() as u64,
        spec_ser_inputs(t2.inputs) + (spec_varint(t2.outputs.len() as u64) + (spec_ser_outputs(
            t2.outputs,
        ) + spec_u32_to_le_bytes(t2.lock_time))),
    );
    assert(t1.inputs.len() == t2.inputs.len());
    lemma_ser_inputs_prefix(
        t1.inputs,
        spec_varint(t1.outputs.len() as u64) + (spec_ser_outputs(t1.outputs)
            + spec_u32_to_le_bytes(t1.lock_time)),
        t2.inputs,
        spec_varint(t2.outputs.len() as u64) + (spec_ser_outputs(t2.outputs)
            + spec_u32_to_le_bytes(t2.lock_time)),
    );
    lemma_varint_prefix(
        t1.outputs.len() as u64,
        spec_ser_outputs(t1.outputs) + spec_u32_to_le_bytes(t1.lock_time),
        t2.outputs.len() as u64,
        spec_ser_outputs(t2.outputs) + spec_u32_to_le_bytes(t2.lock_time),
    );
    assert(t1.outputs.len() == t2.outputs.len());
    lemma_ser_outputs_prefix(
        t1.outputs,
        spec_u32_to_le_bytes(t1.lock_time),
        t2.outputs,
        spec_u32_to_le_bytes(t2.lock_time),
    );
    lemma_u32_le_inj(t1.lock_time, t2.lock_time);
    assert(t1 =~= t2);
}

} // verus!
