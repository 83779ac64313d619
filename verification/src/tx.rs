//! The transaction record, its builder, and the executable codec.
//!
//! `LegacyTransaction::decode` turns a byte buffer into a record exactly
//! when the strict model parser [`crate::wire::parse_tx`] accepts the
//! buffer, and `serialize` produces exactly the bytes of
//! [`crate::wire::enc_tx`]; the laws proved in [`crate::wire`] then carry
//! over to the executable codec through these contracts.

use crate::errors::BitcoinError;
use crate::primitives::read_i32_le;
use crate::primitives::read_u32_le;
use crate::primitives::read_u64_le;
use crate::primitives::spec_i32_to_le_bytes;
use crate::primitives::write_bytes;
use crate::primitives::write_i32_le;
use crate::primitives::write_u32_le;
use crate::primitives::write_u64_le;
use crate::varint::decode_varint;
use crate::varint::spec_varint;
use crate::varint::write_varint;
use crate::wire::enc_input;
use crate::wire::enc_inputs;
use crate::wire::enc_output;
use crate::wire::enc_outputs;
use crate::wire::enc_tx;
use crate::wire::lemma_enc_inputs_snoc;
use crate::wire::lemma_enc_outputs_snoc;
use crate::wire::lemma_parse_inputs_split;
use crate::wire::lemma_parse_outputs_split;
use crate::wire::lemma_round_trip;
use crate::wire::parse_input;
use crate::wire::parse_inputs;
use crate::wire::parse_output;
use crate::wire::parse_outputs;
use crate::wire::parse_tx;
use crate::wire::InputModel;
use crate::wire::OutPointModel;
use crate::wire::OutputModel;
use crate::wire::TxModel;
use vstd::prelude::*;
use vstd::slice::slice_subrange;
use vstd::slice::slice_to_vec;

verus! {

broadcast use {vstd::array::group_array_axioms, vstd::std_specs::vec::group_vec_axioms};

/// A reference to a previously created output: a 32-byte transaction
/// identifier and the index of the output within that transaction.
#[derive(Debug, Clone, PartialEq)]
pub struct OutPoint {
    pub txid: [u8; 32],
    pub vout: u32,
}

impl View for OutPoint {
    type V = OutPointModel;

    open spec fn view(&self) -> OutPointModel {
        OutPointModel { txid: self.txid@, vout: self.vout }
    }
}

impl DeepView for OutPoint {
    type V = OutPointModel;

    open spec fn deep_view(&self) -> OutPointModel {
        self.view()
    }
}

/// One transaction input: the outpoint it spends, an opaque unlocking
/// script, and the sequence number.
#[derive(Debug, Clone, PartialEq)]
pub struct TxInput {
    pub previous_output: OutPoint,
    pub script_sig: Vec<u8>,
    pub sequence: u32,
}

impl View for TxInput {
    type V = InputModel;

    open spec fn view(&self) -> InputModel {
        InputModel {
            previous_output: self.previous_output.view(),
            script_sig: self.script_sig.view(),
            sequence: self.sequence,
        }
    }
}

impl DeepView for TxInput {
    type V = InputModel;

    open spec fn deep_view(&self) -> InputModel {
        self.view()
    }
}

/// One transaction output: a value in the smallest currency unit and an
/// opaque locking script.
#[derive(Debug, Clone, PartialEq)]
pub struct TxOutput {
    pub value: u64,
    pub script_pubkey: Vec<u8>,
}

impl View for TxOutput {
    type V = OutputModel;

    open spec fn view(&self) -> OutputModel {
        OutputModel { value: self.value, script_pubkey: self.script_pubkey.view() }
    }
}

impl DeepView for TxOutput {
    type V = OutputModel;

    open spec fn deep_view(&self) -> OutputModel {
        self.view()
    }
}

/// A legacy (pre-segwit) transaction record.
#[derive(Debug, Clone, PartialEq)]
pub struct LegacyTransaction {
    pub version: i32,
    pub inputs: Vec<TxInput>,
    pub outputs: Vec<TxOutput>,
    pub lock_time: u32,
}

impl View for LegacyTransaction {
    type V = TxModel;

    open spec fn view(&self) -> TxModel {
        TxModel {
            version: self.version,
            inputs: self.inputs.deep_view(),
            outputs: self.outputs.deep_view(),
            lock_time: self.lock_time,
        }
    }
}

/// Every transaction value models a well-formed transaction: identifiers
/// are 32 bytes by type and every list or script length fits an unsigned
/// 64-bit count.
pub proof fn lemma_view_wf(tx: LegacyTransaction)
    ensures
        tx.view().wf(),
{
    assert forall|i: int| 0 <= i < tx.view().inputs.len() implies (
    #[trigger] tx.view().inputs[i]).wf() by {
        assert(tx.view().inputs[i] == tx.inputs@[i].view());
        let sv = tx.inputs@[i].script_sig;
        assert(sv@.len() == vstd::std_specs::vec::spec_vec_len(&sv));
    }
    assert forall|i: int| 0 <= i < tx.view().outputs.len() implies (
    #[trigger] tx.view().outputs[i]).wf() by {
        assert(tx.view().outputs[i] == tx.outputs@[i].view());
        let sv = tx.outputs@[i].script_pubkey;
        assert(sv@.len() == vstd::std_specs::vec::spec_vec_len(&sv));
    }
    assert(tx.view().inputs.len() == vstd::std_specs::vec::spec_vec_len(&tx.inputs));
    assert(tx.view().outputs.len() == vstd::std_specs::vec::spec_vec_len(&tx.outputs));
}

/// Round trip: the wire bytes of any transaction value parse back to
/// exactly its model.
pub proof fn lemma_tx_round_trip(tx: LegacyTransaction)
    ensures
        parse_tx(enc_tx(tx.view())) == Some(tx.view()),
{
    lemma_view_wf(tx);
    lemma_round_trip(tx.view());
}

/// Decodes one input at `offset`.
fn decode_input(data: &[u8], offset: usize) -> (r: Result<(TxInput, usize), BitcoinError>)
    ensures
        match r {
            Ok(p) => {
                &&& parse_input(data@, offset as int) == Some((p.0.view(), p.1 as int))
                &&& offset <= p.1 <= data@.len()
            },
            Err(e) => {
                &&& parse_input(data@, offset as int) is None
                &&& e == BitcoinError::InvalidTransaction
            },
        },
{
    if data.len() < 36 || offset > data.len() - 36 {
        return Err(BitcoinError::InvalidTransaction);
    }
    let mut txid = [0u8; 32];
    let mut j: usize = 0;
    while j < 32
        invariant
            j <= 32,
            offset + 36 <= data@.len(),
            data@.len() <= usize::MAX,
            forall|t: int| 0 <= t < j ==> txid@[t] == data@[offset + t],
        decreases 32 - j,
    {
        txid[j] = data[offset + j];
        j = j + 1;
    }
    assert(txid@ =~= data@.subrange(offset as int, offset as int + 32));
    let vout = match read_u32_le(data, offset + 32) {
        Ok(v) => v,
        Err(_) => {
            return Err(BitcoinError::InvalidTransaction);
        },
    };
    let (slen, vlen) = match decode_varint(data, offset + 36) {
        Ok(p) => p,
        Err(_) => {
            return Err(BitcoinError::InvalidTransaction);
        },
    };
    let o2 = offset + 36 + vlen;
    if slen > (data.len() - o2) as u64 {
        return Err(BitcoinError::InvalidTransaction);
    }
    let sl = slen as usize;
    if data.len() - o2 - sl < 4 {
        return Err(BitcoinError::InvalidTransaction);
    }
    let script_sig = slice_to_vec(slice_subrange(data, o2, o2 + sl));
    let sequence = match read_u32_le(data, o2 + sl) {
        Ok(v) => v,
        Err(_) => {
            return Err(BitcoinError::InvalidTransaction);
        },
    };
    let input = TxInput { previous_output: OutPoint { txid, vout }, script_sig, sequence };
    Ok((input, o2 + sl + 4))
}

/// Decodes `n` inputs in sequence starting at `offset`.
fn decode_inputs(data: &[u8], offset: usize, n: u64) -> (r: Result<
    (Vec<TxInput>, usize),
    BitcoinError,
>)
    requires
        offset <= data@.len(),
    ensures
        match r {
            Ok(p) => {
                &&& parse_inputs(data@, offset as int, n as nat) == Some(
                    (p.0.deep_view(), p.1 as int),
                )
                &&& offset <= p.1 <= data@.len()
            },
            Err(e) => {
                &&& parse_inputs(data@, offset as int, n as nat) is None
                &&& e == BitcoinError::InvalidTransaction
            },
        },
{
    let mut out: Vec<TxInput> = Vec::new();
    let mut cur = offset;
    let mut i: u64 = 0;
    while i < n
        invariant
            i <= n,
            offset <= cur <= data@.len(),
            parse_inputs(data@, offset as int, i as nat) == Some((out.deep_view(), cur as int)),
        decreases n - i,
    {
        match decode_input(data, cur) {
            Ok((inp, nxt)) => {
                proof {
                    lemma_parse_inputs_split(
                        data@,
                        offset as int,
                        i as nat,
                        (i + 1) as nat,
                        out.deep_view(),
                        cur as int,
                    );
                    assert(parse_inputs(data@, nxt as int, 0nat) == Some(
                        (Seq::<InputModel>::empty(), nxt as int),
                    ));
                    assert(seq![inp.view()] + Seq::<InputModel>::empty() =~= seq![inp.view()]);
                    assert(parse_inputs(data@, cur as int, 1nat) == Some(
                        (seq![inp.view()], nxt as int),
                    ));
                    assert(out.deep_view() + seq![inp.view()] =~= out.deep_view().push(
                        inp.view(),
                    ));
                }
                let ghost old_out = out.deep_view();
                out.push(inp);
                proof {
                    assert(out.deep_view() =~= old_out.push(inp.view()));
                }
                cur = nxt;
                i = i + 1;
            },
            Err(_) => {
                proof {
                    lemma_parse_inputs_split(
                        data@,
                        offset as int,
                        i as nat,
                        n as nat,
                        out.deep_view(),
                        cur as int,
                    );
                }
                return Err(BitcoinError::InvalidTransaction);
            },
        }
    }
    Ok((out, cur))
}

/// Decodes one output at `offset`.
fn decode_output(data: &[u8], offset: usize) -> (r: Result<(TxOutput, usize), BitcoinError>)
    ensures
        match r {
            Ok(p) => {
                &&& parse_output(data@, offset as int) == Some((p.0.view(), p.1 as int))
                &&& offset <= p.1 <= data@.len()
            },
            Err(e) => {
                &&& parse_output(data@, offset as int) is None
                &&& e == BitcoinError::InvalidTransaction
            },
        },
{
    let dlen: usize = data.len();
    let value = match read_u64_le(data, offset) {
        Ok(v) => v,
        Err(_) => {
            return Err(BitcoinError::InvalidTransaction);
        },
    };
    let (slen, vlen) = match decode_varint(data, offset + 8) {
        Ok(p) => p,
        Err(_) => {
            return Err(BitcoinError::InvalidTransaction);
        },
    };
    let o2 = offset + 8 + vlen;
    if slen > (dlen - o2) as u64 {
        return Err(BitcoinError::InvalidTransaction);
    }
    let sl = slen as usize;
    let script_pubkey = slice_to_vec(slice_subrange(data, o2, o2 + sl));
    let output = TxOutput { value, script_pubkey };
    Ok((output, o2 + sl))
}

/// Decodes `n` outputs in sequence starting at `offset`.
fn decode_outputs(data: &[u8], offset: usize, n: u64) -> (r: Result<
    (Vec<TxOutput>, usize),
    BitcoinError,
>)
    requires
        offset <= data@.len(),
    ensures
        match r {
            Ok(p) => {
                &&& parse_outputs(data@, offset as int, n as nat) == Some(
                    (p.0.deep_view(), p.1 as int),
                )
                &&& offset <= p.1 <= data@.len()
            },
            Err(e) => {
                &&& parse_outputs(data@, offset as int, n as nat) is None
                &&& e == BitcoinError::InvalidTransaction
            },
        },
{
    let mut out: Vec<TxOutput> = Vec::new();
    let mut cur = offset;
    let mut i: u64 = 0;
    while i < n
        invariant
            i <= n,
            offset <= cur <= data@.len(),
            parse_outputs(data@, offset as int, i as nat) == Some((out.deep_view(), cur as int)),
        decreases n - i,
    {
        match decode_output(data, cur) {
            Ok((outp, nxt)) => {
                proof {
                    lemma_parse_outputs_split(
                        data@,
                        offset as int,
                        i as nat,
                        (i + 1) as nat,
                        out.deep_view(),
                        cur as int,
                    );
                    assert(parse_outputs(data@, nxt as int, 0nat) == Some(
                        (Seq::<OutputModel>::empty(), nxt as int),
                    ));
                    assert(seq![outp.view()] + Seq::<OutputModel>::empty() =~= seq![
                        outp.view(),
                    ]);
                    assert(parse_outputs(data@, cur as int, 1nat) == Some(
                        (seq![outp.view()], nxt as int),
                    ));
                    assert(out.deep_view() + seq![outp.view()] =~= out.deep_view().push(
                        outp.view(),
                    ));
                }
                let ghost old_out = out.deep_view();
                out.push(outp);
                proof {
                    assert(out.deep_view() =~= old_out.push(outp.view()));
                }
                cur = nxt;
                i = i + 1;
            },
            Err(_) => {
                proof {
                    lemma_parse_outputs_split(
                        data@,
                        offset as int,
                        i as nat,
                        n as nat,
                        out.deep_view(),
                        cur as int,
                    );
                }
                return Err(BitcoinError::InvalidTransaction);
            },
        }
    }
    Ok((out, cur))
}

impl LegacyTransaction {
    /// Strict decode: returns the transaction a buffer spells exactly when
    /// the model parser accepts the buffer, and `InvalidTransaction` on any
    /// truncated, malformed or trailing-byte input. All-or-nothing: no
    /// partial record is ever returned.
    pub fn decode(data: &[u8]) -> (r: Result<LegacyTransaction, BitcoinError>)
        ensures
            match r {
                Ok(tx) => parse_tx(data@) == Some(tx.view()),
                Err(e) => {
                    &&& parse_tx(data@) is None
                    &&& e == BitcoinError::InvalidTransaction
                },
            },
    {
        let dlen: usize = data.len();
        let version = match read_i32_le(data, 0) {
            Ok(v) => v,
            Err(_) => {
                return Err(BitcoinError::InvalidTransaction);
            },
        };
        let (icount, ilen) = match decode_varint(data, 4) {
            Ok(p) => p,
            Err(_) => {
                return Err(BitcoinError::InvalidTransaction);
            },
        };
        let o1 = 4 + ilen;
        let (inputs, o2) = match decode_inputs(data, o1, icount) {
            Ok(p) => p,
            Err(_) => {
                return Err(BitcoinError::InvalidTransaction);
            },
        };
        let (ocount, olen) = match decode_varint(data, o2) {
            Ok(p) => p,
            Err(_) => {
                return Err(BitcoinError::InvalidTransaction);
            },
        };
        let o3 = o2 + olen;
        let (outputs, o4) = match decode_outputs(data, o3, ocount) {
            Ok(p) => p,
            Err(_) => {
                return Err(BitcoinError::InvalidTransaction);
            },
        };
        let lock_time = match read_u32_le(data, o4) {
            Ok(v) => v,
            Err(_) => {
                return Err(BitcoinError::InvalidTransaction);
            },
        };
        if o4 + 4 != dlen {
            return Err(BitcoinError::InvalidTransaction);
        }
        Ok(LegacyTransaction { version, inputs, outputs, lock_time })
    }
}

/// Serialization to the wire: a type whose values have one exact byte
/// representation, which `serialize` produces.
pub trait BitcoinSerialize {
    /// The exact byte sequence `serialize` returns.
    spec fn wire_bytes(&self) -> Seq<u8>;

    /// Serializes `self` into its wire bytes.
    fn serialize(&self) -> (r: Vec<u8>)
        ensures
            r@ == self.wire_bytes(),
    ;
}

/// Appends the wire bytes of one input to `out`.
fn write_input(out: &mut Vec<u8>, inp: &TxInput)
    ensures
        final(out)@ == old(out)@ + enc_input(inp.view()),
{
    write_bytes(out, inp.previous_output.txid.as_slice());
    write_u32_le(out, inp.previous_output.vout);
    write_varint(out, inp.script_sig.len() as u64);
    write_bytes(out, inp.script_sig.as_slice());
    write_u32_le(out, inp.sequence);
    assert(out@ =~= old(out)@ + enc_input(inp.view()));
}

/// Appends the wire bytes of one output to `out`.
fn write_output(out: &mut Vec<u8>, outp: &TxOutput)
    ensures
        final(out)@ == old(out)@ + enc_output(outp.view()),
{
    write_u64_le(out, outp.value);
    write_varint(out, outp.script_pubkey.len() as u64);
    write_bytes(out, outp.script_pubkey.as_slice());
    assert(out@ =~= old(out)@ + enc_output(outp.view()));
}

impl BitcoinSerialize for LegacyTransaction {
    /// A transaction's wire bytes are exactly `enc_tx` of its model.
    open spec fn wire_bytes(&self) -> Seq<u8> {
        enc_tx(self.view())
    }

    /// Encodes the transaction: version, input count and inputs, output
    /// count and outputs, lock time, with minimal varints throughout.
    /// Never fails: every in-memory transaction has an encoding.
    fn serialize(&self) -> (r: Vec<u8>) {
        let mut out: Vec<u8> = Vec::new();
        write_i32_le(&mut out, self.version);
        write_varint(&mut out, self.inputs.len() as u64);
        let ghost pre1 = spec_i32_to_le_bytes(self.version) + spec_varint(
            self.inputs@.len() as u64,
        );
        proof {
            assert(out@ =~= pre1 + enc_inputs(self.inputs.deep_view().take(0)));
        }
        let mut i: usize = 0;
        while i < self.inputs.len()
            invariant
                i <= self.inputs@.len(),
                out@ == pre1 + enc_inputs(self.inputs.deep_view().take(i as int)),
            decreases self.inputs@.len() - i,
        {
            write_input(&mut out, &self.inputs[i]);
            proof {
                let dv = self.inputs.deep_view();
                lemma_enc_inputs_snoc(dv.take(i as int), dv[i as int]);
                assert(dv.take(i as int).push(dv[i as int]) =~= dv.take(i as int + 1));
                assert(out@ =~= pre1 + enc_inputs(dv.take(i as int + 1)));
            }
            i = i + 1;
        }
        proof {
            assert(self.inputs.deep_view().take(self.inputs@.len() as int)
                =~= self.inputs.deep_view());
        }
        write_varint(&mut out, self.outputs.len() as u64);
        let ghost pre2 = pre1 + enc_inputs(self.inputs.deep_view()) + spec_varint(
            self.outputs@.len() as u64,
        );
        proof {
            assert(out@ =~= pre2 + enc_outputs(self.outputs.deep_view().take(0)));
        }
        let mut j: usize = 0;
        while j < self.outputs.len()
            invariant
                j <= self.outputs@.len(),
                out@ == pre2 + enc_outputs(self.outputs.deep_view().take(j as int)),
            decreases self.outputs@.len() - j,
        {
            write_output(&mut out, &self.outputs[j]);
            proof {
                let dv = self.outputs.deep_view();
                lemma_enc_outputs_snoc(dv.take(j as int), dv[j as int]);
                assert(dv.take(j as int).push(dv[j as int]) =~= dv.take(j as int + 1));
                assert(out@ =~= pre2 + enc_outputs(dv.take(j as int + 1)));
            }
            j = j + 1;
        }
        proof {
            assert(self.outputs.deep_view().take(self.outputs@.len() as int)
                =~= self.outputs.deep_view());
        }
        write_u32_le(&mut out, self.lock_time);
        proof {
            assert(out@ =~= enc_tx(self.view()));
        }
        out
    }
}

/// Accumulates the fields of a transaction and hands out the finished
/// record; any combination of calls yields an encodable transaction.
pub struct LegacyTransactionBuilder {
    pub version: i32,
    pub inputs: Vec<TxInput>,
    pub outputs: Vec<TxOutput>,
    pub lock_time: u32,
}

impl Default for LegacyTransactionBuilder {
    /// The starting state: version 1, no inputs, no outputs, lock time 0.
    fn default() -> (r: Self)
        ensures
            r.version == 1,
            r.inputs@ == Seq::<TxInput>::empty(),
            r.outputs@ == Seq::<TxOutput>::empty(),
            r.lock_time == 0,
    {
        LegacyTransactionBuilder {
            version: 1,
            inputs: Vec::new(),
            outputs: Vec::new(),
            lock_time: 0,
        }
    }
}

impl LegacyTransactionBuilder {
    /// A builder in the starting state, as `Default` gives it.
    pub fn new() -> (r: Self)
        ensures
            r.version == 1,
            r.inputs@ == Seq::<TxInput>::empty(),
            r.outputs@ == Seq::<TxOutput>::empty(),
            r.lock_time == 0,
    {
        Self::default()
    }

    /// Replaces the version field.
    pub fn version(self, version: i32) -> (r: Self)
        ensures
            r.version == version,
            r.inputs == self.inputs,
            r.outputs == self.outputs,
            r.lock_time == self.lock_time,
    {
        LegacyTransactionBuilder {
            version,
            inputs: self.inputs,
            outputs: self.outputs,
            lock_time: self.lock_time,
        }
    }

    /// Appends one input after those already added.
    pub fn add_input(self, input: TxInput) -> (r: Self)
        ensures
            r.version == self.version,
            r.inputs@ == self.inputs@.push(input),
            r.outputs == self.outputs,
            r.lock_time == self.lock_time,
    {
        let mut inputs = self.inputs;
        inputs.push(input);
        LegacyTransactionBuilder {
            version: self.version,
            inputs,
            outputs: self.outputs,
            lock_time: self.lock_time,
        }
    }

    /// Appends one output after those already added.
    pub fn add_output(self, output: TxOutput) -> (r: Self)
        ensures
            r.version == self.version,
            r.inputs == self.inputs,
            r.outputs@ == self.outputs@.push(output),
            r.lock_time == self.lock_time,
    {
        let mut outputs = self.outputs;
        outputs.push(output);
        LegacyTransactionBuilder {
            version: self.version,
            inputs: self.inputs,
            outputs,
            lock_time: self.lock_time,
        }
    }

    /// Replaces the lock time field.
    pub fn lock_time(self, lock_time: u32) -> (r: Self)
        ensures
            r.version == self.version,
            r.inputs == self.inputs,
            r.outputs == self.outputs,
            r.lock_time == lock_time,
    {
        LegacyTransactionBuilder {
            version: self.version,
            inputs: self.inputs,
            outputs: self.outputs,
            lock_time,
        }
    }

    /// The finished transaction, with the fields exactly as accumulated.
    pub fn build(self) -> (r: LegacyTransaction)
        ensures
            r.version == self.version,
            r.inputs == self.inputs,
            r.outputs == self.outputs,
            r.lock_time == self.lock_time,
    {
        LegacyTransaction {
            version: self.version,
            inputs: self.inputs,
            outputs: self.outputs,
            lock_time: self.lock_time,
        }
    }
}

impl LegacyTransaction {
    /// A fresh builder in the starting state.
    pub fn builder() -> (r: LegacyTransactionBuilder)
        ensures
            r.version == 1,
            r.inputs@ == Seq::<TxInput>::empty(),
            r.outputs@ == Seq::<TxOutput>::empty(),
            r.lock_time == 0,
    {
        LegacyTransactionBuilder::new()
    }
}

} // verus!
