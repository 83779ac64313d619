//! The mathematical model of the legacy transaction wire format.
//!
//! `enc_tx` says byte for byte how a transaction is laid out:
//! `version | input count | inputs | output count | outputs | lock time`,
//! with every count and script length written as a varint. `parse_tx` is the
//! strict inverse: it reads the same layout and rejects a buffer that ends
//! early or carries trailing bytes. The lemmas at the end state the laws the
//! codec obeys: encodings parse back to the same record, every proper prefix
//! of a parseable buffer is rejected, and so is a parseable buffer with
//! anything appended.

use crate::primitives::spec_i32_from_le_bytes;
use crate::primitives::spec_i32_to_le_bytes;
use crate::primitives::lemma_auto_spec_i32_to_from_le_bytes;
use crate::varint::lemma_parse_spec_varint;
use crate::varint::lemma_parse_varint_prefix;
use crate::varint::lemma_parse_varint_transfer;
use crate::varint::parse_varint;
use crate::varint::spec_varint;
use vstd::bytes::lemma_auto_spec_u32_to_from_le_bytes;
use vstd::bytes::lemma_auto_spec_u64_to_from_le_bytes;
use vstd::bytes::spec_u32_from_le_bytes;
use vstd::bytes::spec_u32_to_le_bytes;
use vstd::bytes::spec_u64_from_le_bytes;
use vstd::bytes::spec_u64_to_le_bytes;
use vstd::prelude::*;

verus! {

/// The model of a reference to a previously created output: a 32-byte
/// transaction identifier and an output index.
pub ghost struct OutPointModel {
    pub txid: Seq<u8>,
    pub vout: u32,
}

/// The model of one transaction input.
pub ghost struct InputModel {
    pub previous_output: OutPointModel,
    pub script_sig: Seq<u8>,
    pub sequence: u32,
}

/// The model of one transaction output.
pub ghost struct OutputModel {
    pub value: u64,
    pub script_pubkey: Seq<u8>,
}

/// The model of a whole legacy transaction.
pub ghost struct TxModel {
    pub version: i32,
    pub inputs: Seq<InputModel>,
    pub outputs: Seq<OutputModel>,
    pub lock_time: u32,
}

impl OutPointModel {
    /// A well-formed outpoint carries exactly 32 identifier bytes.
    pub open spec fn wf(self) -> bool {
        self.txid.len() == 32
    }
}

impl InputModel {
    /// A well-formed input has a well-formed outpoint and a script whose
    /// length a varint can carry.
    pub open spec fn wf(self) -> bool {
        &&& self.previous_output.wf()
        &&& self.script_sig.len() <= u64::MAX
    }
}

impl OutputModel {
    /// A well-formed output has a script whose length a varint can carry.
    pub open spec fn wf(self) -> bool {
        self.script_pubkey.len() <= u64::MAX
    }
}

impl TxModel {
    /// A well-formed transaction has varint-representable list lengths and
    /// well-formed entries throughout.
    pub open spec fn wf(self) -> bool {
        &&& self.inputs.len() <= u64::MAX
        &&& self.outputs.len() <= u64::MAX
        &&& forall|i: int| 0 <= i < self.inputs.len() ==> (#[trigger] self.inputs[i]).wf()
        &&& forall|i: int| 0 <= i < self.outputs.len() ==> (#[trigger] self.outputs[i]).wf()
    }
}

/// The wire bytes of an outpoint: the raw identifier, then the index.
pub open spec fn enc_outpoint(m: OutPointModel) -> Seq<u8> {
    m.txid + spec_u32_to_le_bytes(m.vout)
}

/// The wire bytes of one input: outpoint, script length as a varint, the
/// raw script, then the sequence number.
pub open spec fn enc_input(m: InputModel) -> Seq<u8> {
    enc_outpoint(m.previous_output) + spec_varint(m.script_sig.len() as u64) + m.script_sig
        + spec_u32_to_le_bytes(m.sequence)
}

/// The wire bytes of a list of inputs, in order.
pub open spec fn enc_inputs(ms: Seq<InputModel>) -> Seq<u8>
    decreases ms.len(),
{
    if ms.len() == 0 {
        Seq::empty()
    } else {
        enc_input(ms[0]) + enc_inputs(ms.drop_first())
    }
}

/// The wire bytes of one output: the value, the script length as a varint,
/// then the raw script.
pub open spec fn enc_output(m: OutputModel) -> Seq<u8> {
    spec_u64_to_le_bytes(m.value) + spec_varint(m.script_pubkey.len() as u64) + m.script_pubkey
}

/// The wire bytes of a list of outputs, in order.
pub open spec fn enc_outputs(ms: Seq<OutputModel>) -> Seq<u8>
    decreases ms.len(),
{
    if ms.len() == 0 {
        Seq::empty()
    } else {
        enc_output(ms[0]) + enc_outputs(ms.drop_first())
    }
}

/// The wire bytes of a whole transaction.
pub open spec fn enc_tx(m: TxModel) -> Seq<u8> {
    spec_i32_to_le_bytes(m.version) + spec_varint(m.inputs.len() as u64) + enc_inputs(m.inputs)
        + spec_varint(m.outputs.len() as u64) + enc_outputs(m.outputs) + spec_u32_to_le_bytes(
        m.lock_time,
    )
}

/// Parses one input at `off`: 32 identifier bytes, the index, a varint
/// script length, that many script bytes, then the sequence number.
pub open spec fn parse_input(s: Seq<u8>, off: int) -> Option<(InputModel, int)> {
    if off < 0 || off + 36 > s.len() {
        None
    } else {
        let txid = s.subrange(off, off + 32);
        let vout = spec_u32_from_le_bytes(s.subrange(off + 32, off + 36));
        match parse_varint(s, off + 36) {
            None => None,
            Some((slen, o2)) => {
                if o2 + slen as int + 4 > s.len() {
                    None
                } else {
                    Some(
                        (
                            InputModel {
                                previous_output: OutPointModel { txid, vout },
                                script_sig: s.subrange(o2, o2 + slen as int),
                                sequence: spec_u32_from_le_bytes(
                                    s.subrange(o2 + slen as int, o2 + slen as int + 4),
                                ),
                            },
                            o2 + slen as int + 4,
                        ),
                    )
                }
            },
        }
    }
}

/// Parses `n` inputs in sequence starting at `off`.
pub open spec fn parse_inputs(s: Seq<u8>, off: int, n: nat) -> Option<(Seq<InputModel>, int)>
    decreases n,
{
    if n == 0 {
        Some((Seq::empty(), off))
    } else {
        match parse_input(s, off) {
            None => None,
            Some((m, o2)) => match parse_inputs(s, o2, (n - 1) as nat) {
                None => None,
                Some((ms, o3)) => Some((seq![m] + ms, o3)),
            },
        }
    }
}

/// Parses one output at `off`: the value, a varint script length, then that
/// many script bytes.
pub open spec fn parse_output(s: Seq<u8>, off: int) -> Option<(OutputModel, int)> {
    if off < 0 || off + 8 > s.len() {
        None
    } else {
        let value = spec_u64_from_le_bytes(s.subrange(off, off + 8));
        match parse_varint(s, off + 8) {
            None => None,
            Some((slen, o2)) => {
                if o2 + slen as int > s.len() {
                    None
                } else {
                    Some(
                        (
                            OutputModel { value, script_pubkey: s.subrange(o2, o2 + slen as int) },
                            o2 + slen as int,
                        ),
                    )
                }
            },
        }
    }
}

/// Parses `n` outputs in sequence starting at `off`.
pub open spec fn parse_outputs(s: Seq<u8>, off: int, n: nat) -> Option<(Seq<OutputModel>, int)>
    decreases n,
{
    if n == 0 {
        Some((Seq::empty(), off))
    } else {
        match parse_output(s, off) {
            None => None,
            Some((m, o2)) => match parse_outputs(s, o2, (n - 1) as nat) {
                None => None,
                Some((ms, o3)) => Some((seq![m] + ms, o3)),
            },
        }
    }
}

/// Strict parse of a whole transaction: the fields in wire order, with
/// every byte of the buffer accounted for. A buffer that ends early or
/// carries trailing bytes parses to `None`.
pub open spec fn parse_tx(s: Seq<u8>) -> Option<TxModel> {
    if s.len() < 4 {
        None
    } else {
        let version = spec_i32_from_le_bytes(s.subrange(0, 4));
        match parse_varint(s, 4) {
            None => None,
            Some((icount, o1)) => match parse_inputs(s, o1, icount as nat) {
                None => None,
                Some((inputs, o2)) => match parse_varint(s, o2) {
                    None => None,
                    Some((ocount, o3)) => match parse_outputs(s, o3, ocount as nat) {
                        None => None,
                        Some((outputs, o4)) => {
                            if o4 + 4 == s.len() {
                                Some(
                                    TxModel {
                                        version,
                                        inputs,
                                        outputs,
                                        lock_time: spec_u32_from_le_bytes(
                                            s.subrange(o4, o4 + 4),
                                        ),
                                    },
                                )
                            } else {
                                None
                            }
                        },
                    },
                },
            },
        }
    }
}

/// A parsed input advances the offset by at least its fixed fields and
/// never past the buffer, and its model is well formed.
pub proof fn lemma_parse_input_bounds(s: Seq<u8>, off: int, m: InputModel, end: int)
    requires
        parse_input(s, off) == Some((m, end)),
    ensures
        off + 41 <= end <= s.len(),
        m.wf(),
{
    lemma_auto_spec_u32_to_from_le_bytes();
}

/// Parsed inputs never move the offset backwards nor past the buffer, and
/// every parsed model is well formed.
pub proof fn lemma_parse_inputs_bounds(s: Seq<u8>, off: int, n: nat, ms: Seq<InputModel>, end: int)
    requires
        off <= s.len(),
        parse_inputs(s, off, n) == Some((ms, end)),
    ensures
        off <= end <= s.len(),
        ms.len() == n,
        forall|i: int| 0 <= i < ms.len() ==> (#[trigger] ms[i]).wf(),
    decreases n,
{
    if n == 0 {
    } else {
        let (m0, o2) = parse_input(s, off)->Some_0;
        let (ms1, o3) = parse_inputs(s, o2, (n - 1) as nat)->Some_0;
        lemma_parse_input_bounds(s, off, m0, o2);
        lemma_parse_inputs_bounds(s, o2, (n - 1) as nat, ms1, o3);
        assert(ms == seq![m0] + ms1);
        assert forall|i: int| 0 <= i < ms.len() implies (#[trigger] ms[i]).wf() by {
            if i > 0 {
                assert(ms[i] == ms1[i - 1]);
            }
        }
    }
}

/// A parsed output advances the offset by at least its fixed fields and
/// never past the buffer, and its model is well formed.
pub proof fn lemma_parse_output_bounds(s: Seq<u8>, off: int, m: OutputModel, end: int)
    requires
        parse_output(s, off) == Some((m, end)),
    ensures
        off + 9 <= end <= s.len(),
        m.wf(),
{
}

/// Parsed outputs never move the offset backwards nor past the buffer, and
/// every parsed model is well formed.
pub proof fn lemma_parse_outputs_bounds(
    s: Seq<u8>,
    off: int,
    n: nat,
    ms: Seq<OutputModel>,
    end: int,
)
    requires
        off <= s.len(),
        parse_outputs(s, off, n) == Some((ms, end)),
    ensures
        off <= end <= s.len(),
        ms.len() == n,
        forall|i: int| 0 <= i < ms.len() ==> (#[trigger] ms[i]).wf(),
    decreases n,
{
    if n == 0 {
    } else {
        let (m0, o2) = parse_output(s, off)->Some_0;
        let (ms1, o3) = parse_outputs(s, o2, (n - 1) as nat)->Some_0;
        lemma_parse_output_bounds(s, off, m0, o2);
        lemma_parse_outputs_bounds(s, o2, (n - 1) as nat, ms1, o3);
        assert(ms == seq![m0] + ms1);
        assert forall|i: int| 0 <= i < ms.len() implies (#[trigger] ms[i]).wf() by {
            if i > 0 {
                assert(ms[i] == ms1[i - 1]);
            }
        }
    }
}

/// Subranges of a buffer that holds `e` at `off` are subranges of `e`.
proof fn lemma_sub_of_match(s: Seq<u8>, off: int, e: Seq<u8>, a: int, b: int)
    requires
        0 <= off,
        off + e.len() <= s.len(),
        s.subrange(off, off + e.len()) == e,
        0 <= a <= b <= e.len(),
    ensures
        s.subrange(off + a, off + b) == e.subrange(a, b),
{
    assert(s.subrange(off + a, off + b) =~= e.subrange(a, b)) by {
        assert forall|i: int| 0 <= i < b - a implies s.subrange(off + a, off + b)[i] == e.subrange(
            a,
            b,
        )[i] by {
            assert(s.subrange(off + a, off + b)[i] == s[off + a + i]);
            assert(s[off + a + i] == s.subrange(off, off + e.len())[a + i]);
        }
    }
}

/// Wherever the bytes of `enc_input(m)` sit in a buffer, parsing an input
/// at that position yields `m` and consumes exactly the encoding.
pub proof fn lemma_parse_enc_input(s: Seq<u8>, off: int, m: InputModel)
    requires
        m.wf(),
        0 <= off,
        off + enc_input(m).len() <= s.len(),
        s.subrange(off, off + enc_input(m).len()) == enc_input(m),
    ensures
        parse_input(s, off) == Some((m, off + enc_input(m).len())),
{
    lemma_auto_spec_u32_to_from_le_bytes();
    let e = enc_input(m);
    let op = enc_outpoint(m.previous_output);
    let slen64 = m.script_sig.len() as u64;
    let vi = spec_varint(slen64);
    let vl = vi.len() as int;
    let sl = m.script_sig.len() as int;
    assert(op.len() == 36);
    assert(e.len() == 36 + vl + sl + 4);
    assert(e.subrange(0, 32) =~= m.previous_output.txid);
    assert(e.subrange(32, 36) =~= spec_u32_to_le_bytes(m.previous_output.vout));
    assert(e.subrange(36, 36 + vl) =~= vi);
    assert(e.subrange(36 + vl, 36 + vl + sl) =~= m.script_sig);
    assert(e.subrange(36 + vl + sl, 36 + vl + sl + 4) =~= spec_u32_to_le_bytes(m.sequence));
    lemma_sub_of_match(s, off, e, 0, 32);
    lemma_sub_of_match(s, off, e, 32, 36);
    lemma_sub_of_match(s, off, e, 36, 36 + vl);
    lemma_sub_of_match(s, off, e, 36 + vl, 36 + vl + sl);
    lemma_sub_of_match(s, off, e, 36 + vl + sl, 36 + vl + sl + 4);
    lemma_parse_spec_varint(s, off + 36, slen64);
    let o2 = off + 36 + vl;
    assert(parse_varint(s, off + 36) == Some((slen64, o2)));
    assert(s.subrange(o2, o2 + sl) == m.script_sig);
    assert(s.subrange(o2 + sl, o2 + sl + 4) == spec_u32_to_le_bytes(m.sequence));
    let (got, end) = parse_input(s, off)->Some_0;
    assert(got.previous_output.txid == m.previous_output.txid);
    assert(got.previous_output.vout == m.previous_output.vout);
    assert(got.script_sig == m.script_sig);
    assert(got.sequence == m.sequence);
}

/// Wherever the bytes of `enc_inputs(ms)` sit in a buffer, parsing that
/// many inputs at that position yields `ms` and consumes exactly the
/// encoding.
pub proof fn lemma_parse_enc_inputs(s: Seq<u8>, off: int, ms: Seq<InputModel>)
    requires
        forall|i: int| 0 <= i < ms.len() ==> (#[trigger] ms[i]).wf(),
        0 <= off,
        off + enc_inputs(ms).len() <= s.len(),
        s.subrange(off, off + enc_inputs(ms).len()) == enc_inputs(ms),
    ensures
        parse_inputs(s, off, ms.len()) == Some((ms, off + enc_inputs(ms).len())),
    decreases ms.len(),
{
    let e = enc_inputs(ms);
    if ms.len() == 0 {
        assert(ms =~= Seq::<InputModel>::empty());
    } else {
        let e0 = enc_input(ms[0]);
        let rest = enc_inputs(ms.drop_first());
        assert(e == e0 + rest);
        assert(e.subrange(0, e0.len() as int) =~= e0);
        assert(e.subrange(e0.len() as int, e.len() as int) =~= rest);
        lemma_sub_of_match(s, off, e, 0, e0.len() as int);
        lemma_sub_of_match(s, off, e, e0.len() as int, e.len() as int);
        lemma_parse_enc_input(s, off, ms[0]);
        let o2 = off + e0.len();
        assert(forall|i: int|
            0 <= i < ms.drop_first().len() ==> (#[trigger] ms.drop_first()[i]).wf()) by {
            assert(forall|i: int|
                0 <= i < ms.drop_first().len() ==> ms.drop_first()[i] == ms[i + 1]);
        }
        lemma_parse_enc_inputs(s, o2, ms.drop_first());
        assert(parse_inputs(s, o2, ms.drop_first().len()) == Some(
            (ms.drop_first(), off + e.len()),
        ));
        assert(seq![ms[0]] + ms.drop_first() =~= ms);
    }
}

/// Wherever the bytes of `enc_output(m)` sit in a buffer, parsing an output
/// at that position yields `m` and consumes exactly the encoding.
pub proof fn lemma_parse_enc_output(s: Seq<u8>, off: int, m: OutputModel)
    requires
        m.wf(),
        0 <= off,
        off + enc_output(m).len() <= s.len(),
        s.subrange(off, off + enc_output(m).len()) == enc_output(m),
    ensures
        parse_output(s, off) == Some((m, off + enc_output(m).len())),
{
    lemma_auto_spec_u64_to_from_le_bytes();
    let e = enc_output(m);
    let slen64 = m.script_pubkey.len() as u64;
    let vi = spec_varint(slen64);
    let vl = vi.len() as int;
    let sl = m.script_pubkey.len() as int;
    assert(e.len() == 8 + vl + sl);
    assert(e.subrange(0, 8) =~= spec_u64_to_le_bytes(m.value));
    assert(e.subrange(8, 8 + vl) =~= vi);
    assert(e.subrange(8 + vl, 8 + vl + sl) =~= m.script_pubkey);
    lemma_sub_of_match(s, off, e, 0, 8);
    lemma_sub_of_match(s, off, e, 8, 8 + vl);
    lemma_sub_of_match(s, off, e, 8 + vl, 8 + vl + sl);
    lemma_parse_spec_varint(s, off + 8, slen64);
    let o2 = off + 8 + vl;
    assert(parse_varint(s, off + 8) == Some((slen64, o2)));
    assert(s.subrange(o2, o2 + sl) == m.script_pubkey);
    let (got, end) = parse_output(s, off)->Some_0;
    assert(got.value == m.value);
    assert(got.script_pubkey == m.script_pubkey);
}

/// Wherever the bytes of `enc_outputs(ms)` sit in a buffer, parsing that
/// many outputs at that position yields `ms` and consumes exactly the
/// encoding.
pub proof fn lemma_parse_enc_outputs(s: Seq<u8>, off: int, ms: Seq<OutputModel>)
    requires
        forall|i: int| 0 <= i < ms.len() ==> (#[trigger] ms[i]).wf(),
        0 <= off,
        off + enc_outputs(ms).len() <= s.len(),
        s.subrange(off, off + enc_outputs(ms).len()) == enc_outputs(ms),
    ensures
        parse_outputs(s, off, ms.len()) == Some((ms, off + enc_outputs(ms).len())),
    decreases ms.len(),
{
    let e = enc_outputs(ms);
    if ms.len() == 0 {
        assert(ms =~= Seq::<OutputModel>::empty());
    } else {
        let e0 = enc_output(ms[0]);
        let rest = enc_outputs(ms.drop_first());
        assert(e == e0 + rest);
        assert(e.subrange(0, e0.len() as int) =~= e0);
        assert(e.subrange(e0.len() as int, e.len() as int) =~= rest);
        lemma_sub_of_match(s, off, e, 0, e0.len() as int);
        lemma_sub_of_match(s, off, e, e0.len() as int, e.len() as int);
        lemma_parse_enc_output(s, off, ms[0]);
        let o2 = off + e0.len();
        assert(forall|i: int|
            0 <= i < ms.drop_first().len() ==> (#[trigger] ms.drop_first()[i]).wf()) by {
            assert(forall|i: int|
                0 <= i < ms.drop_first().len() ==> ms.drop_first()[i] == ms[i + 1]);
        }
        lemma_parse_enc_outputs(s, o2, ms.drop_first());
        assert(seq![ms[0]] + ms.drop_first() =~= ms);
    }
}

/// Round trip: the strict parse of `enc_tx(m)` gives back exactly `m`, for
/// every well-formed transaction model.
pub proof fn lemma_round_trip(m: TxModel)
    requires
        m.wf(),
    ensures
        parse_tx(enc_tx(m)) == Some(m),
{
    lemma_auto_spec_i32_to_from_le_bytes();
    lemma_auto_spec_u32_to_from_le_bytes();
    let s = enc_tx(m);
    let vb = spec_i32_to_le_bytes(m.version);
    let ic = m.inputs.len() as u64;
    let oc = m.outputs.len() as u64;
    let vi = spec_varint(ic);
    let ei = enc_inputs(m.inputs);
    let vo = spec_varint(oc);
    let eo = enc_outputs(m.outputs);
    let lb = spec_u32_to_le_bytes(m.lock_time);
    let vil = vi.len() as int;
    let il = ei.len() as int;
    let vol = vo.len() as int;
    let ol = eo.len() as int;
    assert(s.len() == 4 + vil + il + vol + ol + 4);
    assert(s.subrange(0, 4) =~= vb);
    assert(s.subrange(4, 4 + vil) =~= vi);
    assert(s.subrange(4 + vil, 4 + vil + il) =~= ei);
    assert(s.subrange(4 + vil + il, 4 + vil + il + vol) =~= vo);
    assert(s.subrange(4 + vil + il + vol, 4 + vil + il + vol + ol) =~= eo);
    assert(s.subrange(4 + vil + il + vol + ol, s.len() as int) =~= lb);
    assert(spec_i32_from_le_bytes(s.subrange(0, 4)) == m.version);
    lemma_parse_spec_varint(s, 4, ic);
    let o1 = 4 + vil;
    assert(parse_varint(s, 4) == Some((ic, o1)));
    lemma_parse_enc_inputs(s, o1, m.inputs);
    let o2 = o1 + il;
    assert(parse_inputs(s, o1, ic as nat) == Some((m.inputs, o2)));
    lemma_parse_spec_varint(s, o2, oc);
    let o3 = o2 + vol;
    assert(parse_varint(s, o2) == Some((oc, o3)));
    lemma_parse_enc_outputs(s, o3, m.outputs);
    let o4 = o3 + ol;
    assert(parse_outputs(s, o3, oc as nat) == Some((m.outputs, o4)));
    assert(o4 + 4 == s.len());
    assert(spec_u32_from_le_bytes(s.subrange(o4, o4 + 4)) == m.lock_time);
}

/// Inside a region where two buffers agree, their subranges agree.
proof fn lemma_sub_agree(s: Seq<u8>, t: Seq<u8>, off: int, end: int, a: int, b: int)
    requires
        0 <= off <= a,
        a <= b,
        b <= end,
        end <= s.len(),
        end <= t.len(),
        t.subrange(off, end) == s.subrange(off, end),
    ensures
        t.subrange(a, b) == s.subrange(a, b),
{
    assert(t.subrange(a, b) =~= s.subrange(a, b)) by {
        assert forall|i: int| 0 <= i < b - a implies t.subrange(a, b)[i] == s.subrange(a, b)[i] by {
            assert(t.subrange(a, b)[i] == t[a + i]);
            assert(t[a + i] == t.subrange(off, end)[a + i - off]);
            assert(s[a + i] == s.subrange(off, end)[a + i - off]);
        }
    }
}

/// Truncating a buffer before the end of a parsed input makes the parse
/// fail; truncating at or after its end leaves the parse unchanged.
pub proof fn lemma_parse_input_prefix(s: Seq<u8>, k: int, off: int, m: InputModel, end: int)
    requires
        0 <= off <= k <= s.len(),
        parse_input(s, off) == Some((m, end)),
    ensures
        end <= k ==> parse_input(s.take(k), off) == Some((m, end)),
        end > k ==> parse_input(s.take(k), off) is None,
{
    let t = s.take(k);
    lemma_parse_input_bounds(s, off, m, end);
    let (slen, o2) = parse_varint(s, off + 36)->Some_0;
    let sl = slen as int;
    if off + 36 > k {
        assert(end > k);
    } else {
        assert(t.subrange(off, off + 32) =~= s.subrange(off, off + 32));
        assert(t.subrange(off + 32, off + 36) =~= s.subrange(off + 32, off + 36));
        lemma_parse_varint_prefix(s, k, off + 36, slen, o2);
        if o2 > k {
            assert(end > k);
        } else {
            if o2 + sl + 4 > k {
                assert(end > k);
            } else {
                assert(t.subrange(o2, o2 + sl) =~= s.subrange(o2, o2 + sl));
                assert(t.subrange(o2 + sl, o2 + sl + 4) =~= s.subrange(o2 + sl, o2 + sl + 4));
            }
        }
    }
}

/// Truncating a buffer before the end of a parsed input list makes the
/// parse fail; truncating at or after its end leaves the parse unchanged.
pub proof fn lemma_parse_inputs_prefix(
    s: Seq<u8>,
    k: int,
    off: int,
    n: nat,
    ms: Seq<InputModel>,
    end: int,
)
    requires
        0 <= off <= k <= s.len(),
        parse_inputs(s, off, n) == Some((ms, end)),
    ensures
        end <= k ==> parse_inputs(s.take(k), off, n) == Some((ms, end)),
        end > k ==> parse_inputs(s.take(k), off, n) is None,
    decreases n,
{
    if n == 0 {
    } else {
        let (m0, e1) = parse_input(s, off)->Some_0;
        let (ms1, _e2) = parse_inputs(s, e1, (n - 1) as nat)->Some_0;
        lemma_parse_input_bounds(s, off, m0, e1);
        lemma_parse_inputs_bounds(s, e1, (n - 1) as nat, ms1, end);
        lemma_parse_input_prefix(s, k, off, m0, e1);
        if e1 > k {
            assert(end > k);
        } else {
            lemma_parse_inputs_prefix(s, k, e1, (n - 1) as nat, ms1, end);
        }
    }
}

/// Truncating a buffer before the end of a parsed output makes the parse
/// fail; truncating at or after its end leaves the parse unchanged.
pub proof fn lemma_parse_output_prefix(s: Seq<u8>, k: int, off: int, m: OutputModel, end: int)
    requires
        0 <= off <= k <= s.len(),
        parse_output(s, off) == Some((m, end)),
    ensures
        end <= k ==> parse_output(s.take(k), off) == Some((m, end)),
        end > k ==> parse_output(s.take(k), off) is None,
{
    let t = s.take(k);
    lemma_parse_output_bounds(s, off, m, end);
    let (slen, o2) = parse_varint(s, off + 8)->Some_0;
    let sl = slen as int;
    if off + 8 > k {
        assert(end > k);
    } else {
        assert(t.subrange(off, off + 8) =~= s.subrange(off, off + 8));
        lemma_parse_varint_prefix(s, k, off + 8, slen, o2);
        if o2 > k {
            assert(end > k);
        } else {
            if o2 + sl > k {
                assert(end > k);
            } else {
                assert(t.subrange(o2, o2 + sl) =~= s.subrange(o2, o2 + sl));
            }
        }
    }
}

/// Truncating a buffer before the end of a parsed output list makes the
/// parse fail; truncating at or after its end leaves the parse unchanged.
pub proof fn lemma_parse_outputs_prefix(
    s: Seq<u8>,
    k: int,
    off: int,
    n: nat,
    ms: Seq<OutputModel>,
    end: int,
)
    requires
        0 <= off <= k <= s.len(),
        parse_outputs(s, off, n) == Some((ms, end)),
    ensures
        end <= k ==> parse_outputs(s.take(k), off, n) == Some((ms, end)),
        end > k ==> parse_outputs(s.take(k), off, n) is None,
    decreases n,
{
    if n == 0 {
    } else {
        let (m0, e1) = parse_output(s, off)->Some_0;
        let (ms1, _e2) = parse_outputs(s, e1, (n - 1) as nat)->Some_0;
        lemma_parse_output_bounds(s, off, m0, e1);
        lemma_parse_outputs_bounds(s, e1, (n - 1) as nat, ms1, end);
        lemma_parse_output_prefix(s, k, off, m0, e1);
        if e1 > k {
            assert(end > k);
        } else {
            lemma_parse_outputs_prefix(s, k, e1, (n - 1) as nat, ms1, end);
        }
    }
}

/// Truncation is always caught: a strict parse accepts no proper prefix of
/// a buffer it accepts.
pub proof fn lemma_truncation(s: Seq<u8>, k: int)
    requires
        parse_tx(s) is Some,
        0 <= k < s.len(),
    ensures
        parse_tx(s.take(k)) is None,
{
    let t = s.take(k);
    if k < 4 {
    } else {
        assert(t.subrange(0, 4) =~= s.subrange(0, 4));
        let (icount, o1) = parse_varint(s, 4)->Some_0;
        let (inputs, o2) = parse_inputs(s, o1, icount as nat)->Some_0;
        let (ocount, o3) = parse_varint(s, o2)->Some_0;
        let (outputs, o4) = parse_outputs(s, o3, ocount as nat)->Some_0;
        lemma_parse_varint_prefix(s, k, 4, icount, o1);
        if o1 > k {
        } else {
            lemma_parse_inputs_bounds(s, o1, icount as nat, inputs, o2);
            lemma_parse_inputs_prefix(s, k, o1, icount as nat, inputs, o2);
            if o2 > k {
            } else {
                lemma_parse_varint_prefix(s, k, o2, ocount, o3);
                if o3 > k {
                } else {
                    lemma_parse_outputs_bounds(s, o3, ocount as nat, outputs, o4);
                    lemma_parse_outputs_prefix(s, k, o3, ocount as nat, outputs, o4);
                    if o4 > k {
                    } else {
                        assert(o4 + 4 == s.len());
                        assert(o4 + 4 != t.len());
                    }
                }
            }
        }
    }
}

/// A parsed input parses the same from any buffer long enough that holds
/// the same bytes between `off` and `end`.
pub proof fn lemma_parse_input_transfer(s: Seq<u8>, t: Seq<u8>, off: int, m: InputModel, end: int)
    requires
        0 <= off,
        parse_input(s, off) == Some((m, end)),
        end <= t.len(),
        t.subrange(off, end) == s.subrange(off, end),
    ensures
        parse_input(t, off) == Some((m, end)),
{
    lemma_parse_input_bounds(s, off, m, end);
    let (slen, o2) = parse_varint(s, off + 36)->Some_0;
    let sl = slen as int;
    lemma_sub_agree(s, t, off, end, off, off + 32);
    lemma_sub_agree(s, t, off, end, off + 32, off + 36);
    lemma_sub_agree(s, t, off, end, off + 36, o2);
    lemma_parse_varint_transfer(s, t, off + 36, slen, o2);
    lemma_sub_agree(s, t, off, end, o2, o2 + sl);
    lemma_sub_agree(s, t, off, end, o2 + sl, o2 + sl + 4);
}

/// A parsed input list parses the same from any buffer long enough that
/// holds the same bytes between `off` and `end`.
pub proof fn lemma_parse_inputs_transfer(
    s: Seq<u8>,
    t: Seq<u8>,
    off: int,
    n: nat,
    ms: Seq<InputModel>,
    end: int,
)
    requires
        0 <= off <= s.len(),
        parse_inputs(s, off, n) == Some((ms, end)),
        end <= t.len(),
        t.subrange(off, end) == s.subrange(off, end),
    ensures
        parse_inputs(t, off, n) == Some((ms, end)),
    decreases n,
{
    if n == 0 {
    } else {
        let (m0, e1) = parse_input(s, off)->Some_0;
        let (ms1, _e2) = parse_inputs(s, e1, (n - 1) as nat)->Some_0;
        lemma_parse_input_bounds(s, off, m0, e1);
        lemma_parse_inputs_bounds(s, e1, (n - 1) as nat, ms1, end);
        lemma_sub_agree(s, t, off, end, off, e1);
        lemma_parse_input_transfer(s, t, off, m0, e1);
        lemma_sub_agree(s, t, off, end, e1, end);
        lemma_parse_inputs_transfer(s, t, e1, (n - 1) as nat, ms1, end);
    }
}

/// A parsed output parses the same from any buffer long enough that holds
/// the same bytes between `off` and `end`.
pub proof fn lemma_parse_output_transfer(s: Seq<u8>, t: Seq<u8>, off: int, m: OutputModel, end: int)
    requires
        0 <= off,
        parse_output(s, off) == Some((m, end)),
        end <= t.len(),
        t.subrange(off, end) == s.subrange(off, end),
    ensures
        parse_output(t, off) == Some((m, end)),
{
    lemma_parse_output_bounds(s, off, m, end);
    let (slen, o2) = parse_varint(s, off + 8)->Some_0;
    let sl = slen as int;
    lemma_sub_agree(s, t, off, end, off, off + 8);
    lemma_sub_agree(s, t, off, end, off + 8, o2);
    lemma_parse_varint_transfer(s, t, off + 8, slen, o2);
    lemma_sub_agree(s, t, off, end, o2, o2 + sl);
}

/// A parsed output list parses the same from any buffer long enough that
/// holds the same bytes between `off` and `end`.
pub proof fn lemma_parse_outputs_transfer(
    s: Seq<u8>,
    t: Seq<u8>,
    off: int,
    n: nat,
    ms: Seq<OutputModel>,
    end: int,
)
    requires
        0 <= off <= s.len(),
        parse_outputs(s, off, n) == Some((ms, end)),
        end <= t.len(),
        t.subrange(off, end) == s.subrange(off, end),
    ensures
        parse_outputs(t, off, n) == Some((ms, end)),
    decreases n,
{
    if n == 0 {
    } else {
        let (m0, e1) = parse_output(s, off)->Some_0;
        let (ms1, _e2) = parse_outputs(s, e1, (n - 1) as nat)->Some_0;
        lemma_parse_output_bounds(s, off, m0, e1);
        lemma_parse_outputs_bounds(s, e1, (n - 1) as nat, ms1, end);
        lemma_sub_agree(s, t, off, end, off, e1);
        lemma_parse_output_transfer(s, t, off, m0, e1);
        lemma_sub_agree(s, t, off, end, e1, end);
        lemma_parse_outputs_transfer(s, t, e1, (n - 1) as nat, ms1, end);
    }
}

/// Strict trailing-byte rejection: appending anything at all to a buffer
/// the strict parse accepts makes the parse fail.
pub proof fn lemma_trailing(s: Seq<u8>, extra: Seq<u8>)
    requires
        parse_tx(s) is Some,
        extra.len() >= 1,
    ensures
        parse_tx(s + extra) is None,
{
    let t = s + extra;
    let (icount, o1) = parse_varint(s, 4)->Some_0;
    let (inputs, o2) = parse_inputs(s, o1, icount as nat)->Some_0;
    let (ocount, o3) = parse_varint(s, o2)->Some_0;
    let (outputs, o4) = parse_outputs(s, o3, ocount as nat)->Some_0;
    lemma_parse_inputs_bounds(s, o1, icount as nat, inputs, o2);
    lemma_parse_outputs_bounds(s, o3, ocount as nat, outputs, o4);
    assert(t.subrange(0, 4) =~= s.subrange(0, 4));
    assert(t.subrange(4, o1) =~= s.subrange(4, o1));
    lemma_parse_varint_transfer(s, t, 4, icount, o1);
    assert(t.subrange(o1, o2) =~= s.subrange(o1, o2));
    lemma_parse_inputs_transfer(s, t, o1, icount as nat, inputs, o2);
    assert(t.subrange(o2, o3) =~= s.subrange(o2, o3));
    lemma_parse_varint_transfer(s, t, o2, ocount, o3);
    assert(t.subrange(o3, o4) =~= s.subrange(o3, o4));
    lemma_parse_outputs_transfer(s, t, o3, ocount as nat, outputs, o4);
    assert(o4 + 4 == s.len());
    assert(o4 + 4 != t.len());
}

/// Appending one input to a list appends its encoding to the list's bytes.
pub proof fn lemma_enc_inputs_snoc(ms: Seq<InputModel>, m: InputModel)
    ensures
        enc_inputs(ms.push(m)) == enc_inputs(ms) + enc_input(m),
    decreases ms.len(),
{
    if ms.len() == 0 {
        assert(ms.push(m)[0] == m);
        assert(ms.push(m).drop_first() =~= Seq::<InputModel>::empty());
        assert(enc_inputs(ms.push(m)) == enc_input(m) + enc_inputs(
            Seq::<InputModel>::empty(),
        ));
        assert(enc_input(m) + Seq::<u8>::empty() =~= Seq::<u8>::empty() + enc_input(m));
    } else {
        assert(ms.push(m)[0] == ms[0]);
        assert(ms.push(m).drop_first() =~= ms.drop_first().push(m));
        lemma_enc_inputs_snoc(ms.drop_first(), m);
        assert(enc_inputs(ms.push(m)) == enc_input(ms[0]) + (enc_inputs(ms.drop_first())
            + enc_input(m)));
        assert(enc_input(ms[0]) + (enc_inputs(ms.drop_first()) + enc_input(m)) =~= (enc_input(
            ms[0],
        ) + enc_inputs(ms.drop_first())) + enc_input(m));
    }
}

/// Appending one output to a list appends its encoding to the list's bytes.
pub proof fn lemma_enc_outputs_snoc(ms: Seq<OutputModel>, m: OutputModel)
    ensures
        enc_outputs(ms.push(m)) == enc_outputs(ms) + enc_output(m),
    decreases ms.len(),
{
    if ms.len() == 0 {
        assert(ms.push(m)[0] == m);
        assert(ms.push(m).drop_first() =~= Seq::<OutputModel>::empty());
        assert(enc_outputs(ms.push(m)) == enc_output(m) + enc_outputs(
            Seq::<OutputModel>::empty(),
        ));
        assert(enc_output(m) + Seq::<u8>::empty() =~= Seq::<u8>::empty() + enc_output(m));
    } else {
        assert(ms.push(m)[0] == ms[0]);
        assert(ms.push(m).drop_first() =~= ms.drop_first().push(m));
        lemma_enc_outputs_snoc(ms.drop_first(), m);
        assert(enc_outputs(ms.push(m)) == enc_output(ms[0]) + (enc_outputs(ms.drop_first())
            + enc_output(m)));
        assert(enc_output(ms[0]) + (enc_outputs(ms.drop_first()) + enc_output(m)) =~= (enc_output(
            ms[0],
        ) + enc_outputs(ms.drop_first())) + enc_output(m));
    }
}

/// Parsing `total` inputs is parsing `i` of them and then the rest from
/// where they ended.
pub proof fn lemma_parse_inputs_split(
    s: Seq<u8>,
    off: int,
    i: nat,
    total: nat,
    ms: Seq<InputModel>,
    cur: int,
)
    requires
        i <= total,
        parse_inputs(s, off, i) == Some((ms, cur)),
    ensures
        parse_inputs(s, off, total) == (match parse_inputs(s, cur, (total - i) as nat) {
            Some((ms2, end)) => Some((ms + ms2, end)),
            None => None::<(Seq<InputModel>, int)>,
        }),
    decreases i,
{
    if i == 0 {
        match parse_inputs(s, cur, total) {
            Some((ms2, end)) => {
                assert(ms + ms2 =~= ms2);
            },
            None => {},
        }
    } else {
        let (m0, e1) = parse_input(s, off)->Some_0;
        let (ms1, _c) = parse_inputs(s, e1, (i - 1) as nat)->Some_0;
        lemma_parse_inputs_split(s, e1, (i - 1) as nat, (total - 1) as nat, ms1, cur);
        match parse_inputs(s, cur, (total - i) as nat) {
            Some((ms2, end)) => {
                assert(parse_inputs(s, e1, (total - 1) as nat) == Some((ms1 + ms2, end)));
                assert(seq![m0] + (ms1 + ms2) =~= (seq![m0] + ms1) + ms2);
                assert(ms == seq![m0] + ms1);
            },
            None => {},
        }
    }
}

/// Parsing `total` outputs is parsing `i` of them and then the rest from
/// where they ended.
pub proof fn lemma_parse_outputs_split(
    s: Seq<u8>,
    off: int,
    i: nat,
    total: nat,
    ms: Seq<OutputModel>,
    cur: int,
)
    requires
        i <= total,
        parse_outputs(s, off, i) == Some((ms, cur)),
    ensures
        parse_outputs(s, off, total) == (match parse_outputs(s, cur, (total - i) as nat) {
            Some((ms2, end)) => Some((ms + ms2, end)),
            None => None::<(Seq<OutputModel>, int)>,
        }),
    decreases i,
{
    if i == 0 {
        match parse_outputs(s, cur, total) {
            Some((ms2, end)) => {
                assert(ms + ms2 =~= ms2);
            },
            None => {},
        }
    } else {
        let (m0, e1) = parse_output(s, off)->Some_0;
        let (ms1, _c) = parse_outputs(s, e1, (i - 1) as nat)->Some_0;
        lemma_parse_outputs_split(s, e1, (i - 1) as nat, (total - 1) as nat, ms1, cur);
        match parse_outputs(s, cur, (total - i) as nat) {
            Some((ms2, end)) => {
                assert(parse_outputs(s, e1, (total - 1) as nat) == Some((ms1 + ms2, end)));
                assert(seq![m0] + (ms1 + ms2) =~= (seq![m0] + ms1) + ms2);
                assert(ms == seq![m0] + ms1);
            },
            None => {},
        }
    }
}

} // verus!
