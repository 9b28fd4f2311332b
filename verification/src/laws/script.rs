//! What a signature covers, and what unlocks an output.

use crate::consensus::transaction::{TransactionView, TxInputView, TxOutput, TxOutputView};
use crate::primitives::bytes::{le_bytes, le_value, lemma_le_bytes_len};
use crate::primitives::hash::{hash160_bytes, ripemd160_bytes, sha256_bytes};
use crate::primitives::serialize::{items_encoding, Encode};
use crate::primitives::varint::varint_bytes;
use crate::script::engine::{
    check_signature, instruction, lemma_instruction_advances, op_step, p2pkh_outcome,
    p2wpkh_outcome, pubkey_parses, run, script_outcome, signature_parses, signature_verifies,
    truthy, ScriptContextView, ScriptError, Stepped,
};
use crate::script::opcodes::{lemma_opcode_bytes_differ, opcode_byte, OpCode};
use crate::script::sighash::{
    amounts, prevouts, scripts, sequences, sighash, sighash_message, SighashError,
};
use vstd::prelude::*;
use vstd::string::*;

verus! {

/// Whether digests have the 32 bytes that SHA-256 gives.
pub open spec fn digests_fill_32_bytes() -> bool {
    forall|d: Seq<u8>| (#[trigger] sha256_bytes(d)).len() == 32
}

/// Whether bytes are the outpoints of inputs: 36 bytes for each, its transaction and its place.
pub open spec fn tells_outpoints(d: Seq<u8>, inputs: Seq<TxInputView>) -> bool {
    &&& d.len() == 36 * inputs.len()
    &&& forall|i: int|
        0 <= i < inputs.len() ==> d.subrange(36 * i, 36 * i + 32) == (
        #[trigger] inputs[i]).prev_txid && d.subrange(36 * i + 32, 36 * i + 36) == le_bytes(
            inputs[i].prev_index as nat,
            4,
        )
}

/// Whether bytes are the sequence numbers of inputs, four for each.
pub open spec fn tells_sequences(d: Seq<u8>, inputs: Seq<TxInputView>) -> bool {
    &&& d.len() == 4 * inputs.len()
    &&& forall|i: int|
        0 <= i < inputs.len() ==> d.subrange(4 * i, 4 * i + 4) == le_bytes(
            (#[trigger] inputs[i]).sequence as nat,
            4,
        )
}

/// Whether bytes are the values of outputs, eight for each.
pub open spec fn tells_values(d: Seq<u8>, outputs: Seq<TxOutputView>) -> bool {
    &&& d.len() == 8 * outputs.len()
    &&& forall|i: int|
        0 <= i < outputs.len() ==> d.subrange(8 * i, 8 * i + 8) == le_bytes(
            (#[trigger] outputs[i]).value as nat,
            8,
        )
}

/// Byte sequences one behind the other.
pub open spec fn glued(parts: Seq<Seq<u8>>) -> Seq<u8>
    decreases parts.len(),
{
    if parts.len() == 0 {
        Seq::empty()
    } else {
        parts[0] + glued(parts.skip(1))
    }
}

/// Bytes behind their number.
pub open spec fn counted_bytes(b: Seq<u8>) -> Seq<u8> {
    varint_bytes(b.len() as u64) + b
}

/// The scripts of outputs, each behind its length.
pub open spec fn script_parts(outputs: Seq<TxOutputView>) -> Seq<Seq<u8>> {
    Seq::new(outputs.len(), |i: int| counted_bytes(outputs[i].script_pubkey))
}

/// Outputs as they are written: the value, then the script behind its length.
pub open spec fn output_parts(outputs: Seq<TxOutputView>) -> Seq<Seq<u8>> {
    Seq::new(
        outputs.len(),
        |i: int|
            le_bytes(outputs[i].value as nat, 8) + counted_bytes(outputs[i].script_pubkey),
    )
}

/// SHA-256, twice.
pub open spec fn twice_hashed(d: Seq<u8>) -> Seq<u8> {
    sha256_bytes(sha256_bytes(d))
}

/// Whether a part of a message is the double hash of bytes that tell outpoints.
pub open spec fn pins_outpoints(part: Seq<u8>, inputs: Seq<TxInputView>) -> bool {
    exists|d: Seq<u8>| #[trigger] twice_hashed(d) == part && tells_outpoints(d, inputs)
}

/// Whether a part of a message is the double hash of bytes that tell sequence numbers.
pub open spec fn pins_sequences(part: Seq<u8>, inputs: Seq<TxInputView>) -> bool {
    exists|d: Seq<u8>| #[trigger] twice_hashed(d) == part && tells_sequences(d, inputs)
}

/// Whether a part of a message is the double hash of bytes that tell values.
pub open spec fn pins_values(part: Seq<u8>, outputs: Seq<TxOutputView>) -> bool {
    exists|d: Seq<u8>| #[trigger] twice_hashed(d) == part && tells_values(d, outputs)
}

/// Whether a message is laid out as what a signature of an input covers.
pub open spec fn signed_layout(
    m: Seq<u8>,
    tx: TransactionView,
    input_index: usize,
    spent: Seq<TxOutputView>,
) -> bool {
    &&& m.len() == 173
    &&& m.subrange(0, 4) == le_bytes(tx.version as nat, 4)
    &&& m.subrange(4, 8) == le_bytes(tx.locktime as nat, 4)
    &&& pins_outpoints(m.subrange(8, 40), tx.inputs)
    &&& pins_values(m.subrange(40, 72), spent)
    &&& m.subrange(72, 104) == twice_hashed(glued(script_parts(spent)))
    &&& pins_sequences(m.subrange(104, 136), tx.inputs)
    &&& m.subrange(136, 168) == twice_hashed(glued(output_parts(tx.outputs)))
    &&& m.subrange(168, 172) == le_bytes((input_index as u32) as nat, 4)
    &&& m[172] == 1
}

proof fn lemma_outpoint_places(inputs: Seq<TxInputView>)
    requires
        forall|i: int| 0 <= i < inputs.len() ==> (#[trigger] inputs[i]).prev_txid.len() == 32,
    ensures
        tells_outpoints(items_encoding::<([u8; 32], u32)>(prevouts(inputs)), inputs),
    decreases inputs.len(),
{
    let d = items_encoding::<([u8; 32], u32)>(prevouts(inputs));
    if inputs.len() > 0 {
        let front = inputs.drop_last();
        assert forall|i: int| 0 <= i < front.len() implies (#[trigger] front[i]).prev_txid.len()
            == 32 by {
            assert(front[i] == inputs[i]);
        }
        lemma_outpoint_places(front);
        assert(prevouts(inputs).drop_last() =~= prevouts(front));
        let e = items_encoding::<([u8; 32], u32)>(prevouts(front));
        let last = inputs.last();
        lemma_le_bytes_len(last.prev_index as nat, 4);
        let item = last.prev_txid + le_bytes(last.prev_index as nat, 4);
        assert(d =~= e + item);
        assert forall|i: int| 0 <= i < inputs.len() implies d.subrange(36 * i, 36 * i + 32) == (
        #[trigger] inputs[i]).prev_txid && d.subrange(36 * i + 32, 36 * i + 36) == le_bytes(
            inputs[i].prev_index as nat,
            4,
        ) by {
            if i < front.len() {
                assert(front[i] == inputs[i]);
                assert(d.subrange(36 * i, 36 * i + 32) =~= e.subrange(36 * i, 36 * i + 32));
                assert(d.subrange(36 * i + 32, 36 * i + 36) =~= e.subrange(
                    36 * i + 32,
                    36 * i + 36,
                ));
            } else {
                assert(d.subrange(36 * i, 36 * i + 32) =~= last.prev_txid);
                assert(d.subrange(36 * i + 32, 36 * i + 36) =~= le_bytes(
                    last.prev_index as nat,
                    4,
                ));
            }
        }
    } else {
        assert(d =~= Seq::<u8>::empty());
    }
}

proof fn lemma_sequence_places(inputs: Seq<TxInputView>)
    ensures
        tells_sequences(items_encoding::<u32>(sequences(inputs)), inputs),
    decreases inputs.len(),
{
    let d = items_encoding::<u32>(sequences(inputs));
    if inputs.len() > 0 {
        let front = inputs.drop_last();
        lemma_sequence_places(front);
        assert(sequences(inputs).drop_last() =~= sequences(front));
        let e = items_encoding::<u32>(sequences(front));
        let item = le_bytes(inputs.last().sequence as nat, 4);
        lemma_le_bytes_len(inputs.last().sequence as nat, 4);
        assert(d =~= e + item);
        assert forall|i: int| 0 <= i < inputs.len() implies d.subrange(4 * i, 4 * i + 4)
            == le_bytes((#[trigger] inputs[i]).sequence as nat, 4) by {
            if i < front.len() {
                assert(front[i] == inputs[i]);
                assert(d.subrange(4 * i, 4 * i + 4) =~= e.subrange(4 * i, 4 * i + 4));
            } else {
                assert(d.subrange(4 * i, 4 * i + 4) =~= item);
            }
        }
    } else {
        assert(d =~= Seq::<u8>::empty());
    }
}

proof fn lemma_value_places(outputs: Seq<TxOutputView>)
    ensures
        tells_values(items_encoding::<u64>(amounts(outputs)), outputs),
    decreases outputs.len(),
{
    let d = items_encoding::<u64>(amounts(outputs));
    if outputs.len() > 0 {
        let front = outputs.drop_last();
        lemma_value_places(front);
        assert(amounts(outputs).drop_last() =~= amounts(front));
        let e = items_encoding::<u64>(amounts(front));
        let item = le_bytes(outputs.last().value as nat, 8);
        lemma_le_bytes_len(outputs.last().value as nat, 8);
        assert(d =~= e + item);
        assert forall|i: int| 0 <= i < outputs.len() implies d.subrange(8 * i, 8 * i + 8)
            == le_bytes((#[trigger] outputs[i]).value as nat, 8) by {
            if i < front.len() {
                assert(front[i] == outputs[i]);
                assert(d.subrange(8 * i, 8 * i + 8) =~= e.subrange(8 * i, 8 * i + 8));
            } else {
                assert(d.subrange(8 * i, 8 * i + 8) =~= item);
            }
        }
    } else {
        assert(d =~= Seq::<u8>::empty());
    }
}

/// What is put behind glued parts follows them.
pub proof fn lemma_glued_push(parts: Seq<Seq<u8>>, last: Seq<u8>)
    ensures
        glued(parts.push(last)) == glued(parts) + last,
    decreases parts.len(),
{
    let all = parts.push(last);
    if parts.len() == 0 {
        let rest = all.skip(1);
        assert(rest.len() == 0);
        assert(glued(rest) == Seq::<u8>::empty());
        assert(glued(all) == all[0] + glued(rest));
        assert(all[0] + Seq::<u8>::empty() =~= last);
        assert(glued(parts) + last =~= last);
    } else {
        assert(all.skip(1) =~= parts.skip(1).push(last));
        lemma_glued_push(parts.skip(1), last);
        assert(glued(all) =~= glued(parts) + last);
    }
}

proof fn lemma_script_parts(outputs: Seq<TxOutputView>)
    ensures
        items_encoding::<Vec<u8>>(scripts(outputs)) == glued(script_parts(outputs)),
    decreases outputs.len(),
{
    if outputs.len() > 0 {
        let front = outputs.drop_last();
        lemma_script_parts(front);
        let last = counted_bytes(outputs.last().script_pubkey);
        assert(scripts(outputs).drop_last() =~= scripts(front));
        assert(script_parts(outputs) =~= script_parts(front).push(last));
        lemma_glued_push(script_parts(front), last);
        assert(<Vec<u8> as Encode>::encoding(scripts(outputs).last()) =~= last);
    }
}

proof fn lemma_output_parts(outputs: Seq<TxOutputView>)
    ensures
        items_encoding::<TxOutput>(outputs) == glued(output_parts(outputs)),
    decreases outputs.len(),
{
    if outputs.len() > 0 {
        let front = outputs.drop_last();
        lemma_output_parts(front);
        let o = outputs.last();
        let last = le_bytes(o.value as nat, 8) + counted_bytes(o.script_pubkey);
        assert(output_parts(outputs) =~= output_parts(front).push(last));
        lemma_glued_push(output_parts(front), last);
        assert(TxOutput::encoding(o) =~= last);
    }
}

/// The digest that a signature of an input is made of: SHA-256 over the twice written hash of
/// the tag and over a message that holds, each at its place, version, locktime, the double hashes
/// of the outpoints, of the values and of the scripts that are spent, of the sequence numbers and
/// of the outputs, the place of the input and the kind of the signature.
pub proof fn lemma_signature_covers(
    tx: TransactionView,
    input_index: usize,
    spent: Seq<TxOutputView>,
)
    requires
        digests_fill_32_bytes(),
        forall|i: int| 0 <= i < tx.inputs.len() ==> (#[trigger] tx.inputs[i]).prev_txid.len() == 32,
        input_index < tx.inputs.len(),
        spent.len() == tx.inputs.len(),
    ensures
        exists|m: Seq<u8>|
            {
                &&& #[trigger] signed_layout(m, tx, input_index, spent)
                &&& sighash(tx, input_index, spent) == Ok::<Seq<u8>, SighashError>(
                    sha256_bytes(
                        sha256_bytes("FerrousSighash".spec_bytes()) + sha256_bytes(
                            "FerrousSighash".spec_bytes(),
                        ) + m,
                    ),
                )
            },
{
    let m = sighash_message(tx, input_index, spent);
    lemma_outpoint_places(tx.inputs);
    lemma_sequence_places(tx.inputs);
    lemma_value_places(spent);
    lemma_script_parts(spent);
    lemma_output_parts(tx.outputs);
    lemma_le_bytes_len(tx.version as nat, 4);
    lemma_le_bytes_len(tx.locktime as nat, 4);
    lemma_le_bytes_len((input_index as u32) as nat, 4);
    let d1 = items_encoding::<([u8; 32], u32)>(prevouts(tx.inputs));
    let d2 = items_encoding::<u64>(amounts(spent));
    let d3 = glued(script_parts(spent));
    let d4 = items_encoding::<u32>(sequences(tx.inputs));
    let d5 = glued(output_parts(tx.outputs));
    assert(m.subrange(0, 4) =~= le_bytes(tx.version as nat, 4));
    assert(m.subrange(4, 8) =~= le_bytes(tx.locktime as nat, 4));
    assert(m.subrange(8, 40) =~= twice_hashed(d1));
    assert(m.subrange(40, 72) =~= twice_hashed(d2));
    assert(m.subrange(72, 104) =~= twice_hashed(d3));
    assert(m.subrange(104, 136) =~= twice_hashed(d4));
    assert(m.subrange(136, 168) =~= twice_hashed(d5));
    assert(m.subrange(168, 172) =~= le_bytes((input_index as u32) as nat, 4));
    assert(signed_layout(m, tx, input_index, spent));
}

/// There is a digest exactly for an input that is there, with as many spent outputs as inputs.
pub proof fn lemma_digest_there(tx: TransactionView, input_index: usize, spent: Seq<TxOutputView>)
    ensures
        sighash(tx, input_index, spent) is Ok <==> input_index < tx.inputs.len() && spent.len()
            == tx.inputs.len(),
{
}

/// A signature is good exactly if the key has 33 bytes and is one, the signature, without a last
/// byte of one, is one, and it is valid for the digest of the input under the key.
pub proof fn lemma_good_signature(
    pubkey: Seq<u8>,
    signature: Seq<u8>,
    context: ScriptContextView,
    der: Seq<u8>,
)
    requires
        signature.len() > 0,
        signature == der.push(1) || (signature == der && signature.last() != 1),
    ensures
        check_signature(pubkey, signature, context) == Ok::<bool, ScriptError>(true) <==> {
            let digest = sighash(
                context.transaction,
                context.input_index,
                context.spent_outputs,
            );
            &&& pubkey.len() == 33
            &&& pubkey_parses(pubkey)
            &&& digest is Ok
            &&& signature_parses(der)
            &&& signature_verifies(digest->Ok_0, der, pubkey)
        },
{
    if signature == der.push(1) {
        assert(signature.drop_last() =~= der);
    }
}

/// No signature at all is good for nothing.
pub proof fn lemma_no_signature(pubkey: Seq<u8>, context: ScriptContextView)
    ensures
        check_signature(pubkey, Seq::empty(), context) != Ok::<bool, ScriptError>(true),
{
}

/// An output to a witness is unlocked exactly by a good signature and the key that it names.
pub proof fn lemma_witness_unlocks(
    witness: Seq<Seq<u8>>,
    key_hash: Seq<u8>,
    context: ScriptContextView,
)
    requires
        key_hash.len() == 20,
    ensures
        p2wpkh_outcome(witness, seq![0x00u8, 0x14u8] + key_hash, context) == Ok::<
            bool,
            ScriptError,
        >(true) <==> {
            &&& witness.len() == 2
            &&& ripemd160_bytes(sha256_bytes(witness[1])) == key_hash
            &&& check_signature(witness[1], witness[0], context) == Ok::<bool, ScriptError>(true)
        },
{
    let script = seq![0x00u8, 0x14u8] + key_hash;
    assert(script.subrange(2, 22) =~= key_hash);
}

proof fn lemma_opcode(
    script: Seq<u8>,
    pc: int,
    stack: Seq<Seq<u8>>,
    context: ScriptContextView,
    op: OpCode,
)
    requires
        script[pc] == opcode_byte(op),
        opcode_byte(op) > 0x4b,
    ensures
        instruction(script, pc, stack, context) == op_step(op, script, pc + 1, stack, context),
{
    let other = choose|o: OpCode| opcode_byte(o) == script[pc];
    lemma_opcode_bytes_differ(op, other);
}

/// The script that names the hash of a key, behind a signature and a key: the output is
/// unlocked exactly if the key has that hash and the signature is good.
pub proof fn lemma_key_hash_unlocks(
    signature: Seq<u8>,
    pubkey: Seq<u8>,
    key_hash: Seq<u8>,
    context: ScriptContextView,
)
    requires
        key_hash.len() == 20,
        1 <= signature.len() <= 75,
        1 <= pubkey.len() <= 75,
    ensures
        p2pkh_outcome(
            seq![signature.len() as u8] + signature + seq![pubkey.len() as u8] + pubkey,
            seq![0x76u8, 0xa9u8, 0x14u8] + key_hash + seq![0x88u8, 0xacu8],
            context,
        ) == Ok::<bool, ScriptError>(true) <==> ripemd160_bytes(sha256_bytes(pubkey)) == key_hash
            && check_signature(pubkey, signature, context) == Ok::<bool, ScriptError>(true),
{
    let a = seq![signature.len() as u8] + signature + seq![pubkey.len() as u8] + pubkey;
    let b = seq![0x76u8, 0xa9u8, 0x14u8] + key_hash + seq![0x88u8, 0xacu8];
    let none = Seq::<Seq<u8>>::empty();
    let one = seq![signature];
    let two = seq![signature, pubkey];
    let n = signature.len() as int;
    let k = pubkey.len() as int;
    // The signature, then the key
    assert(a.subrange(1, 1 + n) =~= signature);
    assert(none.push(signature) =~= one);
    assert(instruction(a, 0, none, context) == Stepped::Ok((1 + n, one)));
    assert(a[1 + n] == pubkey.len() as u8);
    assert(a.subrange(2 + n, 2 + n + k) =~= pubkey);
    assert(one.push(pubkey) =~= two);
    assert(instruction(a, 1 + n, one, context) == Stepped::Ok((2 + n + k, two)));
    assert(a.len() == 2 + n + k);
    assert(run(a, 2 + n + k, two, context) == Ok::<Seq<Seq<u8>>, ScriptError>(two));
    assert(run(a, 1 + n, one, context) == Ok::<Seq<Seq<u8>>, ScriptError>(two));
    assert(run(a, 0, none, context) == Ok::<Seq<Seq<u8>>, ScriptError>(two));
    // The key twice, its hash, the hash that is named
    let three = seq![signature, pubkey, pubkey];
    let hashed = seq![signature, pubkey, hash160_bytes(pubkey)];
    let named = seq![signature, pubkey, hash160_bytes(pubkey), key_hash];
    lemma_opcode(b, 0, two, context, OpCode::OP_DUP);
    assert(two.push(two.last()) =~= three);
    assert(instruction(b, 0, two, context) == Stepped::Ok((1int, three)));
    lemma_opcode(b, 1, three, context, OpCode::OP_HASH160);
    assert(three.take(2).push(hash160_bytes(pubkey)) =~= hashed);
    assert(instruction(b, 1, three, context) == Stepped::Ok((2int, hashed)));
    assert(b[2] == 0x14);
    assert(b.subrange(3, 23) =~= key_hash);
    assert(hashed.push(key_hash) =~= named);
    assert(instruction(b, 2, hashed, context) == Stepped::Ok((23int, named)));
    assert(b[23] == 0x88 && b[24] == 0xac && b.len() == 25);
    lemma_opcode(b, 23, named, context, OpCode::OP_EQUALVERIFY);
    assert(named.take(2) =~= two);
    lemma_opcode(b, 24, two, context, OpCode::OP_CHECKSIG);
    assert(two.take(0) =~= none);
    reveal_with_fuel(run, 2);
    if hash160_bytes(pubkey) == key_hash {
        assert(instruction(b, 23, named, context) == Stepped::Ok((24int, two)));
        match check_signature(pubkey, signature, context) {
            Ok(valid) => {
                let item = if valid {
                    seq![1u8]
                } else {
                    Seq::empty()
                };
                let end = seq![item];
                assert(none.push(item) =~= end);
                assert(instruction(b, 24, two, context) == Stepped::Ok((25int, end)));
                assert(run(b, 25, end, context) == Ok::<Seq<Seq<u8>>, ScriptError>(end));
                assert(run(b, 24, two, context) == Ok::<Seq<Seq<u8>>, ScriptError>(end));
                assert(run(b, 23, named, context) == Ok::<Seq<Seq<u8>>, ScriptError>(end));
                assert(end.last() == item);
                if valid {
                    assert(item[0] == 1);
                    assert(truthy(item));
                } else {
                    assert(!truthy(item));
                }
            },
            Err(e) => {
                assert(run(b, 24, two, context) is Err);
                assert(run(b, 23, named, context) is Err);
            },
        }
    } else {
        assert(run(b, 23, named, context) is Err);
    }
    assert(run(b, 2, hashed, context) == run(b, 23, named, context));
    assert(run(b, 1, three, context) == run(b, 2, hashed, context));
    assert(run(b, 0, two, context) == run(b, 1, three, context));
}

/// Up to 75, a byte pushes as many bytes as it says, if there are so many.
pub proof fn lemma_short_push(
    script: Seq<u8>,
    pc: int,
    stack: Seq<Seq<u8>>,
    context: ScriptContextView,
)
    requires
        0 <= pc < script.len(),
        script[pc] <= 75,
    ensures
        pc + script[pc] < script.len() ==> instruction(script, pc, stack, context) == Stepped::Ok(
            (
                pc + 1 + script[pc],
                stack.push(script.subrange(pc + 1, pc + 1 + script[pc])),
            ),
        ),
        pc + script[pc] >= script.len() ==> instruction(script, pc, stack, context) is Err,
{
}

/// The bytes from 0x51 to 0x60 push the numbers from one to sixteen.
pub proof fn lemma_number_push(
    script: Seq<u8>,
    pc: int,
    stack: Seq<Seq<u8>>,
    context: ScriptContextView,
)
    requires
        0 <= pc < script.len(),
        0x51 <= script[pc] <= 0x60,
    ensures
        instruction(script, pc, stack, context) == Stepped::Ok(
            (pc + 1, stack.push(seq![(script[pc] - 0x50) as u8])),
        ),
{
    let b = script[pc];
    if b == 0x51 {
        lemma_opcode(script, pc, stack, context, OpCode::OP_1);
    }
    if b == 0x52 {
        lemma_opcode(script, pc, stack, context, OpCode::OP_2);
    }
    if b == 0x53 {
        lemma_opcode(script, pc, stack, context, OpCode::OP_3);
    }
    if b == 0x54 {
        lemma_opcode(script, pc, stack, context, OpCode::OP_4);
    }
    if b == 0x55 {
        lemma_opcode(script, pc, stack, context, OpCode::OP_5);
    }
    if b == 0x56 {
        lemma_opcode(script, pc, stack, context, OpCode::OP_6);
    }
    if b == 0x57 {
        lemma_opcode(script, pc, stack, context, OpCode::OP_7);
    }
    if b == 0x58 {
        lemma_opcode(script, pc, stack, context, OpCode::OP_8);
    }
    if b == 0x59 {
        lemma_opcode(script, pc, stack, context, OpCode::OP_9);
    }
    if b == 0x5a {
        lemma_opcode(script, pc, stack, context, OpCode::OP_10);
    }
    if b == 0x5b {
        lemma_opcode(script, pc, stack, context, OpCode::OP_11);
    }
    if b == 0x5c {
        lemma_opcode(script, pc, stack, context, OpCode::OP_12);
    }
    if b == 0x5d {
        lemma_opcode(script, pc, stack, context, OpCode::OP_13);
    }
    if b == 0x5e {
        lemma_opcode(script, pc, stack, context, OpCode::OP_14);
    }
    if b == 0x5f {
        lemma_opcode(script, pc, stack, context, OpCode::OP_15);
    }
    if b == 0x60 {
        lemma_opcode(script, pc, stack, context, OpCode::OP_16);
    }
}

/// Longer pushes state their length in one, two or four bytes, the lowest first.
pub proof fn lemma_long_push(
    script: Seq<u8>,
    pc: int,
    width: int,
    stack: Seq<Seq<u8>>,
    context: ScriptContextView,
)
    requires
        0 <= pc,
        pc + width < script.len(),
        (script[pc] == 0x4c && width == 1) || (script[pc] == 0x4d && width == 2) || (script[pc]
            == 0x4e && width == 4),
    ensures
        ({
            let n = le_value(script.subrange(pc + 1, pc + 1 + width)) as int;
            let from = pc + 1 + width;
            &&& from + n <= script.len() ==> instruction(script, pc, stack, context) == Stepped::Ok(
                (from + n, stack.push(script.subrange(from, from + n))),
            )
            &&& from + n > script.len() ==> instruction(script, pc, stack, context) is Err
        }),
{
    if width == 1 {
        lemma_opcode(script, pc, stack, context, OpCode::OP_PUSHDATA1);
    } else if width == 2 {
        lemma_opcode(script, pc, stack, context, OpCode::OP_PUSHDATA2);
    } else {
        lemma_opcode(script, pc, stack, context, OpCode::OP_PUSHDATA4);
    }
}

/// A stack with one more item, or two more.
pub open spec fn on_top(rest: Seq<Seq<u8>>, a: Seq<u8>, b: Seq<u8>) -> Seq<Seq<u8>> {
    rest.push(a).push(b)
}

/// What the other instructions do to the two topmost items of a stack.
pub proof fn lemma_stack_instructions(
    script: Seq<u8>,
    pc: int,
    rest: Seq<Seq<u8>>,
    a: Seq<u8>,
    b: Seq<u8>,
    context: ScriptContextView,
)
    requires
        0 <= pc < script.len(),
    ensures
        ({
            let r = instruction(script, pc, on_top(rest, a, b), context);
            let signed = check_signature(b, a, context);
            &&& script[pc] == 0x76 ==> r == Stepped::Ok((pc + 1, rest.push(a).push(b).push(b)))
            &&& script[pc] == 0x75 ==> r == Stepped::Ok((pc + 1, rest.push(a)))
            &&& script[pc] == 0xa9 ==> r == Stepped::Ok(
                (pc + 1, rest.push(a).push(ripemd160_bytes(sha256_bytes(b)))),
            )
            &&& script[pc] == 0x87 && a == b ==> r == Stepped::Ok((pc + 1, rest.push(seq![1u8])))
            &&& script[pc] == 0x87 && a != b ==> r == Stepped::Ok((pc + 1, rest.push(Seq::empty())))
            &&& script[pc] == 0x88 && a == b ==> r == Stepped::Ok((pc + 1, rest))
            &&& script[pc] == 0x88 && a != b ==> r is Err
            &&& script[pc] == 0x69 && (exists|i: int| 0 <= i < b.len() && b[i] != 0) ==> r
                == Stepped::Ok((pc + 1, rest.push(a)))
            &&& script[pc] == 0x69 && (forall|i: int| 0 <= i < b.len() ==> b[i] == 0) ==> r is Err
            &&& script[pc] == 0xac && signed == Ok::<bool, ScriptError>(true) ==> r == Stepped::Ok(
                (pc + 1, rest.push(seq![1u8])),
            )
            &&& script[pc] == 0xac && signed == Ok::<bool, ScriptError>(false) ==> r == Stepped::Ok(
                (pc + 1, rest.push(Seq::empty())),
            )
            &&& script[pc] == 0xad && signed == Ok::<bool, ScriptError>(true) ==> r == Stepped::Ok(
                (pc + 1, rest),
            )
            &&& script[pc] == 0xad && signed == Ok::<bool, ScriptError>(false) ==> r is Err
            &&& (script[pc] == 0xac || script[pc] == 0xad) && signed is Err ==> r is Err
            &&& script[pc] == 0x6a ==> r is Err
        }),
{
    let stack = on_top(rest, a, b);
    let c = script[pc];
    let n = stack.len() as int;
    assert(stack.take(n - 1) =~= rest.push(a));
    assert(stack.take(n - 2) =~= rest);
    if c == 0x76 {
        lemma_opcode(script, pc, stack, context, OpCode::OP_DUP);
    } else if c == 0x75 {
        lemma_opcode(script, pc, stack, context, OpCode::OP_DROP);
    } else if c == 0xa9 {
        lemma_opcode(script, pc, stack, context, OpCode::OP_HASH160);
    } else if c == 0x87 {
        lemma_opcode(script, pc, stack, context, OpCode::OP_EQUAL);
    } else if c == 0x88 {
        lemma_opcode(script, pc, stack, context, OpCode::OP_EQUALVERIFY);
    } else if c == 0x69 {
        lemma_opcode(script, pc, stack, context, OpCode::OP_VERIFY);
    } else if c == 0xac {
        lemma_opcode(script, pc, stack, context, OpCode::OP_CHECKSIG);
    } else if c == 0xad {
        lemma_opcode(script, pc, stack, context, OpCode::OP_CHECKSIGVERIFY);
    } else if c == 0x6a {
        lemma_opcode(script, pc, stack, context, OpCode::OP_RETURN);
    }
}

/// A byte that stands for no instruction ends a script.
pub proof fn lemma_unknown_instruction(
    script: Seq<u8>,
    pc: int,
    stack: Seq<Seq<u8>>,
    context: ScriptContextView,
)
    requires
        0 <= pc < script.len(),
        script[pc] == 0x50 || 0x60 < script[pc] < 0x69 || 0x6a < script[pc] < 0x75 || 0x76
            < script[pc] < 0x87 || 0x88 < script[pc] < 0xa9 || 0xa9 < script[pc] < 0xac
            || script[pc] > 0xad,
    ensures
        instruction(script, pc, stack, context) == Stepped::Err(ScriptError::InvalidOpcode),
{
}

/// Instructions are carried out one after the other, to the end or the first that fails, as long as
/// the stack holds no more than a thousand items.
pub proof fn lemma_run_steps(
    script: Seq<u8>,
    pc: int,
    stack: Seq<Seq<u8>>,
    context: ScriptContextView,
)
    requires
        0 <= pc,
    ensures
        stack.len() > 1000 ==> run(script, pc, stack, context) is Err,
        stack.len() <= 1000 && pc >= script.len() ==> run(script, pc, stack, context) == Ok::<
            Seq<Seq<u8>>,
            ScriptError,
        >(stack),
        stack.len() <= 1000 && pc < script.len() ==> match instruction(
            script,
            pc,
            stack,
            context,
        ) {
            Ok((next, after)) => run(script, pc, stack, context) == run(
                script,
                next,
                after,
                context,
            ),
            Err(e) => run(script, pc, stack, context) == Err::<Seq<Seq<u8>>, ScriptError>(e),
        },
        script.len() > 10_000 ==> script_outcome(script, stack, context) is Err,
        script.len() <= 10_000 ==> script_outcome(script, stack, context) == run(
            script,
            0,
            stack,
            context,
        ),
{
    if pc < script.len() {
        lemma_instruction_advances(script, pc, stack, context);
    }
}

} // verus!
