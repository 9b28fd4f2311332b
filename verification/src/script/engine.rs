//! Script execution.

use crate::consensus::transaction::{
    Transaction, TransactionView, TxOutput, TxOutputView, Witness,
};
use crate::primitives::bytes::{bytes_equal, le_value, tail_from, u16_from_le, u32_from_le};
use crate::primitives::hash::{hash160, hash160_bytes, Hash256};
use crate::primitives::serialize::views;
use crate::script::opcodes::{lemma_opcode_bytes_differ, opcode_byte, OpCode};
use crate::script::sighash::{compute_sighash, sighash};
use vstd::prelude::*;

verus! {

type Stack = Vec<Vec<u8>>;

pub const MAX_STACK_SIZE: usize = 1000;

pub const MAX_SCRIPT_SIZE: usize = 10_000;

/// What a script is executed for: one input of a transaction and the outputs
/// that the transaction spends.
pub struct ScriptContext<'a> {
    pub transaction: &'a Transaction,
    pub input_index: usize,
    pub spent_outputs: &'a [TxOutput],
}

/// What a script context stands for.
pub struct ScriptContextView {
    pub transaction: TransactionView,
    pub input_index: usize,
    pub spent_outputs: Seq<TxOutputView>,
}

impl<'a> View for ScriptContext<'a> {
    type V = ScriptContextView;

    open spec fn view(&self) -> ScriptContextView {
        ScriptContextView {
            transaction: self.transaction@,
            input_index: self.input_index,
            spent_outputs: views(self.spent_outputs@),
        }
    }
}

#[derive(Debug, Clone, Copy, PartialEq, Eq, Structural)]
pub enum ScriptError {
    StackUnderflow,
    StackOverflow,
    ScriptTooLarge,
    InvalidOpcode,
    VerifyFailed,
    EqualVerifyFailed,
    InvalidPushSize,
    InvalidSignature,
    InvalidPubkey,
    ExecutionFailed,
    InvalidWitness,
    UnexpectedEof,
}

/// Whether bytes are the serialisation of a point on the curve.
pub uninterp spec fn pubkey_parses(bytes: Seq<u8>) -> bool;

/// Whether bytes are a DER signature.
pub uninterp spec fn signature_parses(der: Seq<u8>) -> bool;

/// Whether a DER signature of a message digest verifies under a public key.
pub uninterp spec fn signature_verifies(digest: Seq<u8>, der: Seq<u8>, pubkey: Seq<u8>) -> bool;

/// `secp256k1::PublicKey::from_slice`: whether it succeeds depends on the bytes
/// alone.
#[verifier::external_body]
fn parse_pubkey(bytes: &[u8]) -> (ok: bool)
    ensures
        ok == pubkey_parses(bytes@),
{
    secp256k1::PublicKey::from_slice(bytes).is_ok()
}

/// `secp256k1::ecdsa::Signature::from_der`: whether it succeeds depends on the
/// bytes alone.
#[verifier::external_body]
fn parse_signature(der: &[u8]) -> (ok: bool)
    ensures
        ok == signature_parses(der@),
{
    secp256k1::ecdsa::Signature::from_der(der).is_ok()
}

/// `secp256k1::Secp256k1::verify_ecdsa`, for a public key and a signature that
/// parse: whether it succeeds depends on digest, signature and key alone.
#[verifier::external_body]
fn verify_ecdsa(digest: &Hash256, der: &[u8], pubkey: &[u8]) -> (ok: bool)
    requires
        pubkey_parses(pubkey@),
        signature_parses(der@),
    ensures
        ok == signature_verifies(digest@, der@, pubkey@),
{
    let key = secp256k1::PublicKey::from_slice(pubkey).unwrap();
    let signature = secp256k1::ecdsa::Signature::from_der(der).unwrap();
    let message = secp256k1::Message::from_digest(*digest);
    secp256k1::SECP256K1.verify_ecdsa(&message, &signature, &key).is_ok()
}

/// The signature in a stack item, without the hash type that may follow it.
pub open spec fn der_part(signature: Seq<u8>) -> Seq<u8> {
    if signature.len() > 0 && signature.last() == 0x01 {
        signature.drop_last()
    } else {
        signature
    }
}

/// What a signature check comes to, given what the parts of it came to.
pub open spec fn signature_outcome(
    pubkey_ok: bool,
    signature_empty: bool,
    sighash_ok: bool,
    der_ok: bool,
    verified: bool,
) -> Result<bool, ScriptError> {
    if !pubkey_ok {
        Err(ScriptError::InvalidPubkey)
    } else if signature_empty {
        Ok(false)
    } else if !sighash_ok {
        Err(ScriptError::ExecutionFailed)
    } else if !der_ok {
        Err(ScriptError::InvalidSignature)
    } else {
        Ok(verified)
    }
}

/// What a signature check comes to.
pub open spec fn check_signature(
    pubkey: Seq<u8>,
    signature: Seq<u8>,
    context: ScriptContextView,
) -> Result<bool, ScriptError> {
    let digest = sighash(context.transaction, context.input_index, context.spent_outputs);
    signature_outcome(
        pubkey.len() == 33 && pubkey_parses(pubkey),
        signature.len() == 0,
        digest is Ok,
        signature_parses(der_part(signature)),
        signature_verifies(digest->Ok_0, der_part(signature), pubkey),
    )
}

/// What a signature check comes to, given what the parts of it came to: a key
/// that does not parse is an error, an empty signature is a failed check, and
/// a hash that cannot be formed or a signature that does not parse are errors.
pub fn judge_signature(
    pubkey_ok: bool,
    signature_empty: bool,
    sighash_ok: bool,
    der_ok: bool,
    verified: bool,
) -> (r: Result<bool, ScriptError>)
    ensures
        r == signature_outcome(pubkey_ok, signature_empty, sighash_ok, der_ok, verified),
{
    if !pubkey_ok {
        Err(ScriptError::InvalidPubkey)
    } else if signature_empty {
        Ok(false)
    } else if !sighash_ok {
        Err(ScriptError::ExecutionFailed)
    } else if !der_ok {
        Err(ScriptError::InvalidSignature)
    } else {
        Ok(verified)
    }
}

fn verify_signature(pubkey_bytes: &[u8], signature: &[u8], context: &ScriptContext) -> (r: Result<
    bool,
    ScriptError,
>)
    ensures
        r == check_signature(pubkey_bytes@, signature@, context@),
{
    let pubkey_ok = pubkey_bytes.len() == 33 && parse_pubkey(pubkey_bytes);
    if !pubkey_ok || signature.len() == 0 {
        return judge_signature(pubkey_ok, signature.len() == 0, false, false, false);
    }
    let der = if signature[signature.len() - 1] == 0x01 {
        vstd::slice::slice_subrange(signature, 0, signature.len() - 1)
    } else {
        signature
    };
    assert(der@ =~= der_part(signature@));
    match compute_sighash(context.transaction, context.input_index, context.spent_outputs) {
        Err(_) => judge_signature(pubkey_ok, false, false, false, false),
        Ok(digest) => {
            let der_ok = parse_signature(der);
            let verified = der_ok && verify_ecdsa(&digest, der, pubkey_bytes);
            judge_signature(pubkey_ok, false, true, der_ok, verified)
        },
    }
}

/// Whether a stack item counts as true: some byte of it is not zero.
pub open spec fn truthy(item: Seq<u8>) -> bool {
    exists|i: int| 0 <= i < item.len() && item[i] != 0
}

fn is_true(item: &[u8]) -> (r: bool)
    ensures
        r == truthy(item@),
{
    let mut i: usize = 0;
    while i < item.len()
        invariant
            i <= item@.len(),
            forall|j: int| 0 <= j < i ==> item@[j] == 0,
        decreases item@.len() - i,
    {
        if item[i] != 0 {
            return true;
        }
        i += 1;
    }
    false
}

/// Outcome of one opcode: where execution goes on, and with which stack.
pub type Stepped = Result<(int, Seq<Seq<u8>>), ScriptError>;

/// The stack item for a truth value.
pub open spec fn truth_item(b: bool) -> Seq<u8> {
    if b {
        seq![1u8]
    } else {
        Seq::empty()
    }
}

/// Pushes the `len` bytes that stand at `pc`.
pub open spec fn push_bytes(script: Seq<u8>, pc: int, len: int, stack: Seq<Seq<u8>>) -> Stepped {
    if pc + len > script.len() {
        Err(ScriptError::InvalidPushSize)
    } else {
        Ok((pc + len, stack.push(script.subrange(pc, pc + len))))
    }
}

/// Pushes the bytes whose length stands at `pc` in `width` bytes.
pub open spec fn push_counted(
    script: Seq<u8>,
    pc: int,
    width: int,
    stack: Seq<Seq<u8>>,
) -> Stepped {
    if pc + width > script.len() {
        Err(ScriptError::UnexpectedEof)
    } else {
        push_bytes(
            script,
            pc + width,
            le_value(script.subrange(pc, pc + width)) as int,
            stack,
        )
    }
}

/// Outcome of the opcode `op`, whose operands begin at `pc`.
pub open spec fn op_step(
    op: OpCode,
    script: Seq<u8>,
    pc: int,
    stack: Seq<Seq<u8>>,
    context: ScriptContextView,
) -> Stepped {
    let n = stack.len();
    let top = stack.last();
    let below = stack[n - 2];
    let rest1 = stack.take(n - 1);
    let rest2 = stack.take(n - 2);
    match op {
        OpCode::OP_0 => Ok((pc, stack.push(Seq::empty()))),
        OpCode::OP_1NEGATE => Ok((pc, stack.push(seq![0x81u8]))),
        OpCode::OP_1 => Ok((pc, stack.push(seq![1u8]))),
        OpCode::OP_2 => Ok((pc, stack.push(seq![2u8]))),
        OpCode::OP_3 => Ok((pc, stack.push(seq![3u8]))),
        OpCode::OP_4 => Ok((pc, stack.push(seq![4u8]))),
        OpCode::OP_5 => Ok((pc, stack.push(seq![5u8]))),
        OpCode::OP_6 => Ok((pc, stack.push(seq![6u8]))),
        OpCode::OP_7 => Ok((pc, stack.push(seq![7u8]))),
        OpCode::OP_8 => Ok((pc, stack.push(seq![8u8]))),
        OpCode::OP_9 => Ok((pc, stack.push(seq![9u8]))),
        OpCode::OP_10 => Ok((pc, stack.push(seq![10u8]))),
        OpCode::OP_11 => Ok((pc, stack.push(seq![11u8]))),
        OpCode::OP_12 => Ok((pc, stack.push(seq![12u8]))),
        OpCode::OP_13 => Ok((pc, stack.push(seq![13u8]))),
        OpCode::OP_14 => Ok((pc, stack.push(seq![14u8]))),
        OpCode::OP_15 => Ok((pc, stack.push(seq![15u8]))),
        OpCode::OP_16 => Ok((pc, stack.push(seq![16u8]))),
        OpCode::OP_PUSHDATA1 => push_counted(script, pc, 1, stack),
        OpCode::OP_PUSHDATA2 => push_counted(script, pc, 2, stack),
        OpCode::OP_PUSHDATA4 => push_counted(script, pc, 4, stack),
        OpCode::OP_DUP => if n < 1 {
            Err(ScriptError::StackUnderflow)
        } else {
            Ok((pc, stack.push(top)))
        },
        OpCode::OP_DROP => if n < 1 {
            Err(ScriptError::StackUnderflow)
        } else {
            Ok((pc, rest1))
        },
        OpCode::OP_HASH160 => if n < 1 {
            Err(ScriptError::StackUnderflow)
        } else {
            Ok((pc, rest1.push(hash160_bytes(top))))
        },
        OpCode::OP_EQUAL => if n < 2 {
            Err(ScriptError::StackUnderflow)
        } else {
            Ok((pc, rest2.push(truth_item(top == below))))
        },
        OpCode::OP_EQUALVERIFY => if n < 2 {
            Err(ScriptError::StackUnderflow)
        } else if top != below {
            Err(ScriptError::EqualVerifyFailed)
        } else {
            Ok((pc, rest2))
        },
        OpCode::OP_VERIFY => if n < 1 {
            Err(ScriptError::StackUnderflow)
        } else if !truthy(top) {
            Err(ScriptError::VerifyFailed)
        } else {
            Ok((pc, rest1))
        },
        OpCode::OP_CHECKSIG => if n < 2 {
            Err(ScriptError::StackUnderflow)
        } else {
            match check_signature(top, below, context) {
                Err(e) => Err(e),
                Ok(valid) => Ok((pc, rest2.push(truth_item(valid)))),
            }
        },
        OpCode::OP_CHECKSIGVERIFY => if n < 2 {
            Err(ScriptError::StackUnderflow)
        } else {
            match check_signature(top, below, context) {
                Err(e) => Err(e),
                Ok(valid) => if valid {
                    Ok((pc, rest2))
                } else {
                    Err(ScriptError::VerifyFailed)
                },
            }
        },
        OpCode::OP_RETURN => Err(ScriptError::ExecutionFailed),
    }
}

/// Outcome of the instruction at `pc`. Bytes up to 75 push that many bytes.
pub open spec fn instruction(
    script: Seq<u8>,
    pc: int,
    stack: Seq<Seq<u8>>,
    context: ScriptContextView,
) -> Stepped {
    let byte = script[pc];
    if byte <= 0x4b {
        push_bytes(script, pc + 1, byte as int, stack)
    } else if exists|op: OpCode| opcode_byte(op) == byte {
        op_step(choose|op: OpCode| opcode_byte(op) == byte, script, pc + 1, stack, context)
    } else {
        Err(ScriptError::InvalidOpcode)
    }
}

/// Outcome of a script from `pc` on. The stack may hold no more than 1000 items
/// before each instruction and at the end.
pub open spec fn run(
    script: Seq<u8>,
    pc: int,
    stack: Seq<Seq<u8>>,
    context: ScriptContextView,
) -> Result<Seq<Seq<u8>>, ScriptError>
    decreases script.len() - pc,
{
    if stack.len() > MAX_STACK_SIZE {
        Err(ScriptError::StackOverflow)
    } else if pc >= script.len() {
        Ok(stack)
    } else {
        match instruction(script, pc, stack, context) {
            Err(e) => Err(e),
            Ok((next, after)) => if next > pc {
                run(script, next, after, context)
            } else {
                Err(ScriptError::ExecutionFailed)
            },
        }
    }
}

/// Outcome of a script on a given stack.
pub open spec fn script_outcome(
    script: Seq<u8>,
    stack: Seq<Seq<u8>>,
    context: ScriptContextView,
) -> Result<Seq<Seq<u8>>, ScriptError> {
    if script.len() > MAX_SCRIPT_SIZE {
        Err(ScriptError::ScriptTooLarge)
    } else {
        run(script, 0, stack, context)
    }
}

/// A script that ends well leaves no more than 1000 items.
pub proof fn lemma_stack_bounded(
    script: Seq<u8>,
    pc: int,
    stack: Seq<Seq<u8>>,
    context: ScriptContextView,
)
    ensures
        run(script, pc, stack, context) matches Ok(after) ==> after.len() <= MAX_STACK_SIZE,
    decreases script.len() - pc,
{
    if stack.len() <= MAX_STACK_SIZE && pc < script.len() {
        if let Ok((next, after)) = instruction(script, pc, stack, context) {
            if next > pc {
                lemma_stack_bounded(script, next, after, context);
            }
        }
    }
}

proof fn lemma_push_joined(a: Seq<u8>, b: Seq<u8>, pc: int, len: int, stack: Seq<Seq<u8>>)
    requires
        0 <= pc,
        0 <= len,
    ensures
        push_bytes(a, pc, len, stack) is Ok ==> push_bytes(a + b, pc, len, stack) == push_bytes(
            a,
            pc,
            len,
            stack,
        ),
        push_bytes(a + b, a.len() + pc, len, stack) == moved(
            push_bytes(b, pc, len, stack),
            a.len() as int,
        ),
{
    if pc + len <= a.len() {
        assert((a + b).subrange(pc, pc + len) =~= a.subrange(pc, pc + len));
    }
    if pc + len <= b.len() {
        assert((a + b).subrange(a.len() + pc, a.len() + pc + len) =~= b.subrange(pc, pc + len));
    }
}

proof fn lemma_counted_joined(a: Seq<u8>, b: Seq<u8>, pc: int, width: int, stack: Seq<Seq<u8>>)
    requires
        0 <= pc,
        0 <= width,
    ensures
        push_counted(a, pc, width, stack) is Ok ==> push_counted(a + b, pc, width, stack)
            == push_counted(a, pc, width, stack),
        push_counted(a + b, a.len() + pc, width, stack) == moved(
            push_counted(b, pc, width, stack),
            a.len() as int,
        ),
{
    if pc + width <= a.len() {
        assert((a + b).subrange(pc, pc + width) =~= a.subrange(pc, pc + width));
        lemma_push_joined(
            a,
            b,
            pc + width,
            le_value(a.subrange(pc, pc + width)) as int,
            stack,
        );
    }
    if pc + width <= b.len() {
        assert((a + b).subrange(a.len() + pc, a.len() + pc + width) =~= b.subrange(
            pc,
            pc + width,
        ));
        lemma_push_joined(
            a,
            b,
            pc + width,
            le_value(b.subrange(pc, pc + width)) as int,
            stack,
        );
    }
}

/// A step in a script that has so many bytes before it.
spec fn moved(step: Stepped, by: int) -> Stepped {
    match step {
        Ok((next, after)) => Ok((next + by, after)),
        Err(e) => Err(e),
    }
}

proof fn lemma_instruction_joined(
    a: Seq<u8>,
    b: Seq<u8>,
    pc: int,
    stack: Seq<Seq<u8>>,
    context: ScriptContextView,
)
    ensures
        0 <= pc < a.len() && instruction(a, pc, stack, context) is Ok ==> instruction(
            a + b,
            pc,
            stack,
            context,
        ) == instruction(a, pc, stack, context),
        0 <= pc < b.len() ==> instruction(a + b, a.len() + pc, stack, context) == moved(
            instruction(b, pc, stack, context),
            a.len() as int,
        ),
{
    if 0 <= pc {
        assert(pc < a.len() ==> (a + b)[pc] == a[pc]);
        assert(pc < b.len() ==> (a + b)[a.len() + pc] == b[pc]);
        lemma_push_joined(a, b, pc + 1, a[pc] as int, stack);
        lemma_push_joined(a, b, pc + 1, b[pc] as int, stack);
        lemma_counted_joined(a, b, pc + 1, 1, stack);
        lemma_counted_joined(a, b, pc + 1, 2, stack);
        lemma_counted_joined(a, b, pc + 1, 4, stack);
    }
}

proof fn lemma_run_behind(
    a: Seq<u8>,
    b: Seq<u8>,
    pc: int,
    stack: Seq<Seq<u8>>,
    context: ScriptContextView,
)
    requires
        0 <= pc,
    ensures
        run(a + b, a.len() + pc, stack, context) == run(b, pc, stack, context),
    decreases b.len() - pc,
{
    if stack.len() <= MAX_STACK_SIZE && pc < b.len() {
        lemma_instruction_joined(a, b, pc, stack, context);
        if let Ok((next, after)) = instruction(b, pc, stack, context) {
            if next > pc {
                lemma_run_behind(a, b, next, after, context);
            }
        }
    }
}

proof fn lemma_run_joined(
    a: Seq<u8>,
    b: Seq<u8>,
    pc: int,
    stack: Seq<Seq<u8>>,
    context: ScriptContextView,
)
    requires
        0 <= pc <= a.len(),
        run(a, pc, stack, context) is Ok,
    ensures
        run(a + b, pc, stack, context) == run(b, 0, run(a, pc, stack, context)->Ok_0, context),
    decreases a.len() - pc,
{
    if pc < a.len() {
        lemma_instruction_joined(a, b, pc, stack, context);
        lemma_instruction_advances(a, pc, stack, context);
        if let Ok((next, after)) = instruction(a, pc, stack, context) {
            lemma_run_joined(a, b, next, after, context);
        }
    } else {
        lemma_run_behind(a, b, 0, stack, context);
    }
}

/// Two scripts that are joined run one after the other: the second on the stack that the
/// first left.
pub proof fn lemma_joined_scripts(
    a: Seq<u8>,
    b: Seq<u8>,
    stack: Seq<Seq<u8>>,
    context: ScriptContextView,
)
    requires
        script_outcome(a, stack, context) is Ok,
        a.len() + b.len() <= MAX_SCRIPT_SIZE,
    ensures
        script_outcome(a + b, stack, context) == script_outcome(
            b,
            script_outcome(a, stack, context)->Ok_0,
            context,
        ),
{
    lemma_run_joined(a, b, 0, stack, context);
}

/// An instruction that succeeds moves on, and not past the end of the script.
pub proof fn lemma_instruction_advances(
    script: Seq<u8>,
    pc: int,
    stack: Seq<Seq<u8>>,
    context: ScriptContextView,
)
    requires
        0 <= pc < script.len(),
    ensures
        instruction(script, pc, stack, context) matches Ok((next, after)) ==> pc < next
            <= script.len(),
{
}

fn push_slice(stack: &mut Stack, script: &[u8], pc: usize, len: usize) -> (r: Result<
    usize,
    ScriptError,
>)
    requires
        pc <= script@.len() <= MAX_SCRIPT_SIZE,
        len <= u32::MAX,
    ensures
        stepped(
            r,
            views(final(stack)@),
            push_bytes(script@, pc as int, len as int, views(old(stack)@)),
        ),
{
    if len > script.len() - pc {
        return Err(ScriptError::InvalidPushSize);
    }
    let item = vstd::slice::slice_to_vec(vstd::slice::slice_subrange(script, pc, pc + len));
    push_item(stack, item);
    Ok(pc + len)
}

fn push_item(stack: &mut Stack, item: Vec<u8>)
    ensures
        views(final(stack)@) == views(old(stack)@).push(item@),
{
    let ghost before = stack@;
    stack.push(item);
    assert(views(stack@) =~= views(before).push(item@));
}

fn push_number(stack: &mut Stack, n: u8)
    ensures
        views(final(stack)@) == views(old(stack)@).push(seq![n]),
{
    let mut item: Vec<u8> = Vec::new();
    item.push(n);
    assert(item@ =~= seq![n]);
    push_item(stack, item);
}

fn push_truth(stack: &mut Stack, b: bool)
    ensures
        views(final(stack)@) == views(old(stack)@).push(truth_item(b)),
{
    let mut item: Vec<u8> = Vec::new();
    if b {
        item.push(1);
    }
    assert(item@ =~= truth_item(b));
    push_item(stack, item);
}

fn pop_item(stack: &mut Stack) -> (r: Vec<u8>)
    requires
        old(stack).len() > 0,
    ensures
        views(final(stack)@) == views(old(stack)@).take(old(stack)@.len() - 1),
        r@ == views(old(stack)@).last(),
        final(stack)@.len() == old(stack)@.len() - 1,
{
    let ghost before = stack@;
    match stack.pop() {
        Some(item) => {
            assert(views(stack@) =~= views(before).take(before.len() - 1));
            item
        },
        None => Vec::new(),
    }
}

/// The result of an executable step is what the specification says.
pub open spec fn stepped(
    r: Result<usize, ScriptError>,
    stack: Seq<Seq<u8>>,
    want: Stepped,
) -> bool {
    match r {
        Ok(next) => want == Stepped::Ok((next as int, stack)),
        Err(e) => want == Stepped::Err(e),
    }
}

fn execute_op(
    op: OpCode,
    script: &[u8],
    pc: usize,
    stack: &mut Stack,
    context: &ScriptContext,
) -> (r: Result<usize, ScriptError>)
    requires
        pc <= script@.len() <= MAX_SCRIPT_SIZE,
    ensures
        stepped(
            r,
            views(final(stack)@),
            op_step(op, script@, pc as int, views(old(stack)@), context@),
        ),
{
    let ghost items = views(stack@);
    match op {
        OpCode::OP_0 => {
            push_item(stack, Vec::new());
            assert(views(stack@) =~= items.push(Seq::empty()));
        },
        OpCode::OP_1NEGATE => push_number(stack, 0x81),
        OpCode::OP_1 => push_number(stack, 1),
        OpCode::OP_2 => push_number(stack, 2),
        OpCode::OP_3 => push_number(stack, 3),
        OpCode::OP_4 => push_number(stack, 4),
        OpCode::OP_5 => push_number(stack, 5),
        OpCode::OP_6 => push_number(stack, 6),
        OpCode::OP_7 => push_number(stack, 7),
        OpCode::OP_8 => push_number(stack, 8),
        OpCode::OP_9 => push_number(stack, 9),
        OpCode::OP_10 => push_number(stack, 10),
        OpCode::OP_11 => push_number(stack, 11),
        OpCode::OP_12 => push_number(stack, 12),
        OpCode::OP_13 => push_number(stack, 13),
        OpCode::OP_14 => push_number(stack, 14),
        OpCode::OP_15 => push_number(stack, 15),
        OpCode::OP_16 => push_number(stack, 16),
        OpCode::OP_PUSHDATA1 => {
            if script.len() - pc < 1 {
                return Err(ScriptError::UnexpectedEof);
            }
            let len: usize = script[pc] as usize;
            proof {
                let field = script@.subrange(pc as int, pc + 1);
                reveal_with_fuel(le_value, 2);
                assert(field.skip(1) =~= Seq::empty());
                assert(le_value(field) == len);
            }
            return push_slice(stack, script, pc + 1, len);
        },
        OpCode::OP_PUSHDATA2 => {
            if script.len() - pc < 2 {
                return Err(ScriptError::UnexpectedEof);
            }
            let field = tail_from(script, pc);
            let len: usize = u16_from_le(field) as usize;
            assert(field@.take(2) =~= script@.subrange(pc as int, pc + 2));
            return push_slice(stack, script, pc + 2, len);
        },
        OpCode::OP_PUSHDATA4 => {
            if script.len() - pc < 4 {
                return Err(ScriptError::UnexpectedEof);
            }
            let field = tail_from(script, pc);
            let len: usize = u32_from_le(field) as usize;
            assert(field@.take(4) =~= script@.subrange(pc as int, pc + 4));
            return push_slice(stack, script, pc + 4, len);
        },
        OpCode::OP_DUP => {
            if stack.is_empty() {
                return Err(ScriptError::StackUnderflow);
            }
            let top = stack[stack.len() - 1].clone();
            assert(top@ =~= items.last());
            push_item(stack, top);
        },
        OpCode::OP_DROP => {
            if stack.is_empty() {
                return Err(ScriptError::StackUnderflow);
            }
            let _ = pop_item(stack);
        },
        OpCode::OP_HASH160 => {
            if stack.is_empty() {
                return Err(ScriptError::StackUnderflow);
            }
            let item = pop_item(stack);
            let hash = hash160(&item);
            let hash_item = vstd::slice::slice_to_vec(&hash);
            push_item(stack, hash_item);
        },
        OpCode::OP_EQUAL => {
            if stack.len() < 2 {
                return Err(ScriptError::StackUnderflow);
            }
            let item1 = pop_item(stack);
            let item2 = pop_item(stack);
            assert(views(stack@) =~= items.take(items.len() - 2));
            push_truth(stack, bytes_equal(&item1, &item2));
        },
        OpCode::OP_EQUALVERIFY => {
            if stack.len() < 2 {
                return Err(ScriptError::StackUnderflow);
            }
            let item1 = pop_item(stack);
            let item2 = pop_item(stack);
            assert(views(stack@) =~= items.take(items.len() - 2));
            if !bytes_equal(&item1, &item2) {
                return Err(ScriptError::EqualVerifyFailed);
            }
        },
        OpCode::OP_VERIFY => {
            if stack.is_empty() {
                return Err(ScriptError::StackUnderflow);
            }
            let item = pop_item(stack);
            if !is_true(&item) {
                return Err(ScriptError::VerifyFailed);
            }
        },
        OpCode::OP_CHECKSIG => {
            if stack.len() < 2 {
                return Err(ScriptError::StackUnderflow);
            }
            let pubkey = pop_item(stack);
            let signature = pop_item(stack);
            assert(views(stack@) =~= items.take(items.len() - 2));
            match verify_signature(&pubkey, &signature, context) {
                Ok(valid) => push_truth(stack, valid),
                Err(e) => return Err(e),
            }
        },
        OpCode::OP_CHECKSIGVERIFY => {
            if stack.len() < 2 {
                return Err(ScriptError::StackUnderflow);
            }
            let pubkey = pop_item(stack);
            let signature = pop_item(stack);
            assert(views(stack@) =~= items.take(items.len() - 2));
            match verify_signature(&pubkey, &signature, context) {
                Ok(valid) => {
                    if !valid {
                        return Err(ScriptError::VerifyFailed);
                    }
                },
                Err(e) => return Err(e),
            }
        },
        OpCode::OP_RETURN => {
            return Err(ScriptError::ExecutionFailed);
        },
    }
    Ok(pc)
}

/// The result of an execution is what the specification says.
pub open spec fn executed(
    r: Result<Vec<Vec<u8>>, ScriptError>,
    want: Result<Seq<Seq<u8>>, ScriptError>,
) -> bool {
    match r {
        Ok(stack) => want == Ok::<Seq<Seq<u8>>, ScriptError>(views(stack@)),
        Err(e) => want == Err::<Seq<Seq<u8>>, ScriptError>(e),
    }
}

/// Executes a script on a stack.
pub fn execute_script(script: &[u8], initial_stack: Vec<Vec<u8>>, context: &ScriptContext) -> (r:
    Result<Vec<Vec<u8>>, ScriptError>)
    ensures
        executed(r, script_outcome(script@, views(initial_stack@), context@)),
{
    if script.len() > MAX_SCRIPT_SIZE {
        return Err(ScriptError::ScriptTooLarge);
    }
    let ghost want = run(script@, 0, views(initial_stack@), context@);
    let mut stack = initial_stack;
    let mut pc: usize = 0;
    while pc < script.len()
        invariant
            pc <= script@.len() <= MAX_SCRIPT_SIZE,
            want == script_outcome(script@, views(initial_stack@), context@),
            want == run(script@, pc as int, views(stack@), context@),
        decreases script@.len() - pc,
    {
        if stack.len() > MAX_STACK_SIZE {
            return Err(ScriptError::StackOverflow);
        }
        let byte: u8 = script[pc];
        proof {
            lemma_instruction_advances(script@, pc as int, views(stack@), context@);
        }
        if byte <= 0x4b {
            match push_slice(&mut stack, script, pc + 1, byte as usize) {
                Ok(next) => pc = next,
                Err(e) => return Err(e),
            }
        } else {
            match OpCode::from_u8(byte) {
                Some(op) => {
                    proof {
                        let chosen = choose|o: OpCode| opcode_byte(o) == byte;
                        lemma_opcode_bytes_differ(op, chosen);
                    }
                    match execute_op(op, script, pc + 1, &mut stack, context) {
                        Ok(next) => pc = next,
                        Err(e) => return Err(e),
                    }
                },
                None => return Err(ScriptError::InvalidOpcode),
            }
        }
    }
    if stack.len() > MAX_STACK_SIZE {
        return Err(ScriptError::StackOverflow);
    }
    Ok(stack)
}

/// Outcome of an input script followed by an output script: whether the last
/// item that they leave counts as true.
pub open spec fn p2pkh_outcome(
    script_sig: Seq<u8>,
    script_pubkey: Seq<u8>,
    context: ScriptContextView,
) -> Result<bool, ScriptError> {
    match script_outcome(script_sig, Seq::empty(), context) {
        Err(e) => Err(e),
        Ok(stack) => match script_outcome(script_pubkey, stack, context) {
            Err(e) => Err(e),
            Ok(last) => Ok(last.len() > 0 && truthy(last.last())),
        },
    }
}

/// Validate P2PKH script
pub fn validate_p2pkh(script_sig: &[u8], script_pubkey: &[u8], context: &ScriptContext) -> (r:
    Result<bool, ScriptError>)
    ensures
        r == p2pkh_outcome(script_sig@, script_pubkey@, context@),
{
    let empty: Vec<Vec<u8>> = Vec::new();
    assert(views(empty@) =~= Seq::empty());
    let stack = match execute_script(script_sig, empty, context) {
        Ok(stack) => stack,
        Err(e) => return Err(e),
    };
    let final_stack = match execute_script(script_pubkey, stack, context) {
        Ok(stack) => stack,
        Err(e) => return Err(e),
    };
    if final_stack.is_empty() {
        return Ok(false);
    }
    assert(views(final_stack@).last() == final_stack@.last()@);
    Ok(is_true(&final_stack[final_stack.len() - 1]))
}

/// Outcome of a witness program: the output names the hash of a key, and the
/// witness holds a signature and that key.
pub open spec fn p2wpkh_outcome(
    witness: Seq<Seq<u8>>,
    script_pubkey: Seq<u8>,
    context: ScriptContextView,
) -> Result<bool, ScriptError> {
    if script_pubkey.len() != 22 || script_pubkey[0] != 0x00 || script_pubkey[1] != 0x14 {
        Ok(false)
    } else if witness.len() != 2 {
        Ok(false)
    } else if hash160_bytes(witness[1]) != script_pubkey.subrange(2, 22) {
        Ok(false)
    } else {
        check_signature(witness[1], witness[0], context)
    }
}

/// Validate P2WPKH script
pub fn validate_p2wpkh(witness: &Witness, script_pubkey: &[u8], context: &ScriptContext) -> (r:
    Result<bool, ScriptError>)
    ensures
        r == p2wpkh_outcome(witness@, script_pubkey@, context@),
{
    // scriptPubKey must be: OP_0 <20-byte-hash>
    if script_pubkey.len() != 22 {
        return Ok(false);
    }
    if script_pubkey[0] != 0x00 || script_pubkey[1] != 0x14 {
        return Ok(false);
    }
    // Witness must have exactly 2 items: <signature> <pubkey>
    if witness.stack_items.len() != 2 {
        return Ok(false);
    }
    let signature = &witness.stack_items[0];
    let pubkey = &witness.stack_items[1];
    assert(witness@[0] == signature@ && witness@[1] == pubkey@);
    let pubkey_hash = vstd::slice::slice_subrange(script_pubkey, 2, 22);
    let computed_hash = hash160(pubkey);
    if !bytes_equal(&computed_hash, pubkey_hash) {
        return Ok(false);
    }
    verify_signature(pubkey, signature, context)
}

} // verus!
