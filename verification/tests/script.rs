use ferrous_node::consensus::transaction::{Transaction, TxInput, TxOutput, Witness};
use ferrous_node::primitives::hash::hash160;
use ferrous_node::script::engine::{
    execute_script, validate_p2pkh, validate_p2wpkh, ScriptContext, ScriptError,
};
use ferrous_node::script::sighash::{compute_sighash, SighashError};

fn spending() -> Transaction {
    Transaction {
        version: 1,
        inputs: vec![TxInput {
            prev_txid: [1; 32],
            prev_index: 0,
            script_sig: vec![],
            sequence: 0,
        }],
        outputs: vec![TxOutput { value: 5, script_pubkey: vec![0x51] }],
        witnesses: vec![Witness { stack_items: vec![] }],
        locktime: 0,
    }
}

fn run(script: &[u8], stack: Vec<Vec<u8>>) -> Result<Vec<Vec<u8>>, ScriptError> {
    let tx = spending();
    let spent = vec![TxOutput { value: 9, script_pubkey: vec![] }];
    let context = ScriptContext { transaction: &tx, input_index: 0, spent_outputs: &spent };
    execute_script(script, stack, &context)
}

fn sign(tx: &Transaction, spent: &[TxOutput], secret: &[u8; 32]) -> (Vec<u8>, Vec<u8>) {
    let secp = secp256k1::Secp256k1::new();
    let key = secp256k1::SecretKey::from_slice(secret).unwrap();
    let public = secp256k1::PublicKey::from_secret_key(&secp, &key);
    let digest = compute_sighash(tx, 0, spent).unwrap();
    let message = secp256k1::Message::from_digest(digest);
    let mut signature = secp.sign_ecdsa(&message, &key).serialize_der().to_vec();
    signature.push(0x01);
    (signature, public.serialize().to_vec())
}

fn key_hash(secret: &[u8; 32]) -> [u8; 20] {
    let secp = secp256k1::Secp256k1::new();
    let key = secp256k1::SecretKey::from_slice(secret).unwrap();
    hash160(&secp256k1::PublicKey::from_secret_key(&secp, &key).serialize())
}

#[test]
fn hash160_of_a_known_key() {
    // The generator point, compressed
    assert_eq!(
        hex::encode(key_hash(&{
            let mut one = [0; 32];
            one[31] = 1;
            one
        })),
        "751e76e8199196d454941c45d1b3a323f1433bd6"
    );
}

#[test]
fn witness_payment_is_checked() {
    let secret = [7; 32];
    let mut script = vec![0x00, 0x14];
    script.extend(key_hash(&secret));
    let spent = vec![TxOutput { value: 9, script_pubkey: script.clone() }];
    let tx = spending();
    let (signature, public) = sign(&tx, &spent, &secret);
    let context = ScriptContext { transaction: &tx, input_index: 0, spent_outputs: &spent };

    let good = Witness { stack_items: vec![signature.clone(), public.clone()] };
    assert_eq!(validate_p2wpkh(&good, &script, &context), Ok(true));

    // Another key
    let (other, other_key) = sign(&tx, &spent, &[8; 32]);
    let wrong_key = Witness { stack_items: vec![other.clone(), other_key] };
    assert_eq!(validate_p2wpkh(&wrong_key, &script, &context), Ok(false));
    // The signature of another key
    let forged = Witness { stack_items: vec![other, public.clone()] };
    assert_eq!(validate_p2wpkh(&forged, &script, &context), Ok(false));
    // No signature, and one that cannot be read
    let unsigned = Witness { stack_items: vec![vec![], public.clone()] };
    assert_eq!(validate_p2wpkh(&unsigned, &script, &context), Ok(false));
    let broken = Witness { stack_items: vec![vec![1, 2, 3], public] };
    assert_eq!(validate_p2wpkh(&broken, &script, &context), Err(ScriptError::InvalidSignature));
    // Another transaction
    let mut changed = spending();
    changed.outputs[0].value = 6;
    let context = ScriptContext { transaction: &changed, input_index: 0, spent_outputs: &spent };
    assert_eq!(validate_p2wpkh(&good, &script, &context), Ok(false));
}

#[test]
fn key_hash_payment_is_checked() {
    let secret = [9; 32];
    let mut script = vec![0x76, 0xa9, 0x14];
    script.extend(key_hash(&secret));
    script.extend([0x88, 0xac]);
    let spent = vec![TxOutput { value: 9, script_pubkey: script.clone() }];
    let tx = spending();
    let (signature, public) = sign(&tx, &spent, &secret);
    let context = ScriptContext { transaction: &tx, input_index: 0, spent_outputs: &spent };
    let mut script_sig = vec![signature.len() as u8];
    script_sig.extend(&signature);
    script_sig.push(33);
    script_sig.extend(&public);
    assert_eq!(validate_p2pkh(&script_sig, &script, &context), Ok(true));

    let mut short_key = vec![1, 0, 32];
    short_key.extend(&public[..32]);
    assert_eq!(
        validate_p2pkh(&short_key, &script, &context),
        Err(ScriptError::EqualVerifyFailed)
    );
}

#[test]
fn instructions_do_what_they_say() {
    // OP_2 OP_3 OP_EQUAL
    assert_eq!(run(&[0x52, 0x53, 0x87], vec![]), Ok(vec![vec![]]));
    assert_eq!(run(&[0x52, 0x52, 0x87], vec![]), Ok(vec![vec![1]]));
    // OP_DUP and OP_DROP
    assert_eq!(run(&[0x76], vec![vec![5]]), Ok(vec![vec![5], vec![5]]));
    assert_eq!(run(&[0x75], vec![vec![5]]), Ok(vec![]));
    // Pushes
    assert_eq!(run(&[0x02, 8, 9], vec![]), Ok(vec![vec![8, 9]]));
    assert_eq!(run(&[0x4c, 0x01, 8], vec![]), Ok(vec![vec![8]]));
    assert_eq!(run(&[0x00], vec![]), Ok(vec![vec![]]));
    // OP_HASH160
    assert_eq!(run(&[0xa9], vec![vec![5]]), Ok(vec![hash160(&[5]).to_vec()]));
}

#[test]
fn scripts_fail_as_they_should() {
    assert_eq!(run(&[0x76], vec![]), Err(ScriptError::StackUnderflow));
    assert_eq!(run(&[0x02, 8], vec![]), Err(ScriptError::InvalidPushSize));
    assert_eq!(run(&[0x4c], vec![]), Err(ScriptError::UnexpectedEof));
    assert_eq!(run(&[0xfe], vec![]), Err(ScriptError::InvalidOpcode));
    assert_eq!(run(&[0x00, 0x69], vec![]), Err(ScriptError::VerifyFailed));
    assert_eq!(run(&[0x51, 0x52, 0x88], vec![]), Err(ScriptError::EqualVerifyFailed));
    assert_eq!(run(&vec![0x51; 10_001], vec![]), Err(ScriptError::ScriptTooLarge));
    assert_eq!(run(&vec![0x51; 1_001], vec![]), Err(ScriptError::StackOverflow));
    assert_eq!(run(&[0x51, 0x51, 0xac], vec![]), Err(ScriptError::InvalidPubkey));
}

#[test]
fn digest_depends_on_what_is_spent() {
    let tx = spending();
    let spent = vec![TxOutput { value: 9, script_pubkey: vec![] }];
    let more = vec![TxOutput { value: 10, script_pubkey: vec![] }];
    let digest = compute_sighash(&tx, 0, &spent).unwrap();
    assert_ne!(digest, compute_sighash(&tx, 0, &more).unwrap());
    // Signatures do not count
    let mut signed = spending();
    signed.inputs[0].script_sig = vec![1, 2];
    signed.witnesses[0].stack_items = vec![vec![3]];
    assert_eq!(digest, compute_sighash(&signed, 0, &spent).unwrap());
    assert_eq!(compute_sighash(&tx, 1, &spent), Err(SighashError::InputIndexOutOfBounds));
    assert_eq!(compute_sighash(&tx, 0, &[]), Err(SighashError::SpentOutputsMismatch));
}

#[test]
fn joined_scripts_run_one_after_the_other() {
    // Two numbers and a comparison
    let first: Vec<u8> = vec![0x52, 0x01, 0x02];
    let second: Vec<u8> = vec![0x87, 0x76];
    let middle = run(&first, vec![]).unwrap();
    assert_eq!(middle, vec![vec![2], vec![2]]);
    let joined: Vec<u8> = [first.clone(), second.clone()].concat();
    assert_eq!(run(&joined, vec![]), run(&second, middle));
    assert_eq!(run(&joined, vec![]), Ok(vec![vec![1], vec![1]]));
    // A script that fails takes the rest for its operand.
    assert_eq!(run(&[0x02, 0x01], vec![]), Err(ScriptError::InvalidPushSize));
    assert_eq!(run(&[0x02, 0x01, 0x05], vec![]), Ok(vec![vec![1, 5]]));
}
