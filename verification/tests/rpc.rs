use ferrous_node::consensus::block::create_genesis_block;
use ferrous_node::consensus::chain::ChainState;
use ferrous_node::consensus::params::Network;
use ferrous_node::consensus::transaction::{Transaction, TxError, TxInput, TxOutput, Witness};
use ferrous_node::network::mempool::{MempoolError, NetworkMempool};
use ferrous_node::primitives::serialize::Encode;
use ferrous_node::rpc::methods::{
    check_block_count, confirmations, getbestblockhash, getblock, getblockchaininfo,
    getblockhash, getmininginfo, health_status, sendrawtransaction, MethodError, MiningInfo,
};
use ferrous_node::rpc::params::{Param, ParamError, Params};
use ferrous_node::rpc::request::{extract, find_request, requote, trim_body, unescape_quotes};
use ferrous_node::rpc::server::{Answer, Method, RequestFault, Route, RpcServer};

fn encode_basic(credential: &str) -> String {
    // Minimal Base64 encoder for tests only.
    const CHARS: &[u8] = b"ABCDEFGHIJKLMNOPQRSTUVWXYZabcdefghijklmnopqrstuvwxyz0123456789+/";
    let input = credential.as_bytes();
    let mut out = String::new();
    for chunk in input.chunks(3) {
        let b0 = chunk[0] as u32;
        let b1 = if chunk.len() > 1 { chunk[1] as u32 } else { 0 };
        let b2 = if chunk.len() > 2 { chunk[2] as u32 } else { 0 };
        let combined = (b0 << 16) | (b1 << 8) | b2;
        out.push(CHARS[((combined >> 18) & 0x3f) as usize] as char);
        out.push(CHARS[((combined >> 12) & 0x3f) as usize] as char);
        if chunk.len() > 1 {
            out.push(CHARS[((combined >> 6) & 0x3f) as usize] as char);
        } else {
            out.push('=');
        }
        if chunk.len() > 2 {
            out.push(CHARS[(combined & 0x3f) as usize] as char);
        } else {
            out.push('=');
        }
    }
    out
}

#[test]
fn base64_decode_roundtrip() {
    let credential = "cookie:deadbeefcafe1234";
    let encoded = encode_basic(credential);
    let decoded = RpcServer::base64_decode(&encoded).expect("should decode");
    assert_eq!(std::str::from_utf8(&decoded).unwrap(), credential);
}

#[test]
fn base64_decode_invalid_char_returns_none() {
    assert!(RpcServer::base64_decode("!!!").is_none());
}

#[test]
fn base64_decode_wrong_password_does_not_equal_expected() {
    let expected = "cookie:correcttoken";
    let encoded_wrong = encode_basic("cookie:wrongtoken");
    let decoded = RpcServer::base64_decode(&encoded_wrong).unwrap();
    let credential = std::str::from_utf8(&decoded).unwrap();
    assert_ne!(credential, expected);
}

#[test]
fn base64_decode_missing_prefix_fails() {
    // "Digest ..." is not "Basic ...": check_auth rejects it.
    // Test that stripping "Basic " prefix on a non-Basic header returns None.
    let value = "Digest dXNlcjpwYXNz";
    let result = value.strip_prefix("Basic ");
    assert!(result.is_none());
    let server = RpcServer { rpc_auth: Some("user:pass".to_string()) };
    assert!(!server.check_auth(Some(value.as_bytes())));
}

#[test]
fn base64_of_every_length() {
    for text in ["", "f", "fo", "foo", "foob", "fooba", "foobar"] {
        assert_eq!(RpcServer::base64_decode(&encode_basic(text)), Some(text.as_bytes().to_vec()));
    }
    // Padding may be missing
    assert_eq!(RpcServer::base64_decode("Zm9vYg"), Some(b"foob".to_vec()));
    assert_eq!(RpcServer::base64_decode("+/+/"), Some(vec![0xfb, 0xff, 0xbf]));
}

#[test]
fn credentials_are_checked() {
    let server = RpcServer { rpc_auth: Some("cookie:abc".to_string()) };
    let good = format!("Basic {}", encode_basic("cookie:abc"));
    let padded = format!("Basic   {} ", encode_basic("cookie:abc"));
    let wrong = format!("Basic {}", encode_basic("cookie:abd"));
    assert!(server.check_auth(Some(good.as_bytes())));
    assert!(server.check_auth(Some(padded.as_bytes())));
    assert!(!server.check_auth(Some(wrong.as_bytes())));
    assert!(!server.check_auth(Some(b"Basic ?")));
    assert!(!server.check_auth(None));
    let open = RpcServer { rpc_auth: None };
    assert!(open.check_auth(None));
}

#[test]
fn headers_and_bodies_are_checked() {
    assert_eq!(
        RpcServer::check_header(false, true, None),
        Err(RequestFault::Unauthorized)
    );
    assert_eq!(
        RpcServer::check_header(true, false, None),
        Err(RequestFault::MethodNotAllowed)
    );
    assert_eq!(
        RpcServer::check_header(true, true, Some(1_048_577)),
        Err(RequestFault::TooLarge)
    );
    assert_eq!(RpcServer::check_header(true, true, Some(1_048_576)), Ok(()));
    assert_eq!(RpcServer::check_body(0), Err(RequestFault::Empty));
    assert_eq!(RpcServer::check_body(1_048_577), Err(RequestFault::TooLarge));
    assert_eq!(RpcServer::check_body(5), Ok(()));
}

#[test]
fn requests_are_routed() {
    assert_eq!(RpcServer::route(false, Some("stop"), true), Route::Invalid);
    assert_eq!(RpcServer::route(true, Some(""), true), Route::Invalid);
    assert_eq!(RpcServer::route(true, None, true), Route::Invalid);
    assert_eq!(
        RpcServer::route(true, Some("getblock"), true),
        Route::Call { method: Some(Method::GetBlock), reply: true, stop: false }
    );
    assert_eq!(
        RpcServer::route(true, Some("stop"), false),
        Route::Call { method: Some(Method::Stop), reply: false, stop: true }
    );
    assert_eq!(
        RpcServer::route(true, Some("nonsense"), true),
        Route::Call { method: None, reply: true, stop: false }
    );
    assert_eq!(RpcServer::answer_batch(0, 0), Answer::Invalid);
    assert_eq!(RpcServer::answer_batch(2, 0), Answer::NoContent);
    assert_eq!(RpcServer::answer_batch(2, 1), Answer::Results);
    assert!(RpcServer::is_fresh(5, 1_000_000_004));
    assert!(!RpcServer::is_fresh(5, 1_000_000_005));
}

fn found(body: &[u8]) -> Option<String> {
    find_request(body).map(|text| String::from_utf8(text).unwrap())
}

#[test]
fn requests_are_found_in_bodies() {
    let request = r#"{"method":"stop","id":1}"#;
    let want = Some(request.to_string());
    assert_eq!(found(request.as_bytes()), want);
    assert_eq!(found(format!(" \n{}\0 ", request).as_bytes()), want);
    // A string that holds a request
    assert_eq!(found(br#""{\"method\":\"stop\",\"id\":1}""#), want);
    assert_eq!(found(br#""no request""#), None);
    // Zero bytes in between
    assert_eq!(found(b"{\"method\":\0\"stop\",\"id\":1}"), want);
    // Escaped quotes, backslashes for quotes, and noise around the request
    assert_eq!(found(br#"{\"method\":\"stop\",\"id\":1}"#), want);
    assert_eq!(found(br"{\method\:\stop\,\id\:1}"), want);
    assert_eq!(found(format!("-d {} end", request).as_bytes()), want);
    assert_eq!(found(b"nothing"), None);
    assert_eq!(found(b"} {"), None);
}

#[test]
fn bodies_are_mended() {
    assert_eq!(trim_body(b" \t{}\0\r\n"), b"{}");
    assert_eq!(unescape_quotes(br#"{\"a\":1}"#), Some(br#"{"a":1}"#.to_vec()));
    assert_eq!(unescape_quotes(br#"{"a":1}"#), None);
    assert_eq!(requote(br"{\a\:1}"), Some(br#"{"a":1}"#.to_vec()));
    assert_eq!(requote(b"{}"), None);
    assert_eq!(extract(b"xx[1]yy"), Some(&b"[1]"[..]));
    assert_eq!(extract(b"]["), None);
}

fn genesis_chain() -> ChainState {
    let params = Network::Regtest.params();
    let genesis = create_genesis_block(params.genesis_n_bits);
    let mut chain = ChainState::new_in_memory(params).unwrap();
    chain.add_block_at(genesis, &[0; 32], 1_800_000_000).unwrap();
    chain
}

#[test]
fn chain_is_told_of() {
    let empty = ChainState::new_in_memory(Network::Regtest.params()).unwrap();
    assert_eq!(getbestblockhash(&empty), None);
    let info = getblockchaininfo(&empty);
    assert_eq!(info.chain, "ferrous");
    assert_eq!(info.bestblockhash, "00".repeat(32));
    assert_eq!(getmininginfo(&empty), MiningInfo { blocks: 0, bits: 0 });

    let chain = genesis_chain();
    let tip = chain.get_tip().unwrap().unwrap();
    let name = hex::encode(tip.block.hash());
    assert_eq!(getbestblockhash(&chain), Some(name.clone()));
    assert_eq!(getblockchaininfo(&chain).bestblockhash, name);
    assert_eq!(getblockhash(&chain, 0), Ok(name.clone()));
    assert_eq!(getblockhash(&chain, 1), Err(MethodError::HeightOutOfRange));
    assert_eq!(getmininginfo(&chain).bits, 0x207f_ffff);

    let told = getblock(&chain, &name, true).unwrap();
    assert_eq!(told.hash, name);
    assert_eq!(told.bits, "207fffff");
    assert_eq!(told.n_tx, 1);
    assert_eq!(told.miner, Some(vec![0x51]));
    assert_eq!(told.tx, vec![hex::encode(tip.block.transactions[0].txid())]);
    let size = 88 + 1 + tip.block.transactions[0].encode().len();
    assert_eq!(told.size, size);
    let verbose = told.transactions.unwrap();
    assert!(verbose[0].is_coinbase);
    assert_eq!(verbose[0].vout[0].value, 5_000_000_000);
    assert_eq!(verbose[0].vin[0].txid, None);
    assert!(getblock(&chain, &name, false).unwrap().transactions.is_none());

    assert_eq!(getblock(&chain, "xy", false).err(), Some(MethodError::InvalidHex));
    assert_eq!(getblock(&chain, "abc", false).err(), Some(MethodError::InvalidHex));
    assert_eq!(getblock(&chain, "abcd", false).err(), Some(MethodError::InvalidHashLength));
    assert_eq!(
        getblock(&chain, &"ab".repeat(32), false).err(),
        Some(MethodError::BlockNotFound)
    );
}

#[test]
fn transactions_are_sent() {
    let chain = genesis_chain();
    let mut mempool = NetworkMempool::new();
    let tx = Transaction {
        version: 1,
        inputs: vec![TxInput {
            prev_txid: [1; 32],
            prev_index: 0,
            script_sig: vec![],
            sequence: 0,
        }],
        outputs: vec![TxOutput { value: 1, script_pubkey: vec![] }],
        witnesses: vec![Witness { stack_items: vec![] }],
        locktime: 0,
    };
    let text = hex::encode(tx.encode());
    assert_eq!(
        sendrawtransaction(&mut mempool, &chain, &text),
        Err(MethodError::MempoolRejected(MempoolError::MissingInput))
    );
    assert_eq!(
        sendrawtransaction(&mut mempool, &chain, "zz"),
        Err(MethodError::InvalidHex)
    );
    assert_eq!(
        sendrawtransaction(&mut mempool, &chain, "00"),
        Err(MethodError::DecodeFailed)
    );
    let mut without = tx.clone();
    without.outputs.clear();
    assert_eq!(
        sendrawtransaction(&mut mempool, &chain, &hex::encode(without.encode())),
        Err(MethodError::InvalidTransaction(TxError::NoOutputs))
    );
    assert_eq!(mempool.size(), 0);
}

#[test]
fn small_answers() {
    assert_eq!(check_block_count(0), Err(MethodError::InvalidBlockCount));
    assert_eq!(check_block_count(1000), Ok(()));
    assert_eq!(check_block_count(1001), Err(MethodError::InvalidBlockCount));
    assert_eq!(confirmations(10, 10), 1);
    assert_eq!(confirmations(10, 3), 8);
    assert_eq!(confirmations(3, 10), 0);
    assert_eq!(confirmations(u64::MAX, u64::MAX), 1);
    assert_eq!(confirmations(u64::MAX, 1), u64::MAX);
    assert_eq!(health_status(80), "excellent");
    assert_eq!(health_status(79), "good");
    assert_eq!(health_status(40), "fair");
    assert_eq!(health_status(0), "poor");
}

fn text(s: &str) -> Param {
    Param::Text(s.to_string())
}

fn fault<T>(r: Result<T, ParamError>) -> &'static str {
    match r {
        Ok(_) => panic!("accepted"),
        Err(e) => e.text(),
    }
}

#[test]
fn a_number_of_blocks_is_taken_within_its_bounds() {
    for n in [1, 7, 1000] {
        assert_eq!(Params::List(vec![Param::Number(n)]).mineblocks(), Ok(n));
    }
    for n in [0, 1001, u64::MAX] {
        let refused = Params::List(vec![Param::Number(n)]).mineblocks();
        assert_eq!(fault(refused), "nblocks must be between 1 and 1000");
    }
    for params in [
        Params::Other,
        Params::List(vec![]),
        Params::List(vec![text("7")]),
        Params::List(vec![Param::Other, Param::Number(7)]),
    ] {
        assert_eq!(fault(params.mineblocks()), "Invalid params: expected [nblocks]");
    }
}

#[test]
fn the_number_of_blocks_is_looked_at_before_the_address() {
    let good = Params::List(vec![Param::Number(3), text("51")]);
    assert_eq!(good.generatetoaddress(), Ok((3, "51")));
    let none = Params::Other;
    assert_eq!(
        fault(none.generatetoaddress()),
        "Invalid params: expected [nblocks, address]"
    );
    let empty = Params::List(vec![]);
    assert_eq!(fault(empty.generatetoaddress()), "Missing nblocks parameter");
    let zero = Params::List(vec![Param::Number(0)]);
    assert_eq!(fault(zero.generatetoaddress()), "nblocks must be between 1 and 1000");
    let unnamed = Params::List(vec![Param::Number(3), Param::Bool(true)]);
    assert_eq!(fault(unnamed.generatetoaddress()), "Missing address parameter");
}

#[test]
fn a_block_is_shown_briefly_unless_more_is_asked_for() {
    let hash = "00ff";
    assert_eq!(Params::List(vec![text(hash)]).getblock(), Ok((hash, false)));
    let long = Params::List(vec![text(hash), Param::Bool(true)]);
    assert_eq!(long.getblock(), Ok((hash, true)));
    let short = Params::List(vec![text(hash), Param::Bool(false)]);
    assert_eq!(short.getblock(), Ok((hash, false)));
    let odd = Params::List(vec![text(hash), Param::Number(1)]);
    assert_eq!(odd.getblock(), Ok((hash, false)));
    assert_eq!(fault(Params::Other.getblock()), "Invalid params: expected array");
    let number = Params::List(vec![Param::Number(5)]);
    assert_eq!(fault(number.getblock()), "Invalid params: expected [blockhash]");
}

#[test]
fn methods_with_one_value_take_the_first() {
    let height = Params::List(vec![Param::Number(0), text("more")]);
    assert_eq!(height.getblockhash(), Ok(0));
    assert_eq!(fault(Params::Other.getblockhash()), "Invalid params: expected [height]");
    let addr = Params::List(vec![text("10.0.0.1:8333")]);
    assert_eq!(addr.addnode(), Ok("10.0.0.1:8333"));
    assert_eq!(fault(height.addnode()), "Invalid params: expected [address]");
    assert_eq!(addr.sendrawtransaction(), Ok("10.0.0.1:8333"));
    assert_eq!(fault(Params::List(vec![]).sendrawtransaction()), "Invalid hex");
}
