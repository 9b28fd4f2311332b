//! Who may ask, and what is asked.

use crate::primitives::bytes::bytes_equal;
use crate::rpc::base64::{decode, decoded, encoded, lemma_no_blanks, lemma_reads_back};
use crate::rpc::request::MAX_REQUEST_BODY;
use vstd::prelude::*;
use vstd::slice::slice_subrange;
use vstd::string::*;
use vstd::utf8::encode_utf8;

verus! {

/// The text is no JSON.
pub const PARSE_ERROR: i32 = -32700;

/// The JSON is no request.
pub const INVALID_REQUEST: i32 = -32600;

/// There is no such method.
pub const METHOD_NOT_FOUND: i32 = -32601;

/// The method failed.
pub const INTERNAL_ERROR: i32 = -32603;

/// How long an answer may be given again, in nanoseconds.
pub const CACHE_TIME: u64 = 1_000_000_000;

/// How many requests are served at once.
pub const MAX_RPC_THREADS: usize = 16;

/// The methods that can be called.
#[derive(Debug, Clone, Copy, PartialEq, Eq, Structural)]
pub enum Method {
    GetBlockchainInfo,
    GetMiningInfo,
    MineBlocks,
    GetBlock,
    GetBlockHash,
    GetBestBlockHash,
    AddNode,
    GetNewAddress,
    GetBalance,
    ListUnspent,
    ListAddresses,
    SendToAddress,
    GenerateToAddress,
    GetNetworkInfo,
    GetPeerInfo,
    GetConnectionCount,
    GetNetworkHealth,
    GetRecoveryStatus,
    ForceReconnect,
    ResetNetwork,
    SendRawTransaction,
    GetWalletInfo,
    EncryptWallet,
    ImportSeed,
    GetShamirShares,
    Stop,
}

/// The method with a name.
pub open spec fn method_named(name: Seq<u8>) -> Option<Method> {
    if name == "getblockchaininfo".spec_bytes() {
        Some(Method::GetBlockchainInfo)
    } else if name == "getmininginfo".spec_bytes() {
        Some(Method::GetMiningInfo)
    } else if name == "mineblocks".spec_bytes() {
        Some(Method::MineBlocks)
    } else if name == "getblock".spec_bytes() {
        Some(Method::GetBlock)
    } else if name == "getblockhash".spec_bytes() {
        Some(Method::GetBlockHash)
    } else if name == "getbestblockhash".spec_bytes() {
        Some(Method::GetBestBlockHash)
    } else if name == "addnode".spec_bytes() {
        Some(Method::AddNode)
    } else if name == "getnewaddress".spec_bytes() {
        Some(Method::GetNewAddress)
    } else if name == "getbalance".spec_bytes() {
        Some(Method::GetBalance)
    } else if name == "listunspent".spec_bytes() {
        Some(Method::ListUnspent)
    } else if name == "listaddresses".spec_bytes() {
        Some(Method::ListAddresses)
    } else if name == "sendtoaddress".spec_bytes() {
        Some(Method::SendToAddress)
    } else if name == "generatetoaddress".spec_bytes() {
        Some(Method::GenerateToAddress)
    } else if name == "getnetworkinfo".spec_bytes() {
        Some(Method::GetNetworkInfo)
    } else if name == "getpeerinfo".spec_bytes() {
        Some(Method::GetPeerInfo)
    } else if name == "getconnectioncount".spec_bytes() {
        Some(Method::GetConnectionCount)
    } else if name == "getnetworkhealth".spec_bytes() {
        Some(Method::GetNetworkHealth)
    } else if name == "getrecoverystatus".spec_bytes() {
        Some(Method::GetRecoveryStatus)
    } else if name == "forcereconnect".spec_bytes() {
        Some(Method::ForceReconnect)
    } else if name == "resetnetwork".spec_bytes() {
        Some(Method::ResetNetwork)
    } else if name == "sendrawtransaction".spec_bytes() {
        Some(Method::SendRawTransaction)
    } else if name == "getwalletinfo".spec_bytes() {
        Some(Method::GetWalletInfo)
    } else if name == "encryptwallet".spec_bytes() {
        Some(Method::EncryptWallet)
    } else if name == "importseed".spec_bytes() {
        Some(Method::ImportSeed)
    } else if name == "getshamirshares".spec_bytes() {
        Some(Method::GetShamirShares)
    } else if name == "stop".spec_bytes() {
        Some(Method::Stop)
    } else {
        None
    }
}

/// What is done with a request.
#[derive(Debug, Clone, Copy, PartialEq, Eq, Structural)]
pub enum Route {
    /// It is no request.
    Invalid,
    /// The method is called, where there is one, and the caller is told the result if
    /// `reply` holds. The server ends where `stop` holds.
    Call { method: Option<Method>, reply: bool, stop: bool },
}

/// What is done with a value that may be an object with the name of a method and with a
/// number.
pub open spec fn routed(is_object: bool, method: Option<Seq<u8>>, has_id: bool) -> Route {
    match method {
        Some(name) => if !is_object || name.len() == 0 {
            Route::Invalid
        } else {
            Route::Call {
                method: method_named(name),
                reply: has_id,
                stop: name == "stop".spec_bytes(),
            }
        },
        None => Route::Invalid,
    }
}

/// How a message is answered.
#[derive(Debug, Clone, Copy, PartialEq, Eq, Structural)]
pub enum Answer {
    /// It holds no request.
    Invalid,
    /// Nothing is to be told.
    NoContent,
    /// The results are told.
    Results,
}

/// How a list of requests is answered.
pub open spec fn batch_answer(items: usize, results: usize) -> Answer {
    if items == 0 {
        Answer::Invalid
    } else if results == 0 {
        Answer::NoContent
    } else {
        Answer::Results
    }
}

/// Why a message is refused before it is read.
#[derive(Debug, Clone, Copy, PartialEq, Eq, Structural)]
pub enum RequestFault {
    Unauthorized,
    MethodNotAllowed,
    TooLarge,
    Empty,
}

/// Why a message with a header is refused; the size is the one that it tells.
pub open spec fn header_fault(
    authorized: bool,
    is_post: bool,
    size: Option<usize>,
) -> Option<RequestFault> {
    if !authorized {
        Some(RequestFault::Unauthorized)
    } else if !is_post {
        Some(RequestFault::MethodNotAllowed)
    } else if size matches Some(n) && n > MAX_REQUEST_BODY {
        Some(RequestFault::TooLarge)
    } else {
        None
    }
}

/// Why a body of a size is refused.
pub open spec fn body_fault(size: usize) -> Option<RequestFault> {
    if size > MAX_REQUEST_BODY {
        Some(RequestFault::TooLarge)
    } else if size == 0 {
        Some(RequestFault::Empty)
    } else {
        None
    }
}

/// Whether a byte of a header is white space.
pub open spec fn is_space(b: u8) -> bool {
    9 <= b <= 13 || b == 32
}

/// What follows the white space at the front.
pub open spec fn after_space(text: Seq<u8>) -> Seq<u8>
    decreases text.len(),
{
    if text.len() > 0 && is_space(text[0]) {
        after_space(text.skip(1))
    } else {
        text
    }
}

/// What stands before the white space at the end.
pub open spec fn before_space(text: Seq<u8>) -> Seq<u8>
    decreases text.len(),
{
    if text.len() > 0 && is_space(text.last()) {
        before_space(text.drop_last())
    } else {
        text
    }
}

/// What starts a header with a credential.
pub open spec fn basic() -> Seq<u8> {
    seq![0x42u8, 0x61u8, 0x73u8, 0x69u8, 0x63u8, 0x20u8]
}

/// The credential in a header.
pub open spec fn credential(header: Seq<u8>) -> Option<Seq<u8>> {
    if header.len() >= 6 && header.take(6) == basic() {
        decoded(before_space(after_space(header.skip(6))))
    } else {
        None
    }
}

/// Whether a message with such a header may pass; without an expected credential every
/// message may.
pub open spec fn authorized(expected: Option<Seq<u8>>, header: Option<Seq<u8>>) -> bool {
    match expected {
        None => true,
        Some(want) => match header {
            Some(h) => credential(h) == Some(want),
            None => false,
        },
    }
}

/// The header that carries a credential is let pass where that credential is expected, and
/// only there.
pub proof fn lemma_credential_passes(expected: Seq<u8>, given: Seq<u8>)
    ensures
        authorized(Some(expected), Some(basic() + encoded(given))) <==> given == expected,
{
    let text = encoded(given);
    let header = basic() + text;
    assert(header.take(6) =~= basic());
    assert(header.skip(6) =~= text);
    if text.len() > 0 {
        lemma_no_blanks(given, 0);
        lemma_no_blanks(given, text.len() - 1);
    }
    assert(after_space(text) == text);
    assert(before_space(text) == text);
    lemma_reads_back(given);
}

/// Without a header nobody passes where a credential is expected, and with a header of
/// another kind neither.
pub proof fn lemma_no_credential_no_passage(expected: Seq<u8>, header: Seq<u8>)
    requires
        header.len() < 6 || header.take(6) != basic(),
    ensures
        !authorized(Some(expected), None),
        !authorized(Some(expected), Some(header)),
{
}

fn is_name(name: &[u8], literal: &str) -> (r: bool)
    ensures
        r == (name@ == literal.spec_bytes()),
{
    bytes_equal(name, literal.as_bytes())
}

fn method_of(name: &[u8]) -> (r: Option<Method>)
    ensures
        r == method_named(name@),
{
    if is_name(name, "getblockchaininfo") {
        Some(Method::GetBlockchainInfo)
    } else if is_name(name, "getmininginfo") {
        Some(Method::GetMiningInfo)
    } else if is_name(name, "mineblocks") {
        Some(Method::MineBlocks)
    } else if is_name(name, "getblock") {
        Some(Method::GetBlock)
    } else if is_name(name, "getblockhash") {
        Some(Method::GetBlockHash)
    } else if is_name(name, "getbestblockhash") {
        Some(Method::GetBestBlockHash)
    } else if is_name(name, "addnode") {
        Some(Method::AddNode)
    } else if is_name(name, "getnewaddress") {
        Some(Method::GetNewAddress)
    } else if is_name(name, "getbalance") {
        Some(Method::GetBalance)
    } else if is_name(name, "listunspent") {
        Some(Method::ListUnspent)
    } else if is_name(name, "listaddresses") {
        Some(Method::ListAddresses)
    } else if is_name(name, "sendtoaddress") {
        Some(Method::SendToAddress)
    } else if is_name(name, "generatetoaddress") {
        Some(Method::GenerateToAddress)
    } else if is_name(name, "getnetworkinfo") {
        Some(Method::GetNetworkInfo)
    } else if is_name(name, "getpeerinfo") {
        Some(Method::GetPeerInfo)
    } else if is_name(name, "getconnectioncount") {
        Some(Method::GetConnectionCount)
    } else if is_name(name, "getnetworkhealth") {
        Some(Method::GetNetworkHealth)
    } else if is_name(name, "getrecoverystatus") {
        Some(Method::GetRecoveryStatus)
    } else if is_name(name, "forcereconnect") {
        Some(Method::ForceReconnect)
    } else if is_name(name, "resetnetwork") {
        Some(Method::ResetNetwork)
    } else if is_name(name, "sendrawtransaction") {
        Some(Method::SendRawTransaction)
    } else if is_name(name, "getwalletinfo") {
        Some(Method::GetWalletInfo)
    } else if is_name(name, "encryptwallet") {
        Some(Method::EncryptWallet)
    } else if is_name(name, "importseed") {
        Some(Method::ImportSeed)
    } else if is_name(name, "getshamirshares") {
        Some(Method::GetShamirShares)
    } else if is_name(name, "stop") {
        Some(Method::Stop)
    } else {
        None
    }
}

/// Who may ask.
pub struct RpcServer {
    /// If there is one, every request must carry a matching HTTP Basic Auth header.
    pub rpc_auth: Option<String>,
}

/// The bytes of an expected credential.
pub open spec fn expectation(rpc_auth: Option<String>) -> Option<Seq<u8>> {
    match rpc_auth {
        Some(s) => Some(encode_utf8(s@)),
        None => None,
    }
}

fn space(b: u8) -> (r: bool)
    ensures
        r == is_space(b),
{
    (9 <= b && b <= 13) || b == 32
}

fn without_space(text: &[u8]) -> (r: &[u8])
    ensures
        r@ == before_space(after_space(text@)),
{
    let mut start: usize = 0;
    let len: usize = text.len();
    assert(text@.skip(0) =~= text@);
    while start < len && space(text[start])
        invariant
            start <= len == text@.len(),
            after_space(text@) == after_space(text@.skip(start as int)),
        decreases len - start,
    {
        assert(text@.skip(start as int).skip(1) =~= text@.skip(start + 1));
        start += 1;
    }
    let ghost front = after_space(text@);
    let mut end: usize = len;
    assert(text@.subrange(start as int, end as int) =~= front);
    while end > start && space(text[end - 1])
        invariant
            start <= end <= len == text@.len(),
            before_space(front) == before_space(text@.subrange(start as int, end as int)),
        decreases end,
    {
        assert(text@.subrange(start as int, end as int).drop_last() =~= text@.subrange(
            start as int,
            end - 1,
        ));
        end -= 1;
    }
    slice_subrange(text, start, end)
}

impl RpcServer {
    /// Minimal RFC 4648 Base64 decoder (no padding required to be correct, but standard
    /// padding is accepted). Returns `None` on any invalid character.
    pub fn base64_decode(input: &str) -> (r: Option<Vec<u8>>)
        ensures
            match r {
                Some(bytes) => decoded(input.spec_bytes()) == Some(bytes@),
                None => decoded(input.spec_bytes()) is None,
            },
    {
        decode(input.as_bytes())
    }

    /// Whether a message with such a header may pass.
    pub fn check_auth(&self, header: Option<&[u8]>) -> (r: bool)
        ensures
            r == authorized(
                expectation(self.rpc_auth),
                match header {
                    Some(h) => Some(h@),
                    None => None,
                },
            ),
    {
        let expected = match &self.rpc_auth {
            Some(s) => s.as_str(),
            None => return true,
        };
        let value = match header {
            Some(h) => h,
            None => return false,
        };
        if value.len() < 6 {
            return false;
        }
        let start: [u8; 6] = [0x42, 0x61, 0x73, 0x69, 0x63, 0x20];
        let front = slice_subrange(value, 0, 6);
        proof {
            assert(front@ =~= value@.take(6));
            assert(start@ =~= basic());
        }
        if !bytes_equal(front, &start) {
            return false;
        }
        let rest = slice_subrange(value, 6, value.len());
        assert(rest@ =~= value@.skip(6));
        match decode(without_space(rest)) {
            Some(bytes) => bytes_equal(bytes.as_slice(), expected.as_bytes()),
            None => false,
        }
    }

    /// Looks at a message before its body is read.
    pub fn check_header(authorized: bool, is_post: bool, size: Option<usize>) -> (r: Result<
        (),
        RequestFault,
    >)
        ensures
            match r {
                Ok(_) => header_fault(authorized, is_post, size) is None,
                Err(e) => header_fault(authorized, is_post, size) == Some(e),
            },
    {
        if !authorized {
            return Err(RequestFault::Unauthorized);
        }
        if !is_post {
            return Err(RequestFault::MethodNotAllowed);
        }
        match size {
            Some(n) => {
                if n > MAX_REQUEST_BODY {
                    return Err(RequestFault::TooLarge);
                }
            },
            None => {},
        }
        Ok(())
    }

    /// Looks at the size of a body that was read.
    pub fn check_body(size: usize) -> (r: Result<(), RequestFault>)
        ensures
            match r {
                Ok(_) => body_fault(size) is None,
                Err(e) => body_fault(size) == Some(e),
            },
    {
        if size > MAX_REQUEST_BODY {
            Err(RequestFault::TooLarge)
        } else if size == 0 {
            Err(RequestFault::Empty)
        } else {
            Ok(())
        }
    }

    /// Says what is done with a value.
    pub fn route(is_object: bool, method: Option<&str>, has_id: bool) -> (r: Route)
        ensures
            r == routed(
                is_object,
                match method {
                    Some(name) => Some(name.spec_bytes()),
                    None => None,
                },
                has_id,
            ),
    {
        let name = match method {
            Some(name) => name.as_bytes(),
            None => return Route::Invalid,
        };
        if !is_object || name.len() == 0 {
            return Route::Invalid;
        }
        Route::Call { method: method_of(name), reply: has_id, stop: is_name(name, "stop") }
    }

    /// Says how a list of requests is answered.
    pub fn answer_batch(items: usize, results: usize) -> (r: Answer)
        ensures
            r == batch_answer(items, results),
    {
        if items == 0 {
            Answer::Invalid
        } else if results == 0 {
            Answer::NoContent
        } else {
            Answer::Results
        }
    }

    /// Whether an answer that was made at some time may be given again.
    pub fn is_fresh(made: u64, now: u64) -> (r: bool)
        ensures
            r == (now - made < CACHE_TIME),
    {
        now < made || now - made < CACHE_TIME
    }
}

} // verus!
