//! What callers are told.

use crate::consensus::block::BlockView;
use crate::consensus::chain_model::ChainView;
use crate::consensus::transaction::{Transaction, TransactionView};
use crate::laws::blocks::well_made;
use crate::primitives::hex::{hex_text, hex_value, lemma_hex_reads_back};
use crate::primitives::serialize::{Decode, Encode};
use crate::rpc::base64::{char_at, digit_value, encoded};
use crate::rpc::methods::{
    big_endian, block_named, confirmations_at, health_word, miner_script, tells, told_transaction,
    transaction_in, GetBlockResponse, MethodError,
};
use crate::rpc::params::{expect_block, expect_count, expect_generate, ParamError, ParamView};
use crate::rpc::request::{
    is_blank, json_shape, request_in, requoted, trimmed, unescaped_from, without_back,
    without_front, without_zeros,
};
use crate::rpc::server::{
    after_space, authorized, batch_answer, before_space, body_fault, header_fault, is_space,
    method_named, routed, Answer, Method, RequestFault,
};
use vstd::prelude::*;
use vstd::string::*;

verus! {

/// Each byte is told by two digits, the higher first; a digit above nine is a small letter.
pub proof fn lemma_hex_digits(bytes: Seq<u8>, i: int)
    requires
        0 <= i < bytes.len(),
    ensures
        ({
            let text = hex_text(bytes);
            let high = bytes[i] / 16;
            let low = bytes[i] % 16;
            &&& text.len() == 2 * bytes.len()
            &&& high < 10 ==> text[2 * i] as int == 48 + high
            &&& high >= 10 ==> text[2 * i] as int == 97 + high - 10
            &&& low < 10 ==> text[2 * i + 1] as int == 48 + low
            &&& low >= 10 ==> text[2 * i + 1] as int == 97 + low - 10
        }),
{
    assert((2 * i) / 2 == i && (2 * i + 1) / 2 == i);
    assert((2 * i) % 2 == 0 && (2 * i + 1) % 2 == 1);
}

/// Capital and small letters are read alike, and nothing but sixteen digits is read.
pub proof fn lemma_hex_values(c: char)
    ensures
        hex_value(c) is Some <==> ('0' <= c && c <= '9') || ('a' <= c && c <= 'f') || ('A' <= c && c
            <= 'F'),
        hex_value(c) is Some ==> 0 <= hex_value(c)->Some_0 < 16,
        '0' <= c && c <= '9' ==> hex_value(c)->Some_0 == c as int - '0' as int,
        'a' <= c && c <= 'f' ==> hex_value(c)->Some_0 == c as int - 'a' as int + 10,
        'A' <= c && c <= 'F' ==> hex_value(c)->Some_0 == c as int - 'A' as int + 10,
{
}

/// A block is found by its hash in hexadecimal digits exactly if it is there.
pub proof fn lemma_block_by_name(chain: ChainView, hash: Seq<u8>, b: BlockView)
    requires
        hash.len() == 32,
    ensures
        block_named(chain, hex_text(hash)) == Ok::<BlockView, MethodError>(b) <==> chain.block_of(
            hash,
        ) == Ok::<BlockView, crate::consensus::chain_model::ChainFault>(b),
{
    lemma_hex_reads_back(hash);
}

/// A transaction that is handed over in hexadecimal digits is taken exactly if it is well made.
pub proof fn lemma_transaction_handed_over(tx: TransactionView)
    requires
        Transaction::decodable(tx),
    ensures
        transaction_in(hex_text(Transaction::encoding(tx))) == Ok::<TransactionView, MethodError>(tx)
            <==> well_made(tx),
        transaction_in(hex_text(Transaction::encoding(tx))) is Ok <==> well_made(tx),
{
    let b = Transaction::encoding(tx);
    lemma_hex_reads_back(b);
    Transaction::lemma_round_trip(tx, Seq::empty());
    assert(b + Seq::<u8>::empty() =~= b);
    crate::laws::blocks::lemma_well_made(tx);
}

/// A transaction in the tip is confirmed once, and once more for each block above it.
pub proof fn lemma_confirmations(tip: u64, height: u64)
    ensures
        confirmations_at(height, height) == 1,
        tip >= height && tip < 0xFFFF_FFFF_FFFF_FFFF ==> confirmations_at((tip + 1) as u64, height)
            == confirmations_at(tip, height) + 1,
        tip < height ==> confirmations_at(tip, height) == 0,
{
}

/// The four bytes of a number, the highest first, make up the number.
pub proof fn lemma_big_endian(v: u32)
    ensures
        big_endian(v).len() == 4,
        v == big_endian(v)[0] * 0x1000000 + big_endian(v)[1] * 0x10000 + big_endian(v)[2] * 0x100
            + big_endian(v)[3],
{
}

/// An input of the first transaction of a block names nothing; any other names what it spends.
pub proof fn lemma_told(tx: TransactionView, place: int, i: int)
    requires
        0 <= i < tx.inputs.len(),
    ensures
        ({
            let t = told_transaction(tx, place);
            &&& t.txid == hex_text(tx.txid())
            &&& t.is_coinbase <==> place == 0
            &&& t.vin.len() == tx.inputs.len()
            &&& t.vout == tx.outputs
            &&& place == 0 ==> t.vin[i].txid is None && t.vin[i].vout is None && t.vin[i].coinbase
            &&& place != 0 ==> t.vin[i].txid == Some(hex_text(tx.inputs[i].prev_txid))
                && t.vin[i].vout == Some(tx.inputs[i].prev_index) && !t.vin[i].coinbase
        }),
{
}

/// The miner is whom the first output of the first transaction pays.
pub proof fn lemma_miner(block: BlockView, script: Seq<u8>)
    ensures
        miner_script(block) == Some(script) <==> block.transactions.len() > 0
            && block.transactions[0].outputs.len() > 0
            && block.transactions[0].outputs[0].script_pubkey == script,
{
}

/// Between one and a thousand blocks may be asked for.
pub proof fn lemma_count_asked(list: Seq<ParamView>, e: ParamError)
    ensures
        list.len() > 0 && list[0] is Number ==> {
            let n = list[0]->Number_0;
            &&& 1 <= n <= 1000 ==> expect_count(Some(list), e) == Ok::<u64, ParamError>(n)
            &&& !(1 <= n <= 1000) ==> expect_count(Some(list), e) == Err::<u64, ParamError>(
                ParamError::InvalidBlockCount,
            )
        },
        list.len() == 0 || list[0] !is Number ==> expect_count(Some(list), e) == Err::<
            u64,
            ParamError,
        >(e),
        expect_count(None, e) == Err::<u64, ParamError>(e),
{
}

/// Blocks are made for an address exactly if a fitting number and behind it a text is there; a block
/// is told with its transactions exactly if `true` stands behind its hash.
pub proof fn lemma_asked(list: Seq<ParamView>)
    ensures
        expect_generate(Some(list)) is Ok <==> list.len() >= 2 && list[0] is Number && 1
            <= list[0]->Number_0 <= 1000 && list[1] is Text,
        expect_generate(Some(list)) is Ok ==> expect_generate(Some(list))->Ok_0 == (
            list[0]->Number_0,
            list[1]->Text_0,
        ),
        expect_block(Some(list)) is Ok <==> list.len() >= 1 && list[0] is Text,
        expect_block(Some(list)) is Ok ==> expect_block(Some(list))->Ok_0 == (
            list[0]->Text_0,
            list.len() >= 2 && list[1] == ParamView::Bool(true),
        ),
{
}

/// A request is read exactly if it is authorized, posted and no longer than a mebibyte, and not empty.
pub proof fn lemma_request_read(allowed: bool, posted: bool, told: Option<usize>, size: usize)
    ensures
        header_fault(allowed, posted, told) is None <==> allowed && posted && (told is Some
            ==> told->Some_0 <= 1_048_576),
        !allowed ==> header_fault(allowed, posted, told) == Some(RequestFault::Unauthorized),
        body_fault(size) is None <==> 0 < size <= 1_048_576,
        body_fault(0) == Some(RequestFault::Empty),
        allowed && !posted ==> header_fault(allowed, posted, told) == Some(
            RequestFault::MethodNotAllowed,
        ),
{
}

/// A call is one exactly if it is an object with the name of a method; it is answered exactly if it
/// has an identifier. A list is answered exactly if one of its calls is.
pub proof fn lemma_calls(is_object: bool, method: Option<Seq<u8>>, has_id: bool, a: usize, b: usize)
    ensures
        routed(is_object, method, has_id) is Call <==> is_object && method is Some
            && method->Some_0.len() > 0,
        routed(is_object, method, has_id) is Call ==> routed(is_object, method, has_id)->reply
            == has_id,
        batch_answer(a, b) == Answer::Results <==> a > 0 && b > 0,
        batch_answer(a, b) == Answer::Invalid <==> a == 0,
{
}

/// Whether one sequence is what is left of another once bytes are cut off at both ends.
pub open spec fn cut(text: Seq<u8>, part: Seq<u8>, from: int) -> bool {
    0 <= from && from + part.len() <= text.len() && part == text.subrange(
        from,
        from + part.len() as int,
    )
}

proof fn lemma_front_blanks(body: Seq<u8>) -> (n: int)
    ensures
        0 <= n <= body.len(),
        without_front(body) == body.skip(n),
        forall|i: int| 0 <= i < n ==> is_blank(#[trigger] body[i]),
        n < body.len() ==> !is_blank(body[n]),
    decreases body.len(),
{
    if body.len() > 0 && is_blank(body[0]) {
        let rest = body.skip(1);
        let m = lemma_front_blanks(rest);
        assert forall|i: int| 0 <= i < m + 1 implies is_blank(#[trigger] body[i]) by {
            if i > 0 {
                assert(rest[i - 1] == body[i]);
            }
        }
        assert(rest.skip(m) =~= body.skip(m + 1));
        if m < rest.len() {
            assert(rest[m] == body[m + 1]);
        }
        m + 1
    } else {
        assert(body.skip(0) =~= body);
        0
    }
}

proof fn lemma_back_blanks(body: Seq<u8>) -> (n: int)
    ensures
        0 <= n <= body.len(),
        without_back(body) == body.take(n),
        forall|i: int| n <= i < body.len() ==> is_blank(#[trigger] body[i]),
        n > 0 ==> !is_blank(body[n - 1]),
    decreases body.len(),
{
    if body.len() > 0 && is_blank(body.last()) {
        let front = body.drop_last();
        let m = lemma_back_blanks(front);
        assert forall|i: int| m <= i < body.len() implies is_blank(#[trigger] body[i]) by {
            if i < front.len() {
                assert(front[i] == body[i]);
            }
        }
        assert(front.take(m) =~= body.take(m));
        if m > 0 {
            assert(front[m - 1] == body[m - 1]);
        }
        m
    } else {
        assert(body.take(body.len() as int) =~= body);
        body.len() as int
    }
}

/// A body is cut down to what begins and ends with no blank; all that is cut off is blank: spaces,
/// tabs, ends of lines and pages, and zeros.
pub proof fn lemma_blanks_cut(body: Seq<u8>)
    ensures
        ({
            let t = trimmed(body);
            &&& t.len() > 0 ==> !is_blank(t[0]) && !is_blank(t.last())
            &&& exists|from: int|
                {
                    &&& #[trigger] cut(body, t, from)
                    &&& forall|i: int| 0 <= i < from ==> is_blank(#[trigger] body[i])
                    &&& forall|i: int|
                        from + t.len() <= i < body.len() ==> is_blank(#[trigger] body[i])
                }
        }),
        forall|b: u8| #[trigger]
            is_blank(b) <==> b == 32 || b == 9 || b == 10 || b == 12 || b == 13 || b == 0,
{
    let n = lemma_front_blanks(body);
    let rest = without_front(body);
    let m = lemma_back_blanks(rest);
    let t = trimmed(body);
    assert(t =~= body.subrange(n, n + m));
    assert(cut(body, t, n));
    assert forall|i: int| n + t.len() <= i < body.len() implies is_blank(#[trigger] body[i]) by {
        assert(rest[i - n] == body[i]);
    }
    if t.len() > 0 {
        assert(t[0] == body[n]);
        assert(t.last() == rest[m - 1]);
    }
}

/// Without zeros all other bytes stay.
pub proof fn lemma_zeros_dropped(body: Seq<u8>, b: u8)
    ensures
        without_zeros(body).contains(b) <==> body.contains(b) && b != 0,
        !body.contains(0u8) ==> without_zeros(body) == body,
    decreases body.len(),
{
    if body.len() > 0 {
        let front = body.drop_last();
        lemma_zeros_dropped(front, b);
        lemma_end(body, b);
        lemma_end(body, 0);
        let more = without_zeros(front).push(body.last());
        lemma_end(more, b);
        assert(more.drop_last() =~= without_zeros(front));
        if !body.contains(0u8) {
            assert(more =~= body);
        }
    } else {
        assert(without_zeros(body) =~= body);
        assert(!body.contains(b));
    }
}

proof fn lemma_end(s: Seq<u8>, e: u8)
    requires
        s.len() > 0,
    ensures
        s.contains(e) <==> s.drop_last().contains(e) || s.last() == e,
{
    if s.contains(e) {
        let i = choose|i: int| 0 <= i < s.len() && s[i] == e;
        if i < s.len() - 1 {
            assert(s.drop_last()[i] == e);
        }
    }
    if s.drop_last().contains(e) {
        let i = choose|i: int| 0 <= i < s.drop_last().len() && s.drop_last()[i] == e;
        assert(s[i] == e);
    }
    if s.last() == e {
        assert(s[s.len() - 1] == e);
    }
}

/// Backslashes become quotes exactly where there are backslashes and no quotes; all else stays.
pub proof fn lemma_requoted(body: Seq<u8>, i: int)
    requires
        0 <= i < body.len(),
    ensures
        requoted(body) is Some <==> body.contains(0x5cu8) && !body.contains(0x22u8),
        requoted(body) is Some ==> {
            let r = requoted(body)->Some_0;
            &&& r.len() == body.len()
            &&& body[i] == 0x5c ==> r[i] == 0x22
            &&& body[i] != 0x5c ==> r[i] == body[i]
        },
{
}

/// A body without backslashes holds no escaped quotes, and stays as it is.
pub proof fn lemma_nothing_escaped(body: Seq<u8>, i: int)
    requires
        0 <= i <= body.len(),
        !body.contains(0x5cu8),
    ensures
        unescaped_from(body, i) == body.skip(i),
    decreases body.len() - i,
{
    if i < body.len() {
        lemma_nothing_escaped(body, i + 1);
        assert(body.contains(body[i]));
        assert(seq![body[i]] + body.skip(i + 1) =~= body.skip(i));
    } else {
        assert(body.skip(i) =~= Seq::empty());
    }
}

/// Three bytes and the four characters that stand for them make up one number of 24 bits.
pub proof fn lemma_group_of_three(bytes: Seq<u8>, g: int)
    requires
        0 <= g,
        3 * g + 2 < bytes.len(),
    ensures
        ({
            let t = encoded(bytes);
            let a = digit_value(t[4 * g]);
            let b = digit_value(t[4 * g + 1]);
            let c = digit_value(t[4 * g + 2]);
            let d = digit_value(t[4 * g + 3]);
            &&& 4 * g + 3 < t.len()
            &&& a is Some && b is Some && c is Some && d is Some
            &&& a->Some_0 * 262144 + b->Some_0 * 4096 + c->Some_0 * 64 + d->Some_0 == bytes[3 * g]
                * 65536 + bytes[3 * g + 1] * 256 + bytes[3 * g + 2]
        }),
{
    let t = encoded(bytes);
    assert((4 * g) / 4 == g && (4 * g + 1) / 4 == g && (4 * g + 2) / 4 == g && (4 * g + 3) / 4 == g);
    assert((4 * g) % 4 == 0 && (4 * g + 1) % 4 == 1 && (4 * g + 2) % 4 == 2 && (4 * g + 3) % 4
        == 3);
    assert(t[4 * g] == char_at(bytes, 4 * g));
    assert(t[4 * g + 1] == char_at(bytes, 4 * g + 1));
    assert(t[4 * g + 2] == char_at(bytes, 4 * g + 2));
    assert(t[4 * g + 3] == char_at(bytes, 4 * g + 3));
}

/// The characters that stand for numbers: capital letters, small letters, digits, plus and slash.
pub proof fn lemma_alphabet(v: u8)
    requires
        v < 64,
    ensures
        v < 26 ==> digit_value((65 + v) as u8) == Some(v),
        26 <= v < 52 ==> digit_value((97 + v - 26) as u8) == Some(v),
        52 <= v < 62 ==> digit_value((48 + v - 52) as u8) == Some(v),
        v == 62 ==> digit_value(43) == Some(v),
        v == 63 ==> digit_value(47) == Some(v),
        digit_value(61) is None,
{
}

/// Where a credential is expected nothing passes without one, and where none is everything does.
pub proof fn lemma_passage(want: Seq<u8>, header: Option<Seq<u8>>)
    ensures
        authorized(None, header),
        !authorized(Some(want), None),
        header is Some && (header->Some_0.len() < 6 || header->Some_0.take(6) != seq![
            66u8,
            97,
            115,
            105,
            99,
            32,
        ]) ==> !authorized(Some(want), header),
{
}

/// The words for how well the network does change at forty, sixty and eighty.
pub proof fn lemma_health_words(a: u8, b: u8)
    requires
        (a >= 80 && b >= 80) || (60 <= a < 80 && 60 <= b < 80) || (40 <= a < 60 && 40 <= b < 60) || (
        a < 40 && b < 40),
    ensures
        health_word(a) == health_word(b),
        a >= 80 ==> health_word(a) == "excellent"@,
        60 <= a < 80 ==> health_word(a) == "good"@,
        40 <= a < 60 ==> health_word(a) == "fair"@,
        a < 40 ==> health_word(a) == "poor"@,
{
}

/// The name that a method is called by.
pub open spec fn name_of(m: Method) -> Seq<u8> {
    match m {
        Method::GetBlockchainInfo => "getblockchaininfo".spec_bytes(),
        Method::GetMiningInfo => "getmininginfo".spec_bytes(),
        Method::MineBlocks => "mineblocks".spec_bytes(),
        Method::GetBlock => "getblock".spec_bytes(),
        Method::GetBlockHash => "getblockhash".spec_bytes(),
        Method::GetBestBlockHash => "getbestblockhash".spec_bytes(),
        Method::AddNode => "addnode".spec_bytes(),
        Method::GetNewAddress => "getnewaddress".spec_bytes(),
        Method::GetBalance => "getbalance".spec_bytes(),
        Method::ListUnspent => "listunspent".spec_bytes(),
        Method::ListAddresses => "listaddresses".spec_bytes(),
        Method::SendToAddress => "sendtoaddress".spec_bytes(),
        Method::GenerateToAddress => "generatetoaddress".spec_bytes(),
        Method::GetNetworkInfo => "getnetworkinfo".spec_bytes(),
        Method::GetPeerInfo => "getpeerinfo".spec_bytes(),
        Method::GetConnectionCount => "getconnectioncount".spec_bytes(),
        Method::GetNetworkHealth => "getnetworkhealth".spec_bytes(),
        Method::GetRecoveryStatus => "getrecoverystatus".spec_bytes(),
        Method::ForceReconnect => "forcereconnect".spec_bytes(),
        Method::ResetNetwork => "resetnetwork".spec_bytes(),
        Method::SendRawTransaction => "sendrawtransaction".spec_bytes(),
        Method::GetWalletInfo => "getwalletinfo".spec_bytes(),
        Method::EncryptWallet => "encryptwallet".spec_bytes(),
        Method::ImportSeed => "importseed".spec_bytes(),
        Method::GetShamirShares => "getshamirshares".spec_bytes(),
        Method::Stop => "stop".spec_bytes(),
    }
}

/// A method is called by its own name alone, and the node stops exactly where it is told to.
pub proof fn lemma_methods_by_name(name: Seq<u8>, m: Method)
    ensures
        method_named(name) == Some(m) ==> name == name_of(m),
        (exists|k: Method| #[trigger] name_of(k) == name) ==> method_named(name) is Some,
        name.len() > 0 ==> (routed(true, Some(name), true)->stop <==> name == "stop".spec_bytes()),
        name.len() > 0 ==> routed(true, Some(name), true)->method == method_named(name),
{
}

proof fn lemma_front_spaces(text: Seq<u8>) -> (n: int)
    ensures
        0 <= n <= text.len(),
        after_space(text) == text.skip(n),
        forall|i: int| 0 <= i < n ==> is_space(#[trigger] text[i]),
        n < text.len() ==> !is_space(text[n]),
    decreases text.len(),
{
    if text.len() > 0 && is_space(text[0]) {
        let rest = text.skip(1);
        let m = lemma_front_spaces(rest);
        assert forall|i: int| 0 <= i < m + 1 implies is_space(#[trigger] text[i]) by {
            if i > 0 {
                assert(rest[i - 1] == text[i]);
            }
        }
        assert(rest.skip(m) =~= text.skip(m + 1));
        if m < rest.len() {
            assert(rest[m] == text[m + 1]);
        }
        m + 1
    } else {
        assert(text.skip(0) =~= text);
        0
    }
}

proof fn lemma_back_spaces(text: Seq<u8>) -> (n: int)
    ensures
        0 <= n <= text.len(),
        before_space(text) == text.take(n),
        forall|i: int| n <= i < text.len() ==> is_space(#[trigger] text[i]),
        n > 0 ==> !is_space(text[n - 1]),
    decreases text.len(),
{
    if text.len() > 0 && is_space(text.last()) {
        let front = text.drop_last();
        let m = lemma_back_spaces(front);
        assert forall|i: int| m <= i < text.len() implies is_space(#[trigger] text[i]) by {
            if i < front.len() {
                assert(front[i] == text[i]);
            }
        }
        assert(front.take(m) =~= text.take(m));
        if m > 0 {
            assert(front[m - 1] == text[m - 1]);
        }
        m
    } else {
        assert(text.take(text.len() as int) =~= text);
        text.len() as int
    }
}

/// White space around a credential does not count: of it nothing else is cut off.
pub proof fn lemma_spaces_cut(text: Seq<u8>)
    ensures
        ({
            let t = before_space(after_space(text));
            &&& t.len() > 0 ==> !is_space(t[0]) && !is_space(t.last())
            &&& exists|from: int|
                {
                    &&& #[trigger] cut(text, t, from)
                    &&& forall|i: int| 0 <= i < from ==> is_space(#[trigger] text[i])
                    &&& forall|i: int|
                        from + t.len() <= i < text.len() ==> is_space(#[trigger] text[i])
                }
        }),
        forall|b: u8| #[trigger] is_space(b) <==> b == 32 || (9 <= b && b <= 13),
{
    let n = lemma_front_spaces(text);
    let rest = after_space(text);
    let m = lemma_back_spaces(rest);
    let t = before_space(rest);
    assert(t =~= text.subrange(n, n + m));
    assert(cut(text, t, n));
    assert forall|i: int| n + t.len() <= i < text.len() implies is_space(#[trigger] text[i]) by {
        assert(rest[i - n] == text[i]);
    }
    if t.len() > 0 {
        assert(t[0] == text[n]);
        assert(t.last() == rest[m - 1]);
    }
}

/// The request is the body without blanks where that is JSON; where it is a string, it is what the
/// string holds, which has to be JSON.
pub proof fn lemma_request_taken(body: Seq<u8>, string: Seq<u8>)
    ensures
        json_shape(trimmed(body)) == Some(None::<Seq<u8>>) ==> request_in(body) == Some(
            trimmed(body),
        ),
        json_shape(trimmed(body)) == Some(Some(string)) && json_shape(string) is Some ==> request_in(
            body,
        ) == Some(string),
        json_shape(trimmed(body)) == Some(Some(string)) && json_shape(string) is None ==> request_in(
            body,
        ) is None,
        json_shape(trimmed(body)) is None && json_shape(without_zeros(trimmed(body))) == Some(
            None::<Seq<u8>>,
        ) ==> request_in(body) == Some(without_zeros(trimmed(body))),
{
}

/// What is told of a block is what it holds.
pub proof fn lemma_block_told(r: GetBlockResponse, block: BlockView, height: u64, verbose: bool)
    requires
        tells(r, block, height, verbose),
    ensures
        r.hash@ == hex_text(block.hash()),
        height <= 0xFFFF_FFFF ==> r.height == height,
        r.time == block.header.timestamp,
        r.nonce == block.header.nonce,
        r.version == block.header.version,
        r.merkleroot@ == hex_text(block.header.merkle_root),
        r.bits@ == hex_text(big_endian(block.header.n_bits)),
        r.n_tx == block.transactions.len(),
        r.tx@.len() == block.transactions.len(),
        forall|i: int|
            0 <= i < block.transactions.len() ==> (#[trigger] r.tx@[i])@ == hex_text(
                block.transactions[i].txid(),
            ),
        r.transactions is Some <==> verbose,
{
}

} // verus!
