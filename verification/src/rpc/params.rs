//! What the methods take.

use crate::primitives::serialize::views;
use crate::rpc::methods::{check_block_count, MAX_MINED_BLOCKS};
use vstd::prelude::*;
use vstd::string::*;

verus! {

/// One value that a caller handed over.
#[derive(Debug, PartialEq)]
pub enum Param {
    Text(String),
    /// A number that is whole and not negative.
    Number(u64),
    Bool(bool),
    /// A value that no method takes.
    Other,
}

/// The model of a value that a caller handed over.
pub enum ParamView {
    Text(Seq<char>),
    Number(u64),
    Bool(bool),
    Other,
}

impl View for Param {
    type V = ParamView;

    open spec fn view(&self) -> ParamView {
        match self {
            Param::Text(s) => ParamView::Text(s@),
            Param::Number(n) => ParamView::Number(*n),
            Param::Bool(b) => ParamView::Bool(*b),
            Param::Other => ParamView::Other,
        }
    }
}

/// What a caller handed over.
#[derive(Debug, PartialEq)]
pub enum Params {
    List(Vec<Param>),
    /// No list, or nothing at all.
    Other,
}

impl View for Params {
    type V = Option<Seq<ParamView>>;

    open spec fn view(&self) -> Option<Seq<ParamView>> {
        match self {
            Params::List(list) => Some(views(list@)),
            Params::Other => None,
        }
    }
}

/// What is wrong with what a caller handed over.
#[derive(Debug, Clone, Copy, PartialEq, Eq, Structural)]
pub enum ParamError {
    ExpectedCount,
    ExpectedCountAndAddress,
    MissingCount,
    MissingAddress,
    ExpectedArray,
    ExpectedHash,
    ExpectedHeight,
    ExpectedAddress,
    InvalidHex,
    InvalidBlockCount,
}

/// What a caller is told of a fault.
pub open spec fn fault_text(e: ParamError) -> Seq<char> {
    match e {
        ParamError::ExpectedCount => "Invalid params: expected [nblocks]"@,
        ParamError::ExpectedCountAndAddress => "Invalid params: expected [nblocks, address]"@,
        ParamError::MissingCount => "Missing nblocks parameter"@,
        ParamError::MissingAddress => "Missing address parameter"@,
        ParamError::ExpectedArray => "Invalid params: expected array"@,
        ParamError::ExpectedHash => "Invalid params: expected [blockhash]"@,
        ParamError::ExpectedHeight => "Invalid params: expected [height]"@,
        ParamError::ExpectedAddress => "Invalid params: expected [address]"@,
        ParamError::InvalidHex => "Invalid hex"@,
        ParamError::InvalidBlockCount => "nblocks must be between 1 and 1000"@,
    }
}

impl ParamError {
    pub fn text(self) -> (r: &'static str)
        ensures
            r@ == fault_text(self),
    {
        match self {
            ParamError::ExpectedCount => "Invalid params: expected [nblocks]",
            ParamError::ExpectedCountAndAddress => "Invalid params: expected [nblocks, address]",
            ParamError::MissingCount => "Missing nblocks parameter",
            ParamError::MissingAddress => "Missing address parameter",
            ParamError::ExpectedArray => "Invalid params: expected array",
            ParamError::ExpectedHash => "Invalid params: expected [blockhash]",
            ParamError::ExpectedHeight => "Invalid params: expected [height]",
            ParamError::ExpectedAddress => "Invalid params: expected [address]",
            ParamError::InvalidHex => "Invalid hex",
            ParamError::InvalidBlockCount => "nblocks must be between 1 and 1000",
        }
    }
}

/// The text at a place, if one is there.
pub open spec fn text_at(p: Option<Seq<ParamView>>, i: int) -> Option<Seq<char>> {
    match p {
        Some(list) => if 0 <= i < list.len() && list[i] is Text {
            Some(list[i]->Text_0)
        } else {
            None
        },
        None => None,
    }
}

/// The number at a place, if one is there.
pub open spec fn number_at(p: Option<Seq<ParamView>>, i: int) -> Option<u64> {
    match p {
        Some(list) => if 0 <= i < list.len() && list[i] is Number {
            Some(list[i]->Number_0)
        } else {
            None
        },
        None => None,
    }
}

/// Whether `true` is at a place.
pub open spec fn holds_at(p: Option<Seq<ParamView>>, i: int) -> bool {
    p is Some && 0 <= i < p->0.len() && p->0[i] == ParamView::Bool(true)
}

/// The text that is asked for, or a fault where there is none.
pub open spec fn expect_text(p: Option<Seq<ParamView>>, e: ParamError) -> Result<
    Seq<char>,
    ParamError,
> {
    match text_at(p, 0) {
        Some(s) => Ok(s),
        None => Err(e),
    }
}

/// The number of blocks to mine, or a fault.
pub open spec fn expect_count(p: Option<Seq<ParamView>>, e: ParamError) -> Result<u64, ParamError> {
    match number_at(p, 0) {
        Some(n) => if 1 <= n <= MAX_MINED_BLOCKS {
            Ok(n)
        } else {
            Err(ParamError::InvalidBlockCount)
        },
        None => Err(e),
    }
}

/// What `generatetoaddress` works on: how many blocks, and for whom. The number is looked at
/// before the address.
pub open spec fn expect_generate(p: Option<Seq<ParamView>>) -> Result<
    (u64, Seq<char>),
    ParamError,
> {
    if p is None {
        Err(ParamError::ExpectedCountAndAddress)
    } else {
        match expect_count(p, ParamError::MissingCount) {
            Err(e) => Err(e),
            Ok(n) => match text_at(p, 1) {
                Some(s) => Ok((n, s)),
                None => Err(ParamError::MissingAddress),
            },
        }
    }
}

/// What `getblock` works on: the hash in hex, and whether transactions are told. They are
/// not where nothing is said of it.
pub open spec fn expect_block(p: Option<Seq<ParamView>>) -> Result<(Seq<char>, bool), ParamError> {
    if p is None {
        Err(ParamError::ExpectedArray)
    } else {
        match expect_text(p, ParamError::ExpectedHash) {
            Err(e) => Err(e),
            Ok(s) => Ok((s, holds_at(p, 1))),
        }
    }
}

/// Whether a text, or a fault, is the one that is expected.
pub open spec fn is_text(r: Result<&str, ParamError>, want: Result<Seq<char>, ParamError>) -> bool {
    match r {
        Ok(s) => want == Ok::<Seq<char>, ParamError>(s@),
        Err(e) => want == Err::<Seq<char>, ParamError>(e),
    }
}

impl Params {
    fn at(&self, i: usize) -> (r: Option<&Param>)
        ensures
            match r {
                Some(v) => self@ is Some && i < self@->0.len() && self@->0[i as int] == v@,
                None => self@ is None || i >= self@->0.len(),
            },
    {
        match self {
            Params::List(list) => {
                if i < list.len() {
                    Some(&list[i])
                } else {
                    None
                }
            },
            Params::Other => None,
        }
    }

    fn text(&self, i: usize, e: ParamError) -> (r: Result<&str, ParamError>)
        ensures
            is_text(
                r,
                match text_at(self@, i as int) {
                    Some(s) => Ok(s),
                    None => Err(e),
                },
            ),
    {
        match self.at(i) {
            Some(Param::Text(s)) => Ok(s.as_str()),
            _ => Err(e),
        }
    }

    fn number(&self, i: usize, e: ParamError) -> (r: Result<u64, ParamError>)
        ensures
            r == (match number_at(self@, i as int) {
                Some(n) => Ok::<u64, ParamError>(n),
                None => Err::<u64, ParamError>(e),
            }),
    {
        match self.at(i) {
            Some(Param::Number(n)) => Ok(*n),
            _ => Err(e),
        }
    }

    fn count(&self, e: ParamError) -> (r: Result<u64, ParamError>)
        ensures
            r == expect_count(self@, e),
    {
        match self.number(0, e) {
            Err(e) => Err(e),
            Ok(n) => match check_block_count(n) {
                Ok(()) => Ok(n),
                Err(_) => Err(ParamError::InvalidBlockCount),
            },
        }
    }

    /// How many blocks `mineblocks` mines.
    pub fn mineblocks(&self) -> (r: Result<u64, ParamError>)
        ensures
            r == expect_count(self@, ParamError::ExpectedCount),
    {
        self.count(ParamError::ExpectedCount)
    }

    /// How many blocks `generatetoaddress` mines, and for whom.
    pub fn generatetoaddress(&self) -> (r: Result<(u64, &str), ParamError>)
        ensures
            match r {
                Ok((n, s)) => expect_generate(self@) == Ok::<(u64, Seq<char>), ParamError>((n, s@)),
                Err(e) => expect_generate(self@) == Err::<(u64, Seq<char>), ParamError>(e),
            },
    {
        if let Params::Other = self {
            return Err(ParamError::ExpectedCountAndAddress);
        }
        match self.count(ParamError::MissingCount) {
            Err(e) => Err(e),
            Ok(n) => match self.text(1, ParamError::MissingAddress) {
                Ok(s) => Ok((n, s)),
                Err(e) => Err(e),
            },
        }
    }

    /// Which block `getblock` shows, and whether with its transactions.
    pub fn getblock(&self) -> (r: Result<(&str, bool), ParamError>)
        ensures
            match r {
                Ok((s, verbose)) => expect_block(self@) == Ok::<(Seq<char>, bool), ParamError>(
                    (s@, verbose),
                ),
                Err(e) => expect_block(self@) == Err::<(Seq<char>, bool), ParamError>(e),
            },
    {
        if let Params::Other = self {
            return Err(ParamError::ExpectedArray);
        }
        let verbose = match self.at(1) {
            Some(Param::Bool(b)) => *b,
            _ => false,
        };
        match self.text(0, ParamError::ExpectedHash) {
            Ok(s) => Ok((s, verbose)),
            Err(e) => Err(e),
        }
    }

    /// The height that `getblockhash` looks at.
    pub fn getblockhash(&self) -> (r: Result<u64, ParamError>)
        ensures
            r == (match number_at(self@, 0) {
                Some(n) => Ok::<u64, ParamError>(n),
                None => Err::<u64, ParamError>(ParamError::ExpectedHeight),
            }),
    {
        self.number(0, ParamError::ExpectedHeight)
    }

    /// Whom `addnode` connects to.
    pub fn addnode(&self) -> (r: Result<&str, ParamError>)
        ensures
            is_text(r, expect_text(self@, ParamError::ExpectedAddress)),
    {
        self.text(0, ParamError::ExpectedAddress)
    }

    /// The transaction that `sendrawtransaction` takes, in hex.
    pub fn sendrawtransaction(&self) -> (r: Result<&str, ParamError>)
        ensures
            is_text(r, expect_text(self@, ParamError::InvalidHex)),
    {
        self.text(0, ParamError::InvalidHex)
    }
}

} // verus!
