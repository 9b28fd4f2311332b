//! Checks a batch of headers that a peer sent.

use crate::collections::byte_map::ByteMap;
use crate::collections::id_map::IdMap;
use crate::consensus::block::{BlockHeader, BlockHeaderView};
use crate::consensus::chain::ChainState;
use crate::consensus::chain_model::{ChainView, MEDIAN_WINDOW};
use crate::consensus::difficulty::{difficulty_error, validate_difficulty, DifficultyError};
use crate::consensus::merkle::zero_hash;
use crate::consensus::validation::{timestamp_error, validate_timestamp_at, ValidationError};
use crate::primitives::bytes::bytes_equal;
use crate::primitives::hash::Hash256;
use crate::primitives::serialize::views;
use crate::storage::blocks::{block_at_height, header_at, header_at_height};
use vstd::prelude::*;

verus! {

/// Why a batch of headers is not taken.
#[derive(Debug, Clone, Copy, PartialEq, Eq)]
pub enum HeaderFault {
    /// A header without predecessor.
    GenesisHeader,
    /// The header that the batch builds on is not stored.
    BestHeaderMissing,
    /// The store could not be read.
    StoreError,
    /// The predecessor is stored but its height is not known.
    NoHeight,
    /// The predecessor is not stored: the headers before it are needed.
    HeadersNeeded,
    /// The predecessor was seen but is not stored.
    SeenNotStored,
    /// The predecessor is not known.
    UnknownParent,
    /// No further height is left.
    TooHigh,
    /// The stated target cannot be read.
    PowError,
    /// The hash does not meet the target.
    InvalidPow,
    Difficulty(DifficultyError),
    Timestamp(ValidationError),
}

/// What headers are held against.
pub struct HeaderSources {
    pub chain: ChainView,
    /// The locator that was sent last, with heights.
    pub locator: Seq<(Seq<u8>, u64)>,
    /// The headers of the peer, by height.
    pub by_height: Map<u64, Seq<u8>>,
    /// Heights of headers that were seen before.
    pub known: Map<Seq<u8>, u32>,
}

/// How far a batch of headers was read.
#[verifier::ext_equal]
pub struct BatchView {
    pub best_height: u32,
    pub best_hash: Seq<u8>,
    /// First height at which the headers leave the active chain.
    pub fork_start: Option<u32>,
    /// Heights of the headers that were read.
    pub fresh: Map<Seq<u8>, u32>,
    /// The header that was read last, with its height.
    pub prev: Option<(BlockHeaderView, u32)>,
    /// The headers that timestamps are held against, the latest first.
    pub window: Seq<BlockHeaderView>,
    /// The headers that were read, with their heights.
    pub stored: Seq<(BlockHeaderView, u64)>,
}

/// What reading a number of headers leads to.
pub struct HeaderRun {
    pub batch: BatchView,
    pub fault: Option<HeaderFault>,
}

/// Height of the tip, as far as it is among the recent blocks, or zero.
pub open spec fn tip_height(chain: ChainView) -> u64 {
    match chain.tip {
        Some(t) => match chain.cached(t) {
            Some(d) => d.height,
            None => 0,
        },
        None => 0,
    }
}

/// The height of the first entry of a locator with a hash.
pub open spec fn locator_height(locator: Seq<(Seq<u8>, u64)>, hash: Seq<u8>) -> Option<u64>
    decreases locator.len(),
{
    if locator.len() == 0 {
        None
    } else if locator[0].0 == hash {
        Some(locator[0].1)
    } else {
        locator_height(locator.skip(1), hash)
    }
}

/// Whether a height is the lowest one with a hash.
pub open spec fn is_lowest(by_height: Map<u64, Seq<u8>>, hash: Seq<u8>, height: u64) -> bool {
    &&& by_height.contains_key(height)
    &&& by_height[height] == hash
    &&& forall|k: u64| k < height && by_height.contains_key(k) ==> #[trigger] by_height[k] != hash
}

/// The lowest height with a hash.
pub open spec fn lowest_height(by_height: Map<u64, Seq<u8>>, hash: Seq<u8>) -> Option<u64> {
    if exists|h: u64| is_lowest(by_height, hash, h) {
        Some(choose|h: u64| is_lowest(by_height, hash, h))
    } else {
        None
    }
}

/// The height of a stored header: by the recent blocks, else by the locator, else
/// by the headers of the peer.
pub open spec fn stored_height(s: HeaderSources, hash: Seq<u8>) -> Option<u64> {
    match s.chain.cached(hash) {
        Some(d) => Some(d.height),
        None => match locator_height(s.locator, hash) {
            Some(h) => Some(h),
            None => lowest_height(s.by_height, hash),
        },
    }
}

/// The heights of headers that were seen, with those of a batch.
pub open spec fn seen(s: HeaderSources, b: BatchView) -> Map<Seq<u8>, u32> {
    s.known.union_prefer_right(b.fresh)
}

/// The predecessor of a header, with its height.
pub open spec fn parent(s: HeaderSources, b: BatchView, header: BlockHeaderView) -> Result<
    (BlockHeaderView, u32),
    HeaderFault,
> {
    let hash = header.prev_block_hash;
    let stored = header_at(s.chain.blocks, hash);
    match b.prev {
        None => if hash == b.best_hash {
            match stored {
                Err(_) => Err(HeaderFault::StoreError),
                Ok(Some(h)) => Ok((h, b.best_height)),
                Ok(None) => if hash == zero_hash() {
                    Err(HeaderFault::GenesisHeader)
                } else {
                    Err(HeaderFault::BestHeaderMissing)
                },
            }
        } else {
            match stored {
                Err(_) => Err(HeaderFault::StoreError),
                Ok(None) => Err(HeaderFault::HeadersNeeded),
                Ok(Some(h)) => match stored_height(s, hash) {
                    Some(n) => Ok((h, n as u32)),
                    None => Err(HeaderFault::NoHeight),
                },
            }
        },
        Some(prev) => if hash == b.best_hash {
            Ok(prev)
        } else if seen(s, b).contains_key(hash) {
            match stored {
                Err(_) => Err(HeaderFault::StoreError),
                Ok(None) => Err(HeaderFault::SeenNotStored),
                Ok(Some(h)) => Ok((h, seen(s, b)[hash])),
            }
        } else {
            match s.chain.cached(hash) {
                Some(d) => Ok((d.block.header, d.height as u32)),
                None => Err(HeaderFault::UnknownParent),
            }
        },
    }
}

/// Up to `n` headers by height, from a height downwards.
pub open spec fn headers_down(chain: ChainView, height: u32, n: nat) -> Seq<BlockHeaderView>
    decreases n,
{
    if n == 0 {
        Seq::empty()
    } else {
        match header_at_height(chain.blocks, height as u64) {
            Ok(Some(h)) => if height == 0 {
                seq![h]
            } else {
                seq![h] + headers_down(chain, (height - 1) as u32, (n - 1) as nat)
            },
            _ => Seq::empty(),
        }
    }
}

/// The headers that the timestamp behind a header is held against.
pub open spec fn time_window(s: HeaderSources, b: BatchView, prev: (BlockHeaderView, u32)) -> Seq<
    BlockHeaderView,
> {
    if b.window.len() > 0 {
        b.window
    } else {
        seq![prev.0] + headers_down(
            s.chain,
            if prev.1 == 0 {
                0
            } else {
                (prev.1 - 1) as u32
            },
            (MEDIAN_WINDOW - 1) as nat,
        )
    }
}

/// What is wrong with a header, given its predecessor.
pub open spec fn header_fault(
    s: HeaderSources,
    b: BatchView,
    header: BlockHeaderView,
    prev: (BlockHeaderView, u32),
    pow_hash: Seq<u8>,
    now: u64,
) -> Option<HeaderFault> {
    if header.target() is Err {
        Some(HeaderFault::PowError)
    } else if !header.meets_target(pow_hash) {
        Some(HeaderFault::InvalidPow)
    } else {
        match difficulty_error(prev.0, header, s.chain.params) {
            Some(e) => Some(HeaderFault::Difficulty(e)),
            None => match timestamp_error(header, time_window(s, b, prev), now) {
                Some(e) => Some(HeaderFault::Timestamp(e)),
                None => None,
            },
        }
    }
}

/// Where headers leave the active chain, once one more was read.
pub open spec fn fork_after(
    chain: ChainView,
    fork_start: Option<u32>,
    hash: Seq<u8>,
    height: u32,
) -> Option<u32> {
    if fork_start is Some || height > tip_height(chain) as u32 {
        fork_start
    } else {
        match block_at_height(chain.blocks, height as u64) {
            Ok(Some(b)) => if b.hash() == hash {
                None
            } else {
                Some(height)
            },
            _ => Some(height),
        }
    }
}

/// The batch with one more header.
pub open spec fn with_read(
    s: HeaderSources,
    b: BatchView,
    header: BlockHeaderView,
    prev: (BlockHeaderView, u32),
) -> BatchView {
    let height = (prev.1 + 1) as u32;
    let hash = header.hash();
    let window = seq![header] + time_window(s, b, prev);
    BatchView {
        best_height: height,
        best_hash: hash,
        fork_start: fork_after(s.chain, b.fork_start, hash, height),
        fresh: b.fresh.insert(hash, height),
        prev: Some((header, height)),
        window: if window.len() > MEDIAN_WINDOW {
            window.drop_last()
        } else {
            window
        },
        stored: b.stored.push((header, height as u64)),
    }
}

/// The predecessor of a header, if a height is left behind it.
pub open spec fn placed(s: HeaderSources, b: BatchView, header: BlockHeaderView) -> Result<
    (BlockHeaderView, u32),
    HeaderFault,
> {
    match parent(s, b, header) {
        Err(f) => Err(f),
        Ok(prev) => if prev.1 == u32::MAX {
            Err(HeaderFault::TooHigh)
        } else {
            Ok(prev)
        },
    }
}

/// Reads one more header.
pub open spec fn read_step(
    s: HeaderSources,
    b: BatchView,
    header: BlockHeaderView,
    pow_hash: Seq<u8>,
    now: u64,
) -> Result<BatchView, HeaderFault> {
    match placed(s, b, header) {
        Err(f) => Err(f),
        Ok(prev) => match header_fault(s, b, header, prev, pow_hash, now) {
            Some(f) => Err(f),
            None => Ok(with_read(s, b, header, prev)),
        },
    }
}

/// Reads the first `n` headers.
pub open spec fn read_headers(
    s: HeaderSources,
    b: BatchView,
    headers: Seq<BlockHeaderView>,
    pow_hashes: Seq<Seq<u8>>,
    now: u64,
    n: nat,
) -> HeaderRun
    decreases n,
{
    if n == 0 {
        HeaderRun { batch: b, fault: None }
    } else {
        let before = read_headers(s, b, headers, pow_hashes, now, (n - 1) as nat);
        if before.fault is Some {
            before
        } else {
            match read_step(s, before.batch, headers[n - 1], pow_hashes[n - 1], now) {
                Err(f) => HeaderRun { fault: Some(f), ..before },
                Ok(batch) => HeaderRun { batch, fault: None },
            }
        }
    }
}

/// Places the first `n` headers without checking them.
pub open spec fn place_headers(
    s: HeaderSources,
    b: BatchView,
    headers: Seq<BlockHeaderView>,
    n: nat,
) -> HeaderRun
    decreases n,
{
    if n == 0 {
        HeaderRun { batch: b, fault: None }
    } else {
        let before = place_headers(s, b, headers, (n - 1) as nat);
        if before.fault is Some {
            before
        } else {
            match placed(s, before.batch, headers[n - 1]) {
                Err(f) => HeaderRun { fault: Some(f), ..before },
                Ok(prev) => HeaderRun {
                    batch: with_read(s, before.batch, headers[n - 1], prev),
                    fault: None,
                },
            }
        }
    }
}

/// The heights at which headers are placed are those at which they are checked:
/// headers that pass their checks are where they were placed.
pub proof fn lemma_checked_where_placed(
    s: HeaderSources,
    b: BatchView,
    headers: Seq<BlockHeaderView>,
    pow_hashes: Seq<Seq<u8>>,
    now: u64,
    n: nat,
)
    requires
        read_headers(s, b, headers, pow_hashes, now, n).fault is None,
    ensures
        place_headers(s, b, headers, n) == read_headers(s, b, headers, pow_hashes, now, n),
    decreases n,
{
    if n > 0 {
        lemma_checked_where_placed(s, b, headers, pow_hashes, now, (n - 1) as nat);
    }
}

/// Only the hashes of headers that have a place are looked at: others may be anything.
pub proof fn lemma_hashes_without_place_are_not_read(
    s: HeaderSources,
    b: BatchView,
    headers: Seq<BlockHeaderView>,
    one: Seq<Seq<u8>>,
    two: Seq<Seq<u8>>,
    now: u64,
    n: nat,
)
    requires
        b.stored.len() == 0,
        n <= headers.len(),
        forall|i: int|
            0 <= i < place_headers(s, b, headers, n).batch.stored.len() ==> #[trigger] one[i]
                == two[i],
    ensures
        read_headers(s, b, headers, one, now, n) == read_headers(s, b, headers, two, now, n),
    decreases n,
{
    if n > 0 {
        let m = (n - 1) as nat;
        lemma_hashes_without_place_are_not_read(s, b, headers, one, two, now, m);
        let before = read_headers(s, b, headers, one, now, m);
        if before.fault is None {
            lemma_checked_where_placed(s, b, headers, one, now, m);
            lemma_read_headers(s, b, headers, one, now, m);
            if placed(s, before.batch, headers[m as int]) is Ok {
                assert(one[m as int] == two[m as int]);
            }
        }
    }
}

/// Headers that are taken build on each other or on headers that were there: each
/// follows its predecessor by one, and each meets the target that it states.
pub proof fn lemma_read_headers(
    s: HeaderSources,
    b: BatchView,
    headers: Seq<BlockHeaderView>,
    pow_hashes: Seq<Seq<u8>>,
    now: u64,
    n: nat,
)
    requires
        b.stored.len() == 0,
        read_headers(s, b, headers, pow_hashes, now, n).fault is None,
        n <= headers.len(),
    ensures
        ({
            let r = read_headers(s, b, headers, pow_hashes, now, n).batch;
            &&& r.stored.len() == n
            &&& forall|i: int|
                0 <= i < n ==> (#[trigger] r.stored[i]).0 == headers[i] && r.stored[i].1 > 0
                    && r.stored[i].1 <= u32::MAX && headers[i].meets_target(pow_hashes[i])
            &&& n > 0 ==> r.best_hash == headers[n - 1].hash() && r.best_height == r.stored[n
                - 1].1
            &&& forall|i: int|
                0 < i < n && headers[i].prev_block_hash == headers[i - 1].hash() ==> (
                #[trigger] r.stored[i]).1 == r.stored[i - 1].1 + 1
        }),
    decreases n,
{
    if n > 0 {
        let m = (n - 1) as nat;
        lemma_read_headers(s, b, headers, pow_hashes, now, m);
        let before = read_headers(s, b, headers, pow_hashes, now, m).batch;
        let r = read_headers(s, b, headers, pow_hashes, now, n).batch;
        if m > 0 {
            lemma_last_read(s, b, headers, pow_hashes, now, m);
        }
        assert forall|i: int| 0 <= i < n implies (#[trigger] r.stored[i]).0 == headers[i]
            && r.stored[i].1 > 0 && r.stored[i].1 <= u32::MAX && headers[i].meets_target(
            pow_hashes[i],
        ) by {
            if i < m {
                assert(before.stored[i] == r.stored[i]);
            }
        }
        assert forall|i: int|
            0 < i < n && headers[i].prev_block_hash == headers[i - 1].hash() implies (
        #[trigger] r.stored[i]).1 == r.stored[i - 1].1 + 1 by {
            if i < m {
                assert(before.stored[i] == r.stored[i]);
                assert(before.stored[i - 1] == r.stored[i - 1]);
            } else {
                assert(before.stored[i - 1] == r.stored[i - 1]);
            }
        }
    }
}

proof fn lemma_last_read(
    s: HeaderSources,
    b: BatchView,
    headers: Seq<BlockHeaderView>,
    pow_hashes: Seq<Seq<u8>>,
    now: u64,
    n: nat,
)
    requires
        n > 0,
        read_headers(s, b, headers, pow_hashes, now, n).fault is None,
    ensures
        ({
            let r = read_headers(s, b, headers, pow_hashes, now, n).batch;
            r.prev == Some((headers[n - 1], r.best_height))
        }),
{
}

/// A batch of headers while it is read.
pub struct HeaderBatch {
    pub best_height: u32,
    pub best_hash: Hash256,
    pub fork_start: Option<u32>,
    pub fresh: ByteMap<u32>,
    pub prev: Option<(BlockHeader, u32)>,
    pub window: Vec<BlockHeader>,
    pub stored: Vec<(BlockHeader, u64)>,
}

impl View for HeaderBatch {
    type V = BatchView;

    open spec fn view(&self) -> BatchView {
        BatchView {
            best_height: self.best_height,
            best_hash: self.best_hash@,
            fork_start: self.fork_start,
            fresh: self.fresh@,
            prev: match self.prev {
                Some((h, n)) => Some((h@, n)),
                None => None,
            },
            window: views(self.window@),
            stored: views(self.stored@),
        }
    }
}

/// What headers are held against.
pub struct Sources<'a> {
    pub chain: &'a ChainState,
    pub locator: &'a Vec<(Hash256, u64)>,
    pub by_height: &'a IdMap<Hash256>,
    pub known: &'a ByteMap<u32>,
}

impl<'a> View for Sources<'a> {
    type V = HeaderSources;

    open spec fn view(&self) -> HeaderSources {
        HeaderSources {
            chain: self.chain@,
            locator: views(self.locator@),
            by_height: self.by_height@,
            known: self.known@,
        }
    }
}

fn find_in_locator(locator: &Vec<(Hash256, u64)>, hash: &Hash256) -> (r: Option<u64>)
    ensures
        r == locator_height(views(locator@), hash@),
{
    let mut i: usize = 0;
    let ghost all = views(locator@);
    assert(all.skip(0) =~= all);
    while i < locator.len()
        invariant
            i <= locator@.len(),
            all == views(locator@),
            locator_height(all, hash@) == locator_height(all.skip(i as int), hash@),
        decreases locator@.len() - i,
    {
        let ghost rest = all.skip(i as int);
        assert(rest[0] == locator@[i as int]@);
        if bytes_equal(&locator[i].0, hash) {
            return Some(locator[i].1);
        }
        assert(rest.skip(1) =~= all.skip(i + 1));
        i += 1;
    }
    None
}

fn find_lowest(by_height: &IdMap<Hash256>, hash: &Hash256) -> (r: Option<u64>)
    ensures
        r == lowest_height(by_height@, hash@),
{
    let ids = by_height.ids();
    let mut i: usize = 0;
    while i < ids.len()
        invariant
            i <= ids@.len(),
            crate::collections::id_map::rising(ids@),
            forall|id: u64|
                #![trigger by_height@.contains_key(id)]
                by_height@.contains_key(id) <==> ids@.contains(id),
            forall|j: int| 0 <= j < i ==> by_height@[#[trigger] ids@[j]] != hash@,
        decreases ids@.len() - i,
    {
        let id: u64 = ids[i];
        assert(ids@.contains(id));
        match by_height.get(id) {
            Some(h) => {
                if bytes_equal(h, hash) {
                    proof {
                        assert forall|k: u64| k < id && by_height@.contains_key(k) implies
                            #[trigger] by_height@[k] != hash@ by {
                            assert(ids@.contains(k));
                            let j = choose|j: int| 0 <= j < ids@.len() && ids@[j] == k;
                            if j > i {
                                assert(ids@[i as int] < ids@[j]);
                            }
                            assert(by_height@[ids@[j]] != hash@);
                        }
                        assert(is_lowest(by_height@, hash@, id));
                        let c = choose|h: u64| is_lowest(by_height@, hash@, h);
                        assert(by_height@[c] == hash@ && by_height@[id] == hash@);
                    }
                    return Some(id);
                }
            },
            None => {},
        }
        i += 1;
    }
    proof {
        if exists|h: u64| is_lowest(by_height@, hash@, h) {
            let h = choose|h: u64| is_lowest(by_height@, hash@, h);
            assert(by_height@.contains_key(h));
            assert(ids@.contains(h));
            let j = choose|j: int| 0 <= j < ids@.len() && ids@[j] == h;
            assert(by_height@[ids@[j]] != hash@);
        }
    }
    None
}

impl<'a> Sources<'a> {
    fn height_of_stored(&self, hash: &Hash256) -> (r: Option<u64>)
        ensures
            r == stored_height(self@, hash@),
    {
        match self.chain.get_height_for_hash(hash) {
            Some(h) => Some(h),
            None => match find_in_locator(self.locator, hash) {
                Some(h) => Some(h),
                None => find_lowest(self.by_height, hash),
            },
        }
    }

    fn find_parent(&self, b: &HeaderBatch, header: &BlockHeader) -> (r: Result<
        (BlockHeader, u32),
        HeaderFault,
    >)
        ensures
            match r {
                Ok(p) => parent(self@, b@, header@) == Ok::<(BlockHeaderView, u32), HeaderFault>(
                    (p.0@, p.1),
                ),
                Err(f) => parent(self@, b@, header@) == Err::<(BlockHeaderView, u32), HeaderFault>(
                    f,
                ),
            },
    {
        let hash = header.prev_block_hash;
        let follows: bool = bytes_equal(&hash, &b.best_hash);
        if let Some(prev) = b.prev {
            if follows {
                return Ok(prev);
            }
            let height = match b.fresh.get(&hash) {
                Some(height) => Some(height),
                None => self.known.get(&hash),
            };
            if let Some(height) = height {
                return match self.chain.block_store.get_header(&hash) {
                    Ok(Some(h)) => Ok((h, *height)),
                    Ok(None) => Err(HeaderFault::SeenNotStored),
                    Err(_) => Err(HeaderFault::StoreError),
                };
            }
            return match self.chain.get_height_for_hash(&hash) {
                Some(height) => match self.chain.get_block(&hash) {
                    Some(block) => Ok((block.header, height as u32)),
                    None => Err(HeaderFault::UnknownParent),
                },
                None => Err(HeaderFault::UnknownParent),
            };
        }
        match self.chain.block_store.get_header(&hash) {
            Err(_) => Err(HeaderFault::StoreError),
            Ok(Some(h)) => {
                if follows {
                    Ok((h, b.best_height))
                } else {
                    match self.height_of_stored(&hash) {
                        Some(n) => Ok((h, n as u32)),
                        None => Err(HeaderFault::NoHeight),
                    }
                }
            },
            Ok(None) => {
                if !follows {
                    Err(HeaderFault::HeadersNeeded)
                } else {
                    let zeros: [u8; 32] = [0u8; 32];
                    assert(zeros@ =~= zero_hash());
                    if bytes_equal(&hash, &zeros) {
                        Err(HeaderFault::GenesisHeader)
                    } else {
                        Err(HeaderFault::BestHeaderMissing)
                    }
                }
            },
        }
    }

    fn place(&self, b: &HeaderBatch, header: &BlockHeader) -> (r: Result<
        (BlockHeader, u32),
        HeaderFault,
    >)
        ensures
            match r {
                Ok(p) => placed(self@, b@, header@) == Ok::<(BlockHeaderView, u32), HeaderFault>(
                    (p.0@, p.1),
                ) && p.1 < u32::MAX,
                Err(f) => placed(self@, b@, header@) == Err::<(BlockHeaderView, u32), HeaderFault>(
                    f,
                ),
            },
    {
        match self.find_parent(b, header) {
            Ok(p) => if p.1 == u32::MAX {
                Err(HeaderFault::TooHigh)
            } else {
                Ok(p)
            },
            Err(f) => Err(f),
        }
    }

    /// Fills the window of a batch that has none.
    fn open_window(&self, b: &mut HeaderBatch, prev: &(BlockHeader, u32))
        ensures
            final(b)@ == (BatchView {
                window: time_window(self@, old(b)@, (prev.0@, prev.1)),
                ..old(b)@
            }),
    {
        if b.window.len() > 0 {
            assert(b@.window.len() > 0);
            return;
        }
        let mut window: Vec<BlockHeader> = Vec::new();
        window.push(prev.0);
        let mut height: u32 = if prev.1 == 0 {
            0
        } else {
            prev.1 - 1
        };
        let mut left: usize = MEDIAN_WINDOW - 1;
        let mut more: bool = true;
        let ghost whole = time_window(self@, b@, (prev.0@, prev.1));
        assert(views(window@) =~= seq![prev.0@]);
        while more && left > 0
            invariant
                left < MEDIAN_WINDOW,
                more ==> whole == views(window@) + headers_down(self@.chain, height, left as nat),
                !more ==> whole == views(window@),
            decreases left,
        {
            let ghost before = window@;
            match self.chain.block_store.get_header_by_height(height as u64) {
                Ok(Some(h)) => {
                    window.push(h);
                    assert(views(window@) =~= views(before).push(h@));
                    proof {
                        let rest = headers_down(
                            self@.chain,
                            (height - 1) as u32,
                            (left - 1) as nat,
                        );
                        assert(views(before) + (seq![h@] + rest) =~= views(window@) + rest);
                        assert(views(before) + seq![h@] =~= views(window@));
                    }
                    if height == 0 {
                        more = false;
                    } else {
                        height -= 1;
                    }
                },
                _ => {
                    assert(views(before) + Seq::<BlockHeaderView>::empty() =~= views(before));
                    more = false;
                },
            }
            left -= 1;
        }
        assert(views(window@) + Seq::<BlockHeaderView>::empty() =~= views(window@));
        b.window = window;
    }

    /// Checks a header. The window of the batch is open.
    fn check(
        &self,
        b: &HeaderBatch,
        header: &BlockHeader,
        prev: &(BlockHeader, u32),
        pow_hash: &Hash256,
        now: u64,
    ) -> (r: Result<(), HeaderFault>)
        requires
            self.chain.params.valid(),
            b@.window.len() > 0,
        ensures
            match r {
                Ok(_) => header_fault(
                    self@,
                    b@,
                    header@,
                    (prev.0@, prev.1),
                    pow_hash@,
                    now,
                ) is None,
                Err(f) => header_fault(self@, b@, header@, (prev.0@, prev.1), pow_hash@, now)
                    == Some(f),
            },
    {
        match header.check_proof_of_work(pow_hash) {
            Err(_) => return Err(HeaderFault::PowError),
            Ok(met) => {
                if !met {
                    return Err(HeaderFault::InvalidPow);
                }
            },
        }
        match validate_difficulty(Some(&prev.0), header, &self.chain.params) {
            Err(e) => return Err(HeaderFault::Difficulty(e)),
            Ok(()) => {},
        }
        match validate_timestamp_at(header, b.window.as_slice(), now) {
            Err(e) => Err(HeaderFault::Timestamp(e)),
            Ok(()) => Ok(()),
        }
    }

    /// Takes a header into a batch. The window of the batch is open.
    fn take(&self, b: &mut HeaderBatch, header: &BlockHeader, prev: &(BlockHeader, u32))
        requires
            prev.1 < u32::MAX,
            old(b)@.window.len() > 0,
        ensures
            final(b)@ == with_read(self@, old(b)@, header@, (prev.0@, prev.1)),
    {
        let ghost before = *b;
        let height: u32 = prev.1 + 1;
        let hash = header.hash();
        b.stored.push((*header, height as u64));
        assert(views(b.stored@) =~= before@.stored.push((header@, height as u64)));
        let _ = b.fresh.insert(vstd::slice::slice_to_vec(&hash), height);
        if b.fork_start.is_none() && height <= self.chain.get_height() as u32 {
            match self.chain.block_store.get_block_by_height(height as u64) {
                Ok(Some(block)) => {
                    if !bytes_equal(&block.header.hash(), &hash) {
                        b.fork_start = Some(height);
                    }
                },
                _ => {
                    b.fork_start = Some(height);
                },
            }
        }
        b.best_height = height;
        b.best_hash = hash;
        b.window.insert(0, *header);
        let ghost whole = views(b.window@);
        assert(whole =~= seq![header@] + before@.window);
        if b.window.len() > MEDIAN_WINDOW {
            let _ = b.window.pop();
            assert(views(b.window@) =~= whole.drop_last());
        }
        b.prev = Some((*header, height));
        assert(b@ =~= with_read(self@, before@, header@, (prev.0@, prev.1)));
    }

    /// Reads one more header into a batch.
    fn read_one(
        &self,
        b: &mut HeaderBatch,
        header: &BlockHeader,
        pow_hash: &Hash256,
        now: u64,
    ) -> (r: Result<(), HeaderFault>)
        requires
            self.chain.params.valid(),
        ensures
            match r {
                Ok(_) => read_step(self@, old(b)@, header@, pow_hash@, now) == Ok::<
                    BatchView,
                    HeaderFault,
                >(final(b)@),
                Err(f) => read_step(self@, old(b)@, header@, pow_hash@, now) == Err::<
                    BatchView,
                    HeaderFault,
                >(f) && final(b)@.fresh == old(b)@.fresh,
            },
    {
        let ghost before = b@;
        match self.place(b, header) {
            Err(f) => Err(f),
            Ok(prev) => {
                self.open_window(b, &prev);
                match self.check(b, header, &prev, pow_hash, now) {
                    Err(f) => Err(f),
                    Ok(()) => {
                        self.take(b, header, &prev);
                        assert(b@ =~= with_read(self@, before, header@, (prev.0@, prev.1)));
                        Ok(())
                    },
                }
            },
        }
    }

    /// Reads headers into a batch, up to the first one that is not taken.
    pub fn read(
        &self,
        b: &mut HeaderBatch,
        headers: &Vec<BlockHeader>,
        pow_hashes: &Vec<Hash256>,
        now: u64,
    ) -> (r: Result<(), HeaderFault>)
        requires
            self.chain.params.valid(),
            headers@.len() == pow_hashes@.len(),
        ensures
            ({
                let run = read_headers(
                    self@,
                    old(b)@,
                    views(headers@),
                    views(pow_hashes@),
                    now,
                    headers@.len(),
                );
                match r {
                    Ok(_) => run.fault is None && final(b)@ == run.batch,
                    Err(f) => run.fault == Some(f) && final(b)@.fresh == run.batch.fresh,
                }
            }),
    {
        let ghost start = b@;
        let ghost hs = views(headers@);
        let ghost ps = views(pow_hashes@);
        let mut i: usize = 0;
        while i < headers.len()
            invariant
                i <= headers@.len(),
                headers@.len() == pow_hashes@.len(),
                self.chain.params.valid(),
                hs == views(headers@),
                ps == views(pow_hashes@),
                start == old(b)@,
                read_headers(self@, start, hs, ps, now, i as nat).fault is None,
                b@ == read_headers(self@, start, hs, ps, now, i as nat).batch,
            decreases headers@.len() - i,
        {
            let header = headers[i];
            assert(hs[i as int] == header@);
            assert(ps[i as int] == pow_hashes@[i as int]@);
            match self.read_one(b, &header, &pow_hashes[i], now) {
                Err(f) => {
                    proof {
                        lemma_fault_stays(self@, start, hs, ps, now, i as nat + 1, headers@.len());
                    }
                    return Err(f);
                },
                Ok(()) => {},
            }
            i += 1;
        }
        Ok(())
    }

    /// The heights at which headers stand, up to the first one whose place is not
    /// known.
    pub fn heights(&self, b: &mut HeaderBatch, headers: &Vec<BlockHeader>) -> (r: Vec<u64>)
        requires
            old(b)@.stored.len() == 0,
        ensures
            ({
                let stored = place_headers(
                    self@,
                    old(b)@,
                    views(headers@),
                    headers@.len(),
                ).batch.stored;
                r@ == Seq::new(stored.len(), |i: int| stored[i].1)
            }),
    {
        let ghost start = b@;
        let ghost hs = views(headers@);
        let mut i: usize = 0;
        let mut more: bool = true;
        while more && i < headers.len()
            invariant
                i <= headers@.len(),
                hs == views(headers@),
                more ==> place_headers(self@, start, hs, i as nat).fault is None,
                !more ==> place_headers(self@, start, hs, i as nat).fault is Some,
                b@ == place_headers(self@, start, hs, i as nat).batch,
            decreases headers@.len() - i,
        {
            let ghost before = b@;
            let header = headers[i];
            assert(hs[i as int] == header@);
            match self.place(b, &header) {
                Err(_) => {
                    more = false;
                },
                Ok(prev) => {
                    self.open_window(b, &prev);
                    self.take(b, &header, &prev);
                    assert(b@ =~= with_read(self@, before, header@, (prev.0@, prev.1)));
                },
            }
            i += 1;
        }
        proof {
            if !more {
                lemma_placing_stays(self@, start, hs, i as nat, headers@.len());
            }
        }
        let mut out: Vec<u64> = Vec::new();
        let mut n: usize = 0;
        while n < b.stored.len()
            invariant
                n <= b.stored@.len(),
                out.len() == n,
                forall|j: int| 0 <= j < n ==> out@[j] == b@.stored[j].1,
            decreases b.stored@.len() - n,
        {
            out.push(b.stored[n].1);
            n += 1;
        }
        assert(out@ =~= Seq::new(b@.stored.len(), |i: int| b@.stored[i].1));
        out
    }
}

proof fn lemma_fault_stays(
    s: HeaderSources,
    b: BatchView,
    headers: Seq<BlockHeaderView>,
    pow_hashes: Seq<Seq<u8>>,
    now: u64,
    m: nat,
    n: nat,
)
    requires
        m <= n,
        read_headers(s, b, headers, pow_hashes, now, m).fault is Some,
    ensures
        read_headers(s, b, headers, pow_hashes, now, n) == read_headers(
            s,
            b,
            headers,
            pow_hashes,
            now,
            m,
        ),
    decreases n,
{
    if m < n {
        lemma_fault_stays(s, b, headers, pow_hashes, now, m, (n - 1) as nat);
    }
}

proof fn lemma_placing_stays(
    s: HeaderSources,
    b: BatchView,
    headers: Seq<BlockHeaderView>,
    m: nat,
    n: nat,
)
    requires
        m <= n,
        place_headers(s, b, headers, m).fault is Some,
    ensures
        place_headers(s, b, headers, n) == place_headers(s, b, headers, m),
    decreases n,
{
    if m < n {
        lemma_placing_stays(s, b, headers, m, (n - 1) as nat);
    }
}

} // verus!
