//! Remembers addresses of peers.

use crate::network::address::{mapped_octets, SocketAddr, SocketAddrView};
use crate::network::protocol::{NetworkAddr, NetworkAddrView};
use crate::primitives::clock::{clock_showed, read_clock};
use crate::primitives::serialize::views;
use rand::seq::SliceRandom;
use vstd::prelude::*;

verus! {

/// Seconds of a day.
pub const SECONDS_PER_DAY: u32 = 86_400;

/// Attempts after which an address without success is given up.
pub const MAX_ATTEMPTS: u32 = 3;

/// What is known of an address.
#[derive(Debug, Clone, Copy)]
pub struct PeerAddressInfo {
    pub addr: SocketAddr,
    pub services: u64,
    pub timestamp: u32,
    pub last_tried: Option<u32>,
    pub last_success: Option<u32>,
    pub attempts: u32,
}

/// What the knowledge of an address stands for.
#[verifier::ext_equal]
pub struct AddressView {
    pub addr: SocketAddrView,
    pub services: u64,
    pub timestamp: u32,
    pub last_tried: Option<u32>,
    pub last_success: Option<u32>,
    pub attempts: u32,
}

impl View for PeerAddressInfo {
    type V = AddressView;

    open spec fn view(&self) -> AddressView {
        AddressView {
            addr: self.addr@,
            services: self.services,
            timestamp: self.timestamp,
            last_tried: self.last_tried,
            last_success: self.last_success,
            attempts: self.attempts,
        }
    }
}

/// Where an address is, or the end.
pub open spec fn position(list: Seq<AddressView>, addr: SocketAddrView) -> int
    decreases list.len(),
{
    if list.len() == 0 || list[0].addr == addr {
        0
    } else {
        1 + position(list.skip(1), addr)
    }
}

/// No address is there twice.
pub open spec fn distinct(list: Seq<AddressView>) -> bool {
    forall|i: int, j: int|
        0 <= i < list.len() && 0 <= j < list.len() && i != j ==> #[trigger] list[i].addr
            != #[trigger] list[j].addr
}

/// The addresses after one was heard of. A new one is left out where there are as
/// many as there may be; of one that is there, later news replaces earlier.
pub open spec fn heard_of(
    list: Seq<AddressView>,
    max: usize,
    addr: SocketAddrView,
    services: u64,
    timestamp: u32,
) -> Seq<AddressView> {
    let at = position(list, addr);
    if at < list.len() {
        if timestamp > list[at].timestamp {
            list.update(at, AddressView { timestamp, services, ..list[at] })
        } else {
            list
        }
    } else if list.len() >= max {
        list
    } else {
        list.push(
            AddressView {
                addr,
                services,
                timestamp,
                last_tried: None,
                last_success: None,
                attempts: 0,
            },
        )
    }
}

/// The addresses after a connection to one was tried.
pub open spec fn tried(list: Seq<AddressView>, addr: SocketAddrView, now: u32) -> Seq<AddressView> {
    let at = position(list, addr);
    if at < list.len() {
        list.update(
            at,
            AddressView {
                last_tried: Some(now),
                attempts: if list[at].attempts == u32::MAX {
                    u32::MAX
                } else {
                    (list[at].attempts + 1) as u32
                },
                ..list[at]
            },
        )
    } else {
        list
    }
}

/// The addresses after a connection to one was made.
pub open spec fn reached(list: Seq<AddressView>, addr: SocketAddrView, now: u32) -> Seq<
    AddressView,
> {
    let at = position(list, addr);
    if at < list.len() {
        list.update(at, AddressView { last_success: Some(now), attempts: 0, ..list[at] })
    } else {
        list
    }
}

/// How old a time is.
pub open spec fn age(time: u32, now: u32) -> int {
    if now >= time {
        now - time
    } else {
        0
    }
}

/// Whether an address was heard of or reached within an age.
pub open spec fn is_fresh(info: AddressView, max_age: int, now: u32) -> bool {
    age(info.timestamp, now) < max_age || (match info.last_success {
        Some(t) => age(t, now) < max_age,
        None => u32::MAX < max_age,
    })
}

/// The addresses that are fresh.
pub open spec fn fresh(list: Seq<AddressView>, max_age: int, now: u32) -> Seq<AddressView>
    decreases list.len(),
{
    if list.len() == 0 {
        list
    } else if is_fresh(list.last(), max_age, now) {
        fresh(list.drop_last(), max_age, now).push(list.last())
    } else {
        fresh(list.drop_last(), max_age, now)
    }
}

/// The later an address was reached, and the fewer attempts since, the better.
pub open spec fn score(info: AddressView) -> int {
    (match info.last_success {
        Some(t) => t as int,
        None => 0,
    }) - info.attempts
}

/// Puts an address behind the last one that is as good.
pub open spec fn place_by_score(s: Seq<AddressView>, info: AddressView) -> Seq<AddressView>
    decreases s.len(),
{
    if s.len() == 0 || score(s.last()) >= score(info) {
        s.push(info)
    } else {
        place_by_score(s.drop_last(), info).push(s.last())
    }
}

/// The addresses that were reached, the best first.
pub open spec fn by_score(list: Seq<AddressView>) -> Seq<AddressView>
    decreases list.len(),
{
    if list.len() == 0 {
        list
    } else if list.last().last_success is Some {
        place_by_score(by_score(list.drop_last()), list.last())
    } else {
        by_score(list.drop_last())
    }
}

/// Whether a connection to an address is worth trying.
pub open spec fn worth_trying(info: AddressView) -> bool {
    info.attempts < MAX_ATTEMPTS || info.last_success is Some
}

/// The addresses that are worth trying.
pub open spec fn candidates(list: Seq<AddressView>) -> Seq<SocketAddrView>
    decreases list.len(),
{
    if list.len() == 0 {
        Seq::empty()
    } else if worth_trying(list.last()) {
        candidates(list.drop_last()).push(list.last().addr)
    } else {
        candidates(list.drop_last())
    }
}

/// Up to `n` elements.
pub open spec fn up_to<A>(s: Seq<A>, n: nat) -> Seq<A> {
    if s.len() <= n {
        s
    } else {
        s.take(n as int)
    }
}

/// The addresses of a list.
pub open spec fn addrs_of(list: Seq<AddressView>) -> Seq<SocketAddrView> {
    Seq::new(list.len(), |i: int| list[i].addr)
}

/// What is told of an address.
pub open spec fn told(info: AddressView) -> NetworkAddrView {
    NetworkAddrView {
        timestamp: info.timestamp,
        services: info.services,
        ip: mapped_octets(info.addr.ip),
        port: info.addr.port,
    }
}

proof fn lemma_position(list: Seq<AddressView>, addr: SocketAddrView)
    ensures
        0 <= position(list, addr) <= list.len(),
        position(list, addr) < list.len() ==> list[position(list, addr)].addr == addr,
        forall|i: int| 0 <= i < position(list, addr) ==> (#[trigger] list[i]).addr != addr,
    decreases list.len(),
{
    if list.len() > 0 && list[0].addr != addr {
        let rest = list.skip(1);
        lemma_position(rest, addr);
        assert forall|i: int| 0 <= i < position(list, addr) implies (#[trigger] list[i]).addr
            != addr by {
            if i > 0 {
                assert(rest[i - 1] == list[i]);
            }
        }
    }
}

/// Whatever is heard of or tried, no address is there twice and there are not more
/// than there may be.
pub proof fn lemma_stays_distinct(
    list: Seq<AddressView>,
    max: usize,
    addr: SocketAddrView,
    services: u64,
    timestamp: u32,
    now: u32,
)
    requires
        distinct(list),
        list.len() <= max,
    ensures
        distinct(heard_of(list, max, addr, services, timestamp)),
        heard_of(list, max, addr, services, timestamp).len() <= max,
        distinct(tried(list, addr, now)),
        distinct(reached(list, addr, now)),
{
    lemma_position(list, addr);
}

/// `rand::seq::SliceRandom::shuffle` with `rand::thread_rng`: the numbers in some
/// order. Which order it is depends on chance.
#[verifier::external_body]
fn shuffle(numbers: Vec<usize>) -> (r: Vec<usize>)
    ensures
        r@.to_multiset() == numbers@.to_multiset(),
{
    let mut numbers = numbers;
    numbers.shuffle(&mut rand::thread_rng());
    numbers
}

/// Whether an order is one that the numbers below `n` were shuffled into.
pub closed spec fn shuffled(order: Seq<usize>, n: nat) -> bool {
    exists|given: Vec<usize>, r: Vec<usize>| #[trigger]
        call_ensures(shuffle, (given,), r) && given@ == counting(n) && r@ == order
}

fn deal<F: Fn(Vec<usize>) -> Vec<usize>>(dealer: F, numbers: Vec<usize>) -> (r: Vec<usize>)
    requires
        call_requires(dealer, (numbers,)),
    ensures
        call_ensures(dealer, (numbers,), r),
{
    dealer(numbers)
}

/// Remembers addresses.
pub struct AddressManager {
    addresses: Vec<PeerAddressInfo>,
    max_addresses: usize,
}

/// Whether a time is what the clock of the machine showed, in the 32 bits that messages have for
/// it.
pub open spec fn is_current(t: u32) -> bool {
    exists|now: u64| #[trigger] clock_showed(now) && t == #[verifier::truncate] (now as u32)
}

fn current_time() -> (t: u32)
    ensures
        is_current(t),
{
    let now: u64 = read_clock();
    #[verifier::truncate]
    (now as u32)
}

impl AddressManager {
    /// The addresses, in the order in which they were heard of.
    pub closed spec fn list(self) -> Seq<AddressView> {
        views(self.addresses@)
    }

    /// How many addresses there may be.
    pub closed spec fn max(self) -> usize {
        self.max_addresses
    }

    /// No address is there twice, and there are not more than there may be.
    pub open spec fn valid(self) -> bool {
        distinct(self.list()) && self.list().len() <= self.max()
    }

    pub fn new(max_addresses: usize) -> (r: Self)
        ensures
            r.list() == Seq::<AddressView>::empty(),
            r.max() == max_addresses,
            r.valid(),
    {
        let r = AddressManager { addresses: Vec::new(), max_addresses };
        assert(r.list() =~= Seq::<AddressView>::empty());
        r
    }

    fn find(&self, addr: &SocketAddr) -> (at: usize)
        ensures
            at == position(self.list(), addr@),
    {
        let ghost all = self.list();
        let mut i: usize = 0;
        assert(all.skip(0) =~= all);
        while i < self.addresses.len()
            invariant
                i <= self.addresses@.len(),
                all == self.list(),
                position(all, addr@) == i + position(all.skip(i as int), addr@),
            decreases self.addresses@.len() - i,
        {
            assert(all.skip(i as int)[0] == self.addresses@[i as int]@);
            if self.addresses[i].addr == *addr {
                return i;
            }
            assert(all.skip(i as int).skip(1) =~= all.skip(i + 1));
            i += 1;
        }
        i
    }

    // Add peer address
    pub fn add_address(&mut self, addr: SocketAddr, services: u64, timestamp: u32)
        ensures
            final(self).list() == heard_of(
                old(self).list(),
                old(self).max(),
                addr@,
                services,
                timestamp,
            ),
            final(self).max() == old(self).max(),
            old(self).valid() ==> final(self).valid(),
    {
        let ghost before = self.list();
        proof {
            if self.valid() {
                lemma_stays_distinct(before, self.max(), addr@, services, timestamp, 0);
            }
        }
        let at: usize = self.find(&addr);
        if at < self.addresses.len() {
            let mut info = self.addresses[at];
            assert(before[at as int] == info@);
            if timestamp > info.timestamp {
                info.timestamp = timestamp;
                info.services = services;
                self.addresses.set(at, info);
                assert(self.list() =~= before.update(at as int, info@));
            }
        } else if self.addresses.len() < self.max_addresses {
            let info = PeerAddressInfo {
                addr,
                services,
                timestamp,
                last_tried: None,
                last_success: None,
                attempts: 0,
            };
            self.addresses.push(info);
            assert(self.list() =~= before.push(info@));
        }
    }

    // Get addresses with best success rate
    pub fn get_best_addresses(&self, count: usize) -> (r: Vec<SocketAddr>)
        ensures
            views(r@) == up_to(addrs_of(by_score(self.list())), count as nat),
    {
        let ghost all = self.list();
        let mut sorted: Vec<PeerAddressInfo> = Vec::new();
        let mut n: usize = 0;
        assert(views(sorted@) =~= by_score(all.take(0)));
        while n < self.addresses.len()
            invariant
                n <= self.addresses@.len(),
                all == self.list(),
                views(sorted@) == by_score(all.take(n as int)),
            decreases self.addresses@.len() - n,
        {
            let info = self.addresses[n];
            proof {
                let part = all.take(n + 1);
                assert(part.last() == info@);
                assert(part.drop_last() =~= all.take(n as int));
            }
            if info.last_success.is_some() {
                insert_by_score(&mut sorted, info);
            }
            n += 1;
        }
        assert(all.take(n as int) =~= all);
        let mut out: Vec<SocketAddr> = Vec::new();
        let mut i: usize = 0;
        while i < sorted.len() && i < count
            invariant
                i <= sorted@.len(),
                i <= count,
                out@.len() == i,
                forall|j: int| 0 <= j < i ==> (#[trigger] out@[j])@ == views(sorted@)[j].addr,
            decreases sorted@.len() - i,
        {
            out.push(sorted[i].addr);
            i += 1;
        }
        assert(views(out@) =~= up_to(addrs_of(views(sorted@)), count as nat));
        out
    }

    pub fn clear(&mut self)
        ensures
            final(self).list() == Seq::<AddressView>::empty(),
            final(self).max() == old(self).max(),
            final(self).valid(),
    {
        self.addresses = Vec::new();
        assert(self.list() =~= Seq::<AddressView>::empty());
    }

    /// The addresses that are worth trying.
    pub fn collect_candidates(&self) -> (r: Vec<SocketAddr>)
        ensures
            views(r@) == candidates(self.list()),
    {
        let ghost all = self.list();
        let mut out: Vec<SocketAddr> = Vec::new();
        let mut n: usize = 0;
        assert(views(out@) =~= candidates(all.take(0)));
        while n < self.addresses.len()
            invariant
                n <= self.addresses@.len(),
                all == self.list(),
                views(out@) == candidates(all.take(n as int)),
            decreases self.addresses@.len() - n,
        {
            let info = self.addresses[n];
            let ghost before = out@;
            proof {
                let part = all.take(n + 1);
                assert(part.last() == info@);
                assert(part.drop_last() =~= all.take(n as int));
            }
            // Skip addresses with too many failures
            if info.attempts < MAX_ATTEMPTS || info.last_success.is_some() {
                out.push(info.addr);
                assert(views(out@) =~= views(before).push(info.addr@));
            }
            n += 1;
        }
        assert(all.take(n as int) =~= all);
        out
    }

    // Get random addresses for connecting
    pub fn get_random_addresses(&self, count: usize) -> (r: Vec<SocketAddr>)
        ensures
            exists|order: Seq<usize>|
                {
                    &&& shuffled(order, candidates(self.list()).len())
                    &&& is_order(order, candidates(self.list()).len())
                    &&& views(r@) == up_to(
                        #[trigger] arranged(candidates(self.list()), order),
                        count as nat,
                    )
                },
    {
        let found = self.collect_candidates();
        let mut numbers: Vec<usize> = Vec::new();
        let mut i: usize = 0;
        while i < found.len()
            invariant
                i <= found@.len(),
                numbers@ == counting(i as nat),
            decreases found@.len() - i,
        {
            numbers.push(i);
            assert(numbers@ =~= counting(i as nat + 1));
            i += 1;
        }
        let order = deal(shuffle, numbers);
        assert(shuffled(order@, found@.len()));
        assert(is_order(order@, found@.len()));
        pick(&found, &order, count)
    }

    /// Mark address as tried at a time.
    pub fn mark_tried_at(&mut self, addr: &SocketAddr, now: u32)
        ensures
            final(self).list() == tried(old(self).list(), addr@, now),
            final(self).max() == old(self).max(),
            old(self).valid() ==> final(self).valid(),
    {
        let ghost before = self.list();
        proof {
            if self.valid() {
                lemma_stays_distinct(before, self.max(), addr@, 0, 0, now);
            }
        }
        let at: usize = self.find(addr);
        if at < self.addresses.len() {
            let mut info = self.addresses[at];
            assert(before[at as int] == info@);
            info.last_tried = Some(now);
            info.attempts = info.attempts.saturating_add(1);
            self.addresses.set(at, info);
            assert(self.list() =~= before.update(at as int, info@));
        }
    }

    // Mark address as tried
    pub fn mark_tried(&mut self, addr: &SocketAddr)
        ensures
            exists|now: u32|
                is_current(now) && final(self).list() == #[trigger] tried(
                    old(self).list(),
                    addr@,
                    now,
                ),
            final(self).max() == old(self).max(),
            old(self).valid() ==> final(self).valid(),
    {
        let now: u32 = current_time();
        self.mark_tried_at(addr, now);
    }

    /// Mark connection success at a time.
    pub fn mark_success_at(&mut self, addr: &SocketAddr, now: u32)
        ensures
            final(self).list() == reached(old(self).list(), addr@, now),
            final(self).max() == old(self).max(),
            old(self).valid() ==> final(self).valid(),
    {
        let ghost before = self.list();
        proof {
            if self.valid() {
                lemma_stays_distinct(before, self.max(), addr@, 0, 0, now);
            }
        }
        let at: usize = self.find(addr);
        if at < self.addresses.len() {
            let mut info = self.addresses[at];
            assert(before[at as int] == info@);
            info.last_success = Some(now);
            info.attempts = 0;  // Reset attempts on success
            self.addresses.set(at, info);
            assert(self.list() =~= before.update(at as int, info@));
        }
    }

    // Mark connection success
    pub fn mark_success(&mut self, addr: &SocketAddr)
        ensures
            exists|now: u32|
                is_current(now) && final(self).list() == #[trigger] reached(
                    old(self).list(),
                    addr@,
                    now,
                ),
            final(self).max() == old(self).max(),
            old(self).valid() ==> final(self).valid(),
    {
        let now: u32 = current_time();
        self.mark_success_at(addr, now);
    }

    /// Mark connection failed. The attempt was counted when it was made.
    pub fn mark_failed(&mut self, _addr: &SocketAddr)
        ensures
            *final(self) == *old(self),
    {
    }

    // Get all addresses
    pub fn get_all_addresses(&self) -> (r: Vec<NetworkAddr>)
        ensures
            r@.len() == self.list().len(),
            forall|i: int| 0 <= i < r@.len() ==> (#[trigger] r@[i])@ == told(self.list()[i]),
    {
        let mut out: Vec<NetworkAddr> = Vec::new();
        let mut i: usize = 0;
        while i < self.addresses.len()
            invariant
                i <= self.addresses@.len(),
                out@.len() == i,
                forall|j: int| 0 <= j < i ==> (#[trigger] out@[j])@ == told(self.list()[j]),
            decreases self.addresses@.len() - i,
        {
            let info = self.addresses[i];
            out.push(
                NetworkAddr {
                    timestamp: info.timestamp,
                    services: info.services,
                    ip: info.addr.ip.octets16(),
                    port: info.addr.port,
                },
            );
            i += 1;
        }
        out
    }

    // Get address count
    pub fn size(&self) -> (n: usize)
        ensures
            n == self.list().len(),
    {
        self.addresses.len()
    }

    /// Remove old addresses, at a time.
    pub fn cleanup_old_at(&mut self, max_age_days: u32, now: u32)
        requires
            max_age_days * SECONDS_PER_DAY <= u32::MAX,
        ensures
            final(self).list() == fresh(
                old(self).list(),
                max_age_days * SECONDS_PER_DAY,
                now,
            ),
            final(self).max() == old(self).max(),
    {
        let max_age: u32 = max_age_days * SECONDS_PER_DAY;
        let ghost all = self.list();
        let mut left: Vec<PeerAddressInfo> = Vec::new();
        let mut n: usize = 0;
        assert(views(left@) =~= fresh(all.take(0), max_age as int, now));
        while n < self.addresses.len()
            invariant
                n <= self.addresses@.len(),
                all == self.list(),
                views(left@) == fresh(all.take(n as int), max_age as int, now),
            decreases self.addresses@.len() - n,
        {
            let info = self.addresses[n];
            let ghost before = left@;
            proof {
                let part = all.take(n + 1);
                assert(part.last() == info@);
                assert(part.drop_last() =~= all.take(n as int));
            }
            // Keep if timestamp is recent enough OR we had success recently
            let heard: u32 = now.saturating_sub(info.timestamp);
            let reached_age: u32 = match info.last_success {
                Some(t) => now.saturating_sub(t),
                None => u32::MAX,
            };
            if heard < max_age || reached_age < max_age {
                left.push(info);
                assert(views(left@) =~= views(before).push(info@));
            }
            n += 1;
        }
        assert(all.take(n as int) =~= all);
        self.addresses = left;
    }

    // Remove old addresses
    pub fn cleanup_old(&mut self, max_age_days: u32)
        requires
            max_age_days * SECONDS_PER_DAY <= u32::MAX,
        ensures
            exists|now: u32|
                is_current(now) && final(self).list() == #[trigger] fresh(
                    old(self).list(),
                    max_age_days * SECONDS_PER_DAY,
                    now,
                ),
            final(self).max() == old(self).max(),
    {
        let now: u32 = current_time();
        self.cleanup_old_at(max_age_days, now);
    }
}

/// The numbers from zero on.
pub open spec fn counting(n: nat) -> Seq<usize> {
    Seq::new(n, |i: int| i as usize)
}

/// Whether a sequence holds the numbers below `n`, each once.
pub open spec fn is_order(order: Seq<usize>, n: nat) -> bool {
    order.to_multiset() == counting(n).to_multiset()
}

/// A sequence in another order.
pub open spec fn arranged<A>(s: Seq<A>, order: Seq<usize>) -> Seq<A> {
    Seq::new(order.len(), |i: int| s[order[i] as int])
}

proof fn lemma_order_in_range(order: Seq<usize>, n: nat)
    requires
        is_order(order, n),
        n <= usize::MAX,
    ensures
        order.len() == n,
        forall|i: int| 0 <= i < order.len() ==> #[trigger] order[i] < n,
{
    broadcast use vstd::seq_lib::group_to_multiset_ensures;

    assert(order.len() == order.to_multiset().len());
    assert(counting(n).len() == counting(n).to_multiset().len());
    assert forall|i: int| 0 <= i < order.len() implies #[trigger] order[i] < n by {
        assert(order.contains(order[i]));
        assert(order.to_multiset().count(order[i]) > 0);
        assert(counting(n).contains(order[i]));
    }
}

/// Some of the addresses, in an order.
pub fn pick(found: &Vec<SocketAddr>, order: &Vec<usize>, count: usize) -> (r: Vec<SocketAddr>)
    requires
        is_order(order@, found@.len()),
    ensures
        views(r@) == up_to(arranged(views(found@), order@), count as nat),
{
    proof {
        assert(found.len() <= usize::MAX);
        lemma_order_in_range(order@, found@.len());
    }
    let total: usize = found.len();
    let mut out: Vec<SocketAddr> = Vec::new();
    let mut i: usize = 0;
    while i < order.len() && i < count
        invariant
            i <= order@.len(),
            i <= count,
            total == found@.len(),
            forall|j: int| 0 <= j < order@.len() ==> #[trigger] order@[j] < total,
            out@.len() == i,
            forall|j: int|
                0 <= j < i ==> (#[trigger] out@[j])@ == views(found@)[order@[j] as int],
        decreases order@.len() - i,
    {
        out.push(found[order[i]]);
        i += 1;
    }
    assert(views(out@) =~= up_to(arranged(views(found@), order@), count as nat));
    out
}

fn score_of(info: &PeerAddressInfo) -> (r: i64)
    ensures
        r == score(info@),
{
    let success: i64 = match info.last_success {
        Some(t) => t as i64,
        None => 0,
    };
    success - info.attempts as i64
}

fn insert_by_score(sorted: &mut Vec<PeerAddressInfo>, info: PeerAddressInfo)
    ensures
        views(final(sorted)@) == place_by_score(views(old(sorted)@), info@),
{
    let ghost s = views(sorted@);
    let ghost want = place_by_score(s, info@);
    let own: i64 = score_of(&info);
    let mut at: usize = sorted.len();
    assert(s.take(at as int) =~= s);
    assert(want =~= place_by_score(s.take(at as int), info@) + s.skip(at as int));
    while at > 0 && score_of(&sorted[at - 1]) < own
        invariant
            at <= s.len(),
            s == views(sorted@),
            own == score(info@),
            want == place_by_score(s.take(at as int), info@) + s.skip(at as int),
        decreases at,
    {
        proof {
            let part = s.take(at as int);
            assert(part.last() == sorted@[at - 1]@);
            assert(part.drop_last() =~= s.take(at - 1));
            assert(s.skip(at - 1) =~= seq![s[at - 1]] + s.skip(at as int));
            assert(want =~= place_by_score(s.take(at - 1), info@) + s.skip(at - 1));
        }
        at -= 1;
    }
    proof {
        let part = s.take(at as int);
        if at > 0 {
            assert(part.last() == sorted@[at - 1]@);
        }
        assert(place_by_score(part, info@) == part.push(info@));
    }
    sorted.insert(at, info);
    assert(views(sorted@) =~= s.take(at as int).push(info@) + s.skip(at as int));
}

} // verus!
