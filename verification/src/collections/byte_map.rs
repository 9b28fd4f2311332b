//! A map from byte strings to values, spread over buckets by the first bytes of
//! the key.

use crate::primitives::bytes::{bytes_equal, le_value};
use crate::primitives::serialize::views;
use vstd::prelude::*;

verus! {

/// One entry of a bucket.
struct Slot<V> {
    key: Vec<u8>,
    value: V,
}

/// The buckets of a map.
struct Table<V> {
    buckets: Vec<Vec<Slot<V>>>,
}

/// A map from byte strings to values.
pub struct ByteMap<V> {
    table: Table<V>,
}

/// The bytes of a key that choose its bucket.
pub open spec fn key_prefix(key: Seq<u8>) -> Seq<u8> {
    if key.len() <= 8 {
        key
    } else {
        key.take(8)
    }
}

/// The bucket of a key.
pub open spec fn bucket_of(key: Seq<u8>, buckets: nat) -> int {
    (le_value(key_prefix(key)) % buckets) as int
}

fn bucket_index(key: &[u8], buckets: usize) -> (b: usize)
    requires
        buckets > 0,
    ensures
        b == bucket_of(key@, buckets as nat),
        b < buckets,
{
    let n: usize = if key.len() <= 8 {
        key.len()
    } else {
        8
    };
    let mut value: u64 = 0;
    let mut i: usize = n;
    let ghost prefix = key_prefix(key@);
    assert(prefix =~= key@.take(n as int));
    assert(prefix.skip(n as int) =~= Seq::empty());
    proof {
        crate::primitives::bytes::lemma_byte_range_step(0);
    }
    while i > 0
        invariant
            i <= n <= 8,
            n <= key@.len(),
            prefix == key@.take(n as int),
            value == le_value(prefix.skip(i as int)),
            value < crate::primitives::bytes::byte_range((n - i) as nat),
        decreases i,
    {
        i -= 1;
        proof {
            crate::primitives::bytes::lemma_byte_range_step((n - i - 1) as nat);
            crate::primitives::bytes::lemma_byte_range_values();
            crate::primitives::bigint::lemma_byte_range_monotone((n - i) as nat, 8);
            assert(prefix.skip(i as int).skip(1) =~= prefix.skip(i + 1));
        }
        value = value * 256 + key[i] as u64;
    }
    assert(prefix.skip(0) =~= prefix);
    (value % buckets as u64) as usize
}

impl<V> Table<V> {
    /// Every entry sits in the bucket of its key, and no key has two entries.
    spec fn well_placed(self) -> bool {
        &&& self.buckets@.len() > 0
        &&& forall|b: int, i: int|
            0 <= b < self.buckets@.len() && 0 <= i < self.buckets@[b]@.len() ==> bucket_of(
                (#[trigger] self.buckets@[b]@[i]).key@,
                self.buckets@.len(),
            ) == b
        &&& forall|b: int, i: int, j: int|
            0 <= b < self.buckets@.len() && 0 <= i < j < self.buckets@[b]@.len() ==> (
            #[trigger] self.buckets@[b]@[i]).key@ != (#[trigger] self.buckets@[b]@[j]).key@
    }

    spec fn bucket_for(self, key: Seq<u8>) -> Seq<Slot<V>> {
        self.buckets@[bucket_of(key, self.buckets@.len())]@
    }

    spec fn holds(self, key: Seq<u8>, i: int) -> bool {
        0 <= i < self.bucket_for(key).len() && self.bucket_for(key)[i].key@ == key
    }
}

impl<V> ByteMap<V> {
    #[verifier::type_invariant]
    spec fn table_well_placed(self) -> bool {
        self.table.well_placed()
    }
}

impl<V: View> View for ByteMap<V> {
    type V = Map<Seq<u8>, V::V>;

    closed spec fn view(&self) -> Map<Seq<u8>, V::V> {
        self.table@
    }
}

impl<V: View> View for Table<V> {
    type V = Map<Seq<u8>, V::V>;

    closed spec fn view(&self) -> Map<Seq<u8>, V::V> {
        Map::new(
            |key: Seq<u8>| exists|i: int| self.holds(key, i),
            |key: Seq<u8>| self.bucket_for(key)[choose|i: int| self.holds(key, i)].value@,
        )
    }
}

impl<V: View> Table<V> {
    proof fn lemma_found(&self, key: Seq<u8>, i: int)
        requires
            self.well_placed(),
            self.holds(key, i),
        ensures
            self@.contains_key(key),
            self@[key] == self.bucket_for(key)[i].value@,
    {
        let j = choose|j: int| self.holds(key, j);
        let b = bucket_of(key, self.buckets@.len());
        if i < j {
            assert(self.buckets@[b]@[i].key@ != self.buckets@[b]@[j].key@);
        } else if j < i {
            assert(self.buckets@[b]@[j].key@ != self.buckets@[b]@[i].key@);
        }
    }

    fn with_buckets(count: usize) -> (r: Self)
        requires
            count > 0,
        ensures
            r.well_placed(),
            r@ == Map::<Seq<u8>, V::V>::empty(),
    {
        let mut buckets: Vec<Vec<Slot<V>>> = Vec::new();
        let mut i: usize = 0;
        while i < count
            invariant
                i <= count,
                buckets.len() == i,
                forall|b: int| 0 <= b < i ==> (#[trigger] buckets@[b])@.len() == 0,
            decreases count - i,
        {
            buckets.push(Vec::new());
            i += 1;
        }
        let r = Table { buckets };
        assert(r@ =~= Map::<Seq<u8>, V::V>::empty());
        r
    }

    fn find(&self, key: &[u8]) -> (r: (usize, Option<usize>))
        requires
            self.well_placed(),
        ensures
            r.0 == bucket_of(key@, self.buckets@.len()),
            r.0 < self.buckets@.len(),
            match r.1 {
                Some(i) => self.holds(key@, i as int) && self@.contains_key(key@) && self@[key@]
                    == self.buckets@[r.0 as int]@[i as int].value@,
                None => !self@.contains_key(key@) && forall|i: int|
                    0 <= i < self.buckets@[r.0 as int]@.len() ==> (
                    #[trigger] self.buckets@[r.0 as int]@[i]).key@ != key@,
            },
    {
        let b = bucket_index(key, self.buckets.len());
        let mut i: usize = 0;
        while i < self.buckets[b].len()
            invariant
                b < self.buckets@.len(),
                b == bucket_of(key@, self.buckets@.len()),
                i <= self.buckets@[b as int]@.len(),
                self.well_placed(),
                forall|j: int|
                    0 <= j < i ==> (#[trigger] self.buckets@[b as int]@[j]).key@ != key@,
            decreases self.buckets@[b as int]@.len() - i,
        {
            if bytes_equal(&self.buckets[b][i].key, key) {
                proof {
                    assert(self.holds(key@, i as int));
                    self.lemma_found(key@, i as int);
                }
                return (b, Some(i));
            }
            i += 1;
        }
        (b, None)
    }

    fn get(&self, key: &[u8]) -> (r: Option<&V>)
        requires
            self.well_placed(),
        ensures
            match r {
                Some(v) => self@.contains_key(key@) && v@ == self@[key@],
                None => !self@.contains_key(key@),
            },
    {
        let (b, found) = self.find(key);
        match found {
            Some(i) => Some(&self.buckets[b][i].value),
            None => None,
        }
    }

    fn insert(&mut self, key: Vec<u8>, value: V) -> (r: Option<V>)
        requires
            old(self).well_placed(),
        ensures
            final(self).well_placed(),
            final(self)@ == old(self)@.insert(key@, value@),
            match r {
                Some(v) => old(self)@.contains_key(key@) && v@ == old(self)@[key@],
                None => !old(self)@.contains_key(key@),
            },
    {
        let r = self.remove(&key);
        let ghost middle = *self;
        let (b, found) = self.find(&key);
        let ghost new_key = key@;
        let ghost new_value = value@;
        let slot = Slot { key, value };
        self.buckets[b].push(slot);
        proof {
            let now = *self;
            let want = old(self)@.insert(new_key, new_value);
            let last = middle.buckets@[b as int]@.len() as int;
            assert(now.well_placed()) by {
                assert forall|c: int, i: int|
                    0 <= c < now.buckets@.len() && 0 <= i < now.buckets@[c]@.len() implies bucket_of(
                    (#[trigger] now.buckets@[c]@[i]).key@,
                    now.buckets@.len(),
                ) == c by {
                    if c != b || i < last {
                        assert(now.buckets@[c]@[i] == middle.buckets@[c]@[i]);
                    }
                }
                assert forall|c: int, i: int, j: int|
                    0 <= c < now.buckets@.len() && 0 <= i < j < now.buckets@[c]@.len() implies (
                #[trigger] now.buckets@[c]@[i]).key@ != (#[trigger] now.buckets@[c]@[j]).key@ by {
                    assert(now.buckets@[c]@[i] == middle.buckets@[c]@[i]);
                    if c != b || j < last {
                        assert(now.buckets@[c]@[j] == middle.buckets@[c]@[j]);
                    }
                }
            }
            assert(now.holds(new_key, last));
            now.lemma_found(new_key, last);
            assert forall|k: Seq<u8>| k != new_key implies ((#[trigger] now@.dom().contains(k))
                == middle@.dom().contains(k)) && (now@.dom().contains(k) ==> now@[k]
                == middle@[k]) by {
                if middle@.contains_key(k) {
                    let i = choose|i: int| middle.holds(k, i);
                    middle.lemma_found(k, i);
                    assert(now.holds(k, i));
                    now.lemma_found(k, i);
                }
                if now@.contains_key(k) {
                    let i = choose|i: int| now.holds(k, i);
                    now.lemma_found(k, i);
                    assert(middle.holds(k, i));
                    middle.lemma_found(k, i);
                }
            }
            assert(now@ =~= want);
        }
        r
    }

    fn remove(&mut self, key: &[u8]) -> (r: Option<V>)
        requires
            old(self).well_placed(),
        ensures
            final(self).well_placed(),
            final(self)@ == old(self)@.remove(key@),
            match r {
                Some(v) => old(self)@.contains_key(key@) && v@ == old(self)@[key@],
                None => !old(self)@.contains_key(key@),
            },
    {
        let (b, found) = self.find(key);
        let ghost before = *self;
        match found {
            None => {
                assert(before@ =~= before@.remove(key@));
                None
            },
            Some(at) => {
                let slot = self.buckets[b].swap_remove(at);
                proof {
                    lemma_removed(before, *self, key@, b as int, at as int);
                }
                Some(slot.value)
            },
        }
    }
}

/// The keys of a bucket.
spec fn bucket_keys<V>(bucket: Seq<Slot<V>>) -> Seq<Seq<u8>> {
    Seq::new(bucket.len(), |i: int| bucket[i].key@)
}

/// The keys of the first `n` buckets.
spec fn keys_up_to<V>(buckets: Seq<Vec<Slot<V>>>, n: nat) -> Seq<Seq<u8>>
    decreases n,
{
    if n == 0 {
        Seq::empty()
    } else {
        keys_up_to(buckets, (n - 1) as nat) + bucket_keys(buckets[n - 1]@)
    }
}

impl<V: View> Table<V> {
    proof fn lemma_keys_up_to(self, n: nat)
        requires
            self.well_placed(),
            n <= self.buckets@.len(),
        ensures
            keys_up_to(self.buckets@, n).no_duplicates(),
            forall|k: Seq<u8>|
                #![trigger keys_up_to(self.buckets@, n).contains(k)]
                keys_up_to(self.buckets@, n).contains(k) <==> bucket_of(k, self.buckets@.len()) < n
                    && bucket_keys(self.bucket_for(k)).contains(k),
        decreases n,
    {
        if n > 0 {
            let m = (n - 1) as nat;
            self.lemma_keys_up_to(m);
            let front = keys_up_to(self.buckets@, m);
            let bucket = self.buckets@[m as int]@;
            let back = bucket_keys(bucket);
            assert forall|i: int, j: int|
                0 <= i < back.len() && 0 <= j < back.len() && i != j implies back[i] != back[j] by {
                if i < j {
                    assert(self.buckets@[m as int]@[i].key@ != self.buckets@[m as int]@[j].key@);
                } else {
                    assert(self.buckets@[m as int]@[j].key@ != self.buckets@[m as int]@[i].key@);
                }
            }
            assert forall|k: Seq<u8>| #[trigger] back.contains(k) implies bucket_of(
                k,
                self.buckets@.len(),
            ) == m by {
                let i = choose|i: int| 0 <= i < back.len() && back[i] == k;
                assert(bucket_of(self.buckets@[m as int]@[i].key@, self.buckets@.len()) == m);
            }
            assert forall|i: int, j: int|
                0 <= i < front.len() && 0 <= j < back.len() implies front[i] != back[j] by {
                assert(front.contains(front[i]));
                assert(back.contains(back[j]));
            }
            vstd::seq_lib::lemma_no_dup_in_concat(front, back);
            assert forall|k: Seq<u8>|
                #![trigger keys_up_to(self.buckets@, n).contains(k)]
                keys_up_to(self.buckets@, n).contains(k) <==> bucket_of(k, self.buckets@.len()) < n
                    && bucket_keys(self.bucket_for(k)).contains(k) by {
                let all = front + back;
                if all.contains(k) {
                    let p = choose|p: int| 0 <= p < all.len() && all[p] == k;
                    if p < front.len() {
                        assert(front[p] == k);
                        assert(front.contains(k));
                    } else {
                        assert(back[p - front.len()] == k);
                        assert(back.contains(k));
                    }
                }
                if front.contains(k) {
                    let p = choose|p: int| 0 <= p < front.len() && front[p] == k;
                    assert(all[p] == k);
                }
                if back.contains(k) {
                    let p = choose|p: int| 0 <= p < back.len() && back[p] == k;
                    assert(all[front.len() + p] == k);
                }
            }
        }
    }

    fn keys(&self) -> (out: Vec<Vec<u8>>)
        requires
            self.well_placed(),
        ensures
            forall|k: Seq<u8>|
                #![trigger self@.contains_key(k)]
                self@.contains_key(k) <==> views(out@).contains(k),
            views(out@).no_duplicates(),
    {
        let mut out: Vec<Vec<u8>> = Vec::new();
        let mut c: usize = 0;
        assert(views(out@) =~= keys_up_to(self.buckets@, 0));
        while c < self.buckets.len()
            invariant
                c <= self.buckets@.len(),
                views(out@) == keys_up_to(self.buckets@, c as nat),
            decreases self.buckets@.len() - c,
        {
            let mut j: usize = 0;
            let ghost before = keys_up_to(self.buckets@, c as nat);
            let ghost all = bucket_keys(self.buckets@[c as int]@);
            assert(before + all.take(0) =~= before);
            while j < self.buckets[c].len()
                invariant
                    c < self.buckets@.len(),
                    j <= self.buckets@[c as int]@.len(),
                    all == bucket_keys(self.buckets@[c as int]@),
                    views(out@) == before + all.take(j as int),
                decreases self.buckets@[c as int]@.len() - j,
            {
                let key = self.buckets[c][j].key.clone();
                assert(key@ =~= self.buckets@[c as int]@[j as int].key@);
                let ghost old_out = out@;
                out.push(key);
                assert(views(out@) =~= views(old_out).push(all[j as int]));
                assert(all.take(j + 1) =~= all.take(j as int).push(all[j as int]));
                assert(before + all.take(j + 1) =~= (before + all.take(j as int)).push(
                    all[j as int],
                ));
                j += 1;
            }
            assert(all.take(j as int) =~= all);
            c += 1;
        }
        proof {
            self.lemma_keys_up_to(self.buckets@.len());
            assert forall|k: Seq<u8>|
                #![trigger self@.contains_key(k)]
                self@.contains_key(k) <==> views(out@).contains(k) by {
                let keys = bucket_keys(self.bucket_for(k));
                if self@.contains_key(k) {
                    let i = choose|i: int| self.holds(k, i);
                    assert(keys[i] == k);
                }
                if keys.contains(k) {
                    let i = choose|i: int| 0 <= i < keys.len() && keys[i] == k;
                    assert(self.holds(k, i));
                }
            }
        }
        out
    }
}

proof fn lemma_removed<V: View>(
    before: Table<V>,
    now: Table<V>,
    key: Seq<u8>,
    b: int,
    at: int,
)
    requires
        before.well_placed(),
        0 <= b < before.buckets@.len(),
        b == bucket_of(key, before.buckets@.len()),
        before.holds(key, at),
        now.buckets@.len() == before.buckets@.len(),
        forall|c: int| 0 <= c < now.buckets@.len() && c != b ==> now.buckets@[c]
            == before.buckets@[c],
        now.buckets@[b]@ == before.buckets@[b]@.update(
            at,
            before.buckets@[b]@.last(),
        ).drop_last(),
    ensures
        now.well_placed(),
        now@ == before@.remove(key),
{
    let last = before.buckets@[b]@.len() - 1;
    assert forall|c: int, i: int|
        0 <= c < now.buckets@.len() && 0 <= i < now.buckets@[c]@.len() implies bucket_of(
        (#[trigger] now.buckets@[c]@[i]).key@,
        now.buckets@.len(),
    ) == c by {
        let from = if c == b && i == at {
            last
        } else {
            i
        };
        assert(now.buckets@[c]@[i] == before.buckets@[c]@[from]);
    }
    assert forall|c: int, i: int, j: int|
        0 <= c < now.buckets@.len() && 0 <= i < j < now.buckets@[c]@.len() implies (
    #[trigger] now.buckets@[c]@[i]).key@ != (#[trigger] now.buckets@[c]@[j]).key@ by {
        let fi = if c == b && i == at {
            last
        } else {
            i
        };
        let fj = if c == b && j == at {
            last
        } else {
            j
        };
        assert(now.buckets@[c]@[i] == before.buckets@[c]@[fi]);
        assert(now.buckets@[c]@[j] == before.buckets@[c]@[fj]);
        if fi < fj {
            assert(before.buckets@[c]@[fi].key@ != before.buckets@[c]@[fj].key@);
        } else {
            assert(before.buckets@[c]@[fj].key@ != before.buckets@[c]@[fi].key@);
        }
    }
    assert(now.well_placed());
    assert forall|k: Seq<u8>|
        #![trigger now@.dom().contains(k)]
        now@.dom().contains(k) == (before@.dom().contains(k) && k != key) && (
        now@.dom().contains(k) ==> now@[k] == before@[k]) by {
        if before@.contains_key(k) && k != key {
            let i = choose|i: int| before.holds(k, i);
            before.lemma_found(k, i);
            let ni = if bucket_of(k, before.buckets@.len()) == b && i == last {
                at
            } else {
                i
            };
            assert(now.holds(k, ni));
            now.lemma_found(k, ni);
        }
        if now@.contains_key(k) {
            let i = choose|i: int| now.holds(k, i);
            now.lemma_found(k, i);
            let c = bucket_of(k, before.buckets@.len());
            let from = if c == b && i == at {
                last
            } else {
                i
            };
            assert(before.holds(k, from));
            before.lemma_found(k, from);
            if k == key {
                if from < at {
                    assert(before.buckets@[b]@[from].key@ != before.buckets@[b]@[at].key@);
                } else if at < from {
                    assert(before.buckets@[b]@[at].key@ != before.buckets@[b]@[from].key@);
                }
            }
        }
    }
    assert(now@ =~= before@.remove(key));
}

impl<V: View> ByteMap<V> {
    /// A map without entries, spread over a number of buckets.
    pub fn with_buckets(count: usize) -> (r: Self)
        requires
            count > 0,
        ensures
            r@ == Map::<Seq<u8>, V::V>::empty(),
    {
        ByteMap { table: Table::with_buckets(count) }
    }

    /// The value of a key.
    pub fn get(&self, key: &[u8]) -> (r: Option<&V>)
        ensures
            match r {
                Some(v) => self@.contains_key(key@) && v@ == self@[key@],
                None => !self@.contains_key(key@),
            },
    {
        proof {
            use_type_invariant(self);
        }
        self.table.get(key)
    }

    /// Whether a key has a value.
    pub fn contains_key(&self, key: &[u8]) -> (r: bool)
        ensures
            r == self@.contains_key(key@),
    {
        self.get(key).is_some()
    }

    /// Gives a key a value and hands back the one that it had.
    pub fn insert(&mut self, key: Vec<u8>, value: V) -> (r: Option<V>)
        ensures
            final(self)@ == old(self)@.insert(key@, value@),
            match r {
                Some(v) => old(self)@.contains_key(key@) && v@ == old(self)@[key@],
                None => !old(self)@.contains_key(key@),
            },
    {
        proof {
            use_type_invariant(&*self);
        }
        let mut table: Table<V> = Table::with_buckets(1);
        core::mem::swap(&mut self.table, &mut table);
        let r = table.insert(key, value);
        core::mem::swap(&mut self.table, &mut table);
        r
    }

    /// Takes the value of a key out.
    pub fn remove(&mut self, key: &[u8]) -> (r: Option<V>)
        ensures
            final(self)@ == old(self)@.remove(key@),
            match r {
                Some(v) => old(self)@.contains_key(key@) && v@ == old(self)@[key@],
                None => !old(self)@.contains_key(key@),
            },
    {
        proof {
            use_type_invariant(&*self);
        }
        let mut table: Table<V> = Table::with_buckets(1);
        core::mem::swap(&mut self.table, &mut table);
        let r = table.remove(key);
        core::mem::swap(&mut self.table, &mut table);
        r
    }

    /// The keys, each once.
    pub fn keys(&self) -> (out: Vec<Vec<u8>>)
        ensures
            forall|k: Seq<u8>|
                #![trigger self@.contains_key(k)]
                self@.contains_key(k) <==> views(out@).contains(k),
            views(out@).no_duplicates(),
    {
        proof {
            use_type_invariant(self);
        }
        self.table.keys()
    }

    /// Number of entries.
    pub fn len(&self) -> (n: usize)
        ensures
            self@.dom().finite(),
            n == self@.dom().len(),
    {
        let keys = self.keys();
        proof {
            let ks = views(keys@);
            ks.unique_seq_to_set();
            assert(self@.dom() =~= ks.to_set());
        }
        keys.len()
    }
}

} // verus!
