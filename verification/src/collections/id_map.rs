//! A map from numbers to values that keeps the numbers in order.

use vstd::prelude::*;

verus! {

/// A map from numbers to values.
pub struct IdMap<V> {
    entries: Vec<(u64, V)>,
}

/// Each number is larger than those before it.
pub open spec fn rising(ids: Seq<u64>) -> bool {
    forall|i: int, j: int| 0 <= i < j < ids.len() ==> ids[i] < ids[j]
}

/// The numbers of a set in ascending order.
pub open spec fn listing(ids: Set<u64>) -> Seq<u64> {
    choose|s: Seq<u64>| rising(s) && #[trigger] s.to_set() == ids
}

/// There is one way to list numbers in ascending order.
pub proof fn lemma_listing_once(a: Seq<u64>, b: Seq<u64>)
    requires
        rising(a),
        rising(b),
        a.to_set() == b.to_set(),
    ensures
        a == b,
    decreases a.len(),
{
    if a.len() == 0 {
        if b.len() > 0 {
            assert(b.to_set().contains(b[0]));
            assert(a.contains(b[0]));
        }
        assert(a =~= b);
    } else {
        assert(a.to_set().contains(a[0]));
        assert(b.contains(a[0]));
        let x = a.last();
        let y = b.last();
        assert(a.to_set().contains(x) && b.to_set().contains(y));
        let i = choose|i: int| 0 <= i < b.len() && b[i] == x;
        let j = choose|j: int| 0 <= j < a.len() && a[j] == y;
        assert(x == y);
        let a1 = a.drop_last();
        let b1 = b.drop_last();
        assert forall|v: u64| a1.to_set().contains(v) <==> b1.to_set().contains(v) by {
            if a1.contains(v) {
                let k = choose|k: int| 0 <= k < a1.len() && a1[k] == v;
                assert(a[k] == v && a[k] < x);
                assert(a.to_set().contains(v));
                assert(b.contains(v));
                let m = choose|m: int| 0 <= m < b.len() && b[m] == v;
                assert(b1[m] == v);
            }
            if b1.contains(v) {
                let k = choose|k: int| 0 <= k < b1.len() && b1[k] == v;
                assert(b[k] == v && b[k] < y);
                assert(b.to_set().contains(v));
                assert(a.contains(v));
                let m = choose|m: int| 0 <= m < a.len() && a[m] == v;
                assert(a1[m] == v);
            }
        }
        assert(a1.to_set() =~= b1.to_set());
        lemma_listing_once(a1, b1);
        assert(a =~= a1.push(x));
        assert(b =~= b1.push(y));
    }
}

/// A rising sequence lists its own numbers.
pub proof fn lemma_listing(s: Seq<u64>)
    requires
        rising(s),
    ensures
        listing(s.to_set()) == s,
{
    let t = listing(s.to_set());
    assert(rising(s) && s.to_set() == s.to_set());
    lemma_listing_once(t, s);
}

spec fn ids_of<V>(entries: Seq<(u64, V)>) -> Seq<u64> {
    Seq::new(entries.len(), |i: int| entries[i].0)
}

impl<V> IdMap<V> {
    /// The numbers rise.
    #[verifier::type_invariant]
    spec fn ids_rise(self) -> bool {
        rising(ids_of(self.entries@))
    }

    spec fn holds(self, id: u64, i: int) -> bool {
        0 <= i < self.entries@.len() && self.entries@[i].0 == id
    }
}

impl<V: View> View for IdMap<V> {
    type V = Map<u64, V::V>;

    closed spec fn view(&self) -> Map<u64, V::V> {
        Map::new(
            |id: u64| exists|i: int| self.holds(id, i),
            |id: u64| self.entries@[choose|i: int| self.holds(id, i)].1@,
        )
    }
}

impl<V: View> IdMap<V> {
    proof fn lemma_found(&self, id: u64, i: int)
        requires
            self.ids_rise(),
            self.holds(id, i),
        ensures
            self@.contains_key(id),
            self@[id] == self.entries@[i].1@,
    {
        let j = choose|j: int| self.holds(id, j);
        let ids = ids_of(self.entries@);
        if i < j {
            assert(ids[i] < ids[j]);
        } else if j < i {
            assert(ids[j] < ids[i]);
        }
    }

    /// A map without entries.
    pub fn new() -> (r: Self)
        ensures
            r@ == Map::<u64, V::V>::empty(),
    {
        let entries: Vec<(u64, V)> = Vec::new();
        assert(rising(ids_of(entries@)));
        let r = IdMap { entries };
        assert(r@ =~= Map::<u64, V::V>::empty());
        r
    }

    /// Where a number is, or where it would have to be put.
    fn find(&self, id: u64) -> (r: (bool, usize))
        ensures
            self.ids_rise(),
            r.1 <= self.entries@.len(),
            r.0 == self@.contains_key(id),
            r.0 ==> self.holds(id, r.1 as int) && self@[id] == self.entries@[r.1 as int].1@,
            forall|i: int| 0 <= i < r.1 ==> (#[trigger] self.entries@[i]).0 < id,
            forall|i: int|
                r.1 <= i < self.entries@.len() ==> (#[trigger] self.entries@[i]).0 >= id,
            !r.0 ==> forall|i: int|
                r.1 <= i < self.entries@.len() ==> (#[trigger] self.entries@[i]).0 > id,
    {
        proof {
            use_type_invariant(self);
        }
        let ghost ids = ids_of(self.entries@);
        let mut low: usize = 0;
        let mut high: usize = self.entries.len();
        while low < high
            invariant
                low <= high <= self.entries@.len(),
                ids == ids_of(self.entries@),
                rising(ids),
                forall|i: int| 0 <= i < low ==> (#[trigger] self.entries@[i]).0 < id,
                forall|i: int|
                    high <= i < self.entries@.len() ==> (#[trigger] self.entries@[i]).0 >= id,
            decreases high - low,
        {
            let middle: usize = low + (high - low) / 2;
            if self.entries[middle].0 < id {
                assert forall|i: int| 0 <= i < middle + 1 implies (
                #[trigger] self.entries@[i]).0 < id by {
                    if i < middle {
                        assert(ids[i] < ids[middle as int]);
                    }
                }
                low = middle + 1;
            } else {
                assert forall|i: int| middle <= i < self.entries@.len() implies (
                #[trigger] self.entries@[i]).0 >= id by {
                    if middle < i {
                        assert(ids[middle as int] < ids[i]);
                    }
                }
                high = middle;
            }
        }
        let here: bool = low < self.entries.len() && self.entries[low].0 == id;
        proof {
            if here {
                assert(self.holds(id, low as int));
                self.lemma_found(id, low as int);
            } else {
                if self@.contains_key(id) {
                    let i = choose|i: int| self.holds(id, i);
                    assert(self.entries@[i].0 == id);
                    if i > low {
                        assert(ids[low as int] < ids[i]);
                    }
                }
                assert forall|i: int| low <= i < self.entries@.len() implies (
                #[trigger] self.entries@[i]).0 > id by {
                    if i > low {
                        assert(ids[low as int] < ids[i]);
                    }
                }
            }
        }
        (here, low)
    }

    /// The value of a number.
    pub fn get(&self, id: u64) -> (r: Option<&V>)
        ensures
            match r {
                Some(v) => self@.contains_key(id) && v@ == self@[id],
                None => !self@.contains_key(id),
            },
    {
        let (here, at) = self.find(id);
        if here {
            Some(&self.entries[at].1)
        } else {
            None
        }
    }

    /// Whether a number has a value.
    pub fn contains(&self, id: u64) -> (r: bool)
        ensures
            r == self@.contains_key(id),
    {
        self.find(id).0
    }

    /// Takes the value of a number out.
    pub fn remove(&mut self, id: u64) -> (r: Option<V>)
        ensures
            final(self)@ == old(self)@.remove(id),
            match r {
                Some(v) => old(self)@.contains_key(id) && v@ == old(self)@[id],
                None => !old(self)@.contains_key(id),
            },
    {
        let (here, at) = self.find(id);
        let ghost before = *self;
        if !here {
            assert(before@ =~= before@.remove(id));
            return None;
        }
        let mut entries: Vec<(u64, V)> = Vec::new();
        assert(rising(ids_of(entries@)));
        core::mem::swap(&mut self.entries, &mut entries);
        let (_, value) = entries.remove(at);
        proof {
            lemma_without(before, entries@, at as int);
        }
        self.entries = entries;
        proof {
            let now = *self;
            assert forall|k: u64|
                #![trigger now@.dom().contains(k)]
                now@.dom().contains(k) == (before@.dom().contains(k) && k != id) && (
                now@.dom().contains(k) ==> now@[k] == before@[k]) by {
                if before@.dom().contains(k) && k != id {
                    let i = choose|i: int| before.holds(k, i);
                    before.lemma_found(k, i);
                    let ni = if i < at {
                        i
                    } else {
                        i - 1
                    };
                    assert(now.holds(k, ni));
                    now.lemma_found(k, ni);
                }
                if now@.dom().contains(k) {
                    let i = choose|i: int| now.holds(k, i);
                    now.lemma_found(k, i);
                    let bi = if i < at {
                        i
                    } else {
                        i + 1
                    };
                    assert(before.holds(k, bi));
                    before.lemma_found(k, bi);
                    let ids = ids_of(before.entries@);
                    if bi < at {
                        assert(ids[bi] < ids[at as int]);
                    } else {
                        assert(ids[at as int] < ids[bi]);
                    }
                }
            }
            assert(now@ =~= before@.remove(id));
        }
        Some(value)
    }

    /// Gives a number a value and hands back the one that it had.
    pub fn insert(&mut self, id: u64, value: V) -> (r: Option<V>)
        ensures
            final(self)@ == old(self)@.insert(id, value@),
            match r {
                Some(v) => old(self)@.contains_key(id) && v@ == old(self)@[id],
                None => !old(self)@.contains_key(id),
            },
    {
        let r = self.remove(id);
        let ghost middle = *self;
        let (_, at) = self.find(id);
        let mut entries: Vec<(u64, V)> = Vec::new();
        assert(rising(ids_of(entries@)));
        core::mem::swap(&mut self.entries, &mut entries);
        entries.insert(at, (id, value));
        proof {
            lemma_with(middle, entries@, at as int, (id, value));
        }
        self.entries = entries;
        proof {
            let now = *self;
            assert(now.holds(id, at as int));
            now.lemma_found(id, at as int);
            assert forall|k: u64|
                #![trigger now@.dom().contains(k)]
                k != id implies now@.dom().contains(k) == middle@.dom().contains(k) && (
            now@.dom().contains(k) ==> now@[k] == middle@[k]) by {
                if middle@.dom().contains(k) {
                    let i = choose|i: int| middle.holds(k, i);
                    middle.lemma_found(k, i);
                    let ni = if i < at {
                        i
                    } else {
                        i + 1
                    };
                    assert(now.holds(k, ni));
                    now.lemma_found(k, ni);
                }
                if now@.dom().contains(k) {
                    let i = choose|i: int| now.holds(k, i);
                    now.lemma_found(k, i);
                    let mi = if i < at {
                        i
                    } else {
                        i - 1
                    };
                    assert(middle.holds(k, mi));
                    middle.lemma_found(k, mi);
                }
            }
            assert(now@ =~= old(self)@.insert(id, value@));
        }
        r
    }

    /// The numbers in ascending order.
    pub fn ids(&self) -> (out: Vec<u64>)
        ensures
            rising(out@),
            forall|id: u64|
                #![trigger self@.contains_key(id)]
                self@.contains_key(id) <==> out@.contains(id),
            out@ == listing(self@.dom()),
    {
        proof {
            use_type_invariant(self);
        }
        let mut out: Vec<u64> = Vec::new();
        let mut i: usize = 0;
        while i < self.entries.len()
            invariant
                i <= self.entries@.len(),
                out@ == ids_of(self.entries@).take(i as int),
            decreases self.entries@.len() - i,
        {
            out.push(self.entries[i].0);
            assert(out@ =~= ids_of(self.entries@).take(i + 1));
            i += 1;
        }
        proof {
            assert(out@ =~= ids_of(self.entries@));
            assert forall|id: u64|
                #![trigger self@.contains_key(id)]
                self@.contains_key(id) <==> out@.contains(id) by {
                if self@.contains_key(id) {
                    let k = choose|k: int| self.holds(id, k);
                    assert(out@[k] == id);
                }
                if out@.contains(id) {
                    let k = choose|k: int| 0 <= k < out@.len() && out@[k] == id;
                    assert(self.holds(id, k));
                    self.lemma_found(id, k);
                }
            }
            assert(out@.to_set() =~= self@.dom());
            lemma_listing(out@);
        }
        out
    }

    /// Number of entries.
    pub fn len(&self) -> (n: usize)
        ensures
            self@.dom().finite(),
            n == self@.dom().len(),
    {
        proof {
            use_type_invariant(self);
            let ids = ids_of(self.entries@);
            assert(ids.no_duplicates());
            ids.unique_seq_to_set();
            assert forall|id: u64| self@.dom().contains(id) <==> ids.to_set().contains(id) by {
                if self@.dom().contains(id) {
                    let k = choose|k: int| self.holds(id, k);
                    assert(ids[k] == id);
                }
                if ids.to_set().contains(id) {
                    let k = choose|k: int| 0 <= k < ids.len() && ids[k] == id;
                    assert(self.holds(id, k));
                    self.lemma_found(id, k);
                }
            }
            assert(self@.dom() =~= ids.to_set());
        }
        self.entries.len()
    }
}

proof fn lemma_without<V: View>(before: IdMap<V>, entries: Seq<(u64, V)>, at: int)
    requires
        before.ids_rise(),
        0 <= at < before.entries@.len(),
        entries == before.entries@.remove(at),
    ensures
        rising(ids_of(entries)),
{
    let ids = ids_of(entries);
    let all = ids_of(before.entries@);
    assert forall|i: int, j: int| 0 <= i < j < ids.len() implies ids[i] < ids[j] by {
        let bi = if i < at {
            i
        } else {
            i + 1
        };
        let bj = if j < at {
            j
        } else {
            j + 1
        };
        assert(ids[i] == all[bi] && ids[j] == all[bj]);
    }
}

proof fn lemma_with<V: View>(before: IdMap<V>, entries: Seq<(u64, V)>, at: int, entry: (u64, V))
    requires
        before.ids_rise(),
        0 <= at <= before.entries@.len(),
        entries == before.entries@.insert(at, entry),
        forall|i: int| 0 <= i < at ==> (#[trigger] before.entries@[i]).0 < entry.0,
        forall|i: int|
            at <= i < before.entries@.len() ==> (#[trigger] before.entries@[i]).0 > entry.0,
    ensures
        rising(ids_of(entries)),
{
    let ids = ids_of(entries);
    let all = ids_of(before.entries@);
    assert forall|i: int, j: int| 0 <= i < j < ids.len() implies ids[i] < ids[j] by {
        let bi = if i < at {
            i
        } else {
            i - 1
        };
        let bj = if j < at {
            j
        } else {
            j - 1
        };
        if i == at {
            assert(before.entries@[bj].0 > entry.0);
        } else if j == at {
            assert(before.entries@[bi].0 < entry.0);
        } else {
            assert(ids[i] == all[bi] && ids[j] == all[bj]);
        }
    }
}

} // verus!
