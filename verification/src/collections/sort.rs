//! Sorting of numbers.

use vstd::prelude::*;

verus! {

/// Puts a number behind the last one that is not larger.
pub open spec fn insert_in_order(s: Seq<u64>, x: u64) -> Seq<u64>
    decreases s.len(),
{
    if s.len() == 0 || s.last() <= x {
        s.push(x)
    } else {
        insert_in_order(s.drop_last(), x).push(s.last())
    }
}

/// The numbers of a sequence in ascending order.
pub open spec fn in_order(s: Seq<u64>) -> Seq<u64>
    decreases s.len(),
{
    if s.len() == 0 {
        s
    } else {
        insert_in_order(in_order(s.drop_last()), s.last())
    }
}

pub open spec fn ascending(s: Seq<u64>) -> bool {
    forall|i: int, j: int| 0 <= i <= j < s.len() ==> s[i] <= s[j]
}

proof fn lemma_insert_in_order(s: Seq<u64>, x: u64)
    requires
        ascending(s),
    ensures
        ascending(insert_in_order(s, x)),
        insert_in_order(s, x).to_multiset() == s.to_multiset().insert(x),
        insert_in_order(s, x).len() == s.len() + 1,
    decreases s.len(),
{
    broadcast use vstd::seq_lib::group_to_multiset_ensures;

    if s.len() > 0 && s.last() > x {
        let front = s.drop_last();
        lemma_insert_in_order(front, x);
        let placed = insert_in_order(front, x);
        assert(s =~= front.push(s.last()));
        assert(insert_in_order(s, x).to_multiset() =~= s.to_multiset().insert(x));
        assert forall|i: int| 0 <= i < placed.len() implies placed[i] <= s.last() by {
            assert(placed.to_multiset().count(placed[i]) > 0) by {
                assert(placed.contains(placed[i]));
            }
            if placed[i] != x {
                assert(front.to_multiset().count(placed[i]) > 0);
                assert(front.contains(placed[i]));
            }
        }
    }
}

/// The ordered sequence is ascending and holds the same numbers.
pub proof fn lemma_in_order(s: Seq<u64>)
    ensures
        ascending(in_order(s)),
        in_order(s).to_multiset() == s.to_multiset(),
        in_order(s).len() == s.len(),
    decreases s.len(),
{
    broadcast use vstd::seq_lib::group_to_multiset_ensures;

    if s.len() > 0 {
        lemma_in_order(s.drop_last());
        lemma_insert_in_order(in_order(s.drop_last()), s.last());
        assert(s =~= s.drop_last().push(s.last()));
    }
}

proof fn lemma_insert_position(s: Seq<u64>, x: u64, p: int)
    requires
        0 <= p <= s.len(),
        forall|j: int| p <= j < s.len() ==> s[j] > x,
        p > 0 ==> s[p - 1] <= x,
    ensures
        insert_in_order(s, x) == s.insert(p, x),
    decreases s.len(),
{
    if p < s.len() {
        lemma_insert_position(s.drop_last(), x, p);
        assert(s.insert(p, x) =~= s.drop_last().insert(p, x).push(s.last()));
    } else {
        assert(s.insert(p, x) =~= s.push(x));
    }
}

/// Sorts numbers in ascending order.
pub fn sort_numbers(numbers: &Vec<u64>) -> (out: Vec<u64>)
    ensures
        out@ == in_order(numbers@),
{
    let mut out: Vec<u64> = Vec::new();
    let mut i: usize = 0;
    assert(numbers@.take(0) =~= Seq::empty());
    while i < numbers.len()
        invariant
            i <= numbers.len(),
            out@ == in_order(numbers@.take(i as int)),
        decreases numbers.len() - i,
    {
        let x: u64 = numbers[i];
        let mut p: usize = out.len();
        while p > 0 && out[p - 1] > x
            invariant
                p <= out.len(),
                forall|j: int| p <= j < out.len() ==> out@[j] > x,
            decreases p,
        {
            p -= 1;
        }
        proof {
            lemma_insert_position(out@, x, p as int);
            assert(numbers@.take(i + 1).drop_last() =~= numbers@.take(i as int));
        }
        out.insert(p, x);
        i += 1;
    }
    assert(numbers@.take(i as int) =~= numbers@);
    out
}

} // verus!
