//! Walking ordered sets and maps of states.
use vstd::prelude::*;
use std::collections::{BTreeMap, BTreeSet};

verus! {

/// The set of a sequence grows by one item when the sequence does.
pub proof fn lemma_push_to_set<A>(s: Seq<A>, x: A)
    ensures
        s.push(x).to_set() == s.to_set().insert(x),
{
    let t = s.push(x);
    assert forall|y: A| t.to_set().contains(y) <==> s.to_set().insert(x).contains(y) by {
        if s.contains(y) {
            let j = choose|j: int| 0 <= j < s.len() && s[j] == y;
            assert(t[j] == y);
        }
        if t.contains(y) {
            let j = choose|j: int| 0 <= j < t.len() && t[j] == y;
            if j < s.len() {
                assert(s[j] == y);
            }
        }
        assert(t[s.len() as int] == x);
    }
    assert(t.to_set() =~= s.to_set().insert(x));
}

/// What a sequence holds after one more item was put behind it.
pub proof fn lemma_push_contains<A>(s: Seq<A>, x: A, y: A)
    ensures
        s.push(x).contains(y) <==> s.contains(y) || y == x,
{
    let t = s.push(x);
    if s.contains(y) {
        let j = choose|j: int| 0 <= j < s.len() && s[j] == y;
        assert(t[j] == y);
    }
    if t.contains(y) {
        let j = choose|j: int| 0 <= j < t.len() && t[j] == y;
        if j < s.len() {
            assert(s[j] == y);
        }
    }
    assert(t[s.len() as int] == x);
}

/// The symbol itself. A symbol that was read out of a tuple or a list is
/// passed through here, after which it is known to be a Unicode scalar value.
pub fn scalar(c: char) -> (r: char)
    ensures
        r == c,
{
    c
}

/// The items of a set, each once.
pub fn set_elements(s: &BTreeSet<i32>) -> (v: Vec<i32>)
    ensures
        v@.no_duplicates(),
        v@.to_set() == s@,
        v@.len() == s@.len(),
        s@.finite(),
{
    let mut v: Vec<i32> = Vec::new();
    for x in it: s.iter()
        invariant
            it.seq().unref().to_set() == s@,
            it.seq().unref().no_duplicates(),
            it.seq().len() == s@.len(),
            v@ == it.seq().take(it.index()).unref(),
            it.index() == it.seq().len() ==> v@ == it.seq().unref(),
    {
        v.push(*x);
        proof {
            assert(it.seq().take(it.index() + 1).unref() =~= it.seq().take(it.index()).unref().push(
                *x,
            ));
            assert(it.index() + 1 == it.seq().len() ==> it.seq().take(it.index() + 1)
                =~= it.seq());
        }
    }
    proof {
        vstd::seq_lib::seq_to_set_is_finite(v@);
    }
    v
}

/// The keys of a map, each once.
pub fn map_keys<V>(m: &BTreeMap<i32, V>) -> (v: Vec<i32>)
    ensures
        v@.no_duplicates(),
        v@.to_set() == m@.dom(),
        v@.len() == m@.dom().len(),
{
    let mut v: Vec<i32> = Vec::new();
    for x in it: m.keys()
        invariant
            it.seq().unref().to_set() == m@.dom(),
            it.seq().unref().no_duplicates(),
            it.seq().len() == m@.dom().len(),
            v@ == it.seq().take(it.index()).unref(),
            it.index() == it.seq().len() ==> v@ == it.seq().unref(),
    {
        v.push(*x);
        proof {
            assert(it.seq().take(it.index() + 1).unref() =~= it.seq().take(it.index()).unref().push(
                *x,
            ));
            assert(it.index() + 1 == it.seq().len() ==> it.seq().take(it.index() + 1)
                =~= it.seq());
        }
    }
    v
}

/// Puts every item of `other` into `acc`.
pub fn union_into(acc: &mut BTreeSet<i32>, other: &BTreeSet<i32>)
    ensures
        final(acc)@ == old(acc)@.union(other@),
{
    let items = set_elements(other);
    let ghost start = acc@;
    let mut i: usize = 0;
    while i < items.len()
        invariant
            0 <= i <= items.len(),
            items@.to_set() == other@,
            acc@ == start.union(items@.take(i as int).to_set()),
        decreases items.len() - i,
    {
        acc.insert(items[i]);
        proof {
            lemma_push_to_set(items@.take(i as int), items@[i as int]);
            assert(items@.take(i + 1) =~= items@.take(i as int).push(items@[i as int]));
        }
        i += 1;
    }
    proof {
        assert(items@.take(i as int) =~= items@);
    }
}

/// Whether two sets hold the same items.
pub fn sets_equal(a: &BTreeSet<i32>, b: &BTreeSet<i32>) -> (same: bool)
    ensures
        same == (a@ == b@),
{
    let items = set_elements(a);
    let others = set_elements(b);
    if items.len() != others.len() {
        return false;
    }
    let mut i: usize = 0;
    while i < items.len()
        invariant
            0 <= i <= items.len(),
            items@.to_set() == a@,
            forall|k: int| 0 <= k < i ==> b@.contains(#[trigger] items@[k]),
        decreases items.len() - i,
    {
        if !b.contains(&items[i]) {
            proof {
                assert(items@.contains(items@[i as int]));
                assert(a@.contains(items@[i as int]));
            }
            return false;
        }
        i += 1;
    }
    proof {
        assert forall|x: i32| a@.contains(x) implies b@.contains(x) by {
            assert(items@.to_set().contains(x));
            let k = choose|k: int| 0 <= k < items@.len() && items@[k] == x;
            assert(b@.contains(items@[k]));
        }
        assert(a@.subset_of(b@));
        vstd::set_lib::lemma_subset_equality(a@, b@);
    }
    true
}

} // verus!
