//! Sequences: what they contain, and sorting them.
use vstd::prelude::*;
use vstd::seq_lib::to_multiset_contains;

verus! {

/// Pushing adds one value to those that a sequence has.
pub(crate) proof fn lemma_push_contains<T>(s: Seq<T>, value: T, x: T)
    ensures
        s.push(value).contains(x) <==> s.contains(x) || x == value,
{
    if s.contains(x) {
        let i = choose|i: int| 0 <= i < s.len() && s[i] == x;
        assert(s.push(value)[i] == x);
    }
    assert(s.push(value)[s.len() as int] == value);
    if s.push(value).contains(x) && x != value {
        let i = choose|i: int| 0 <= i < s.push(value).len() && s.push(value)[i] == x;
        assert(s[i] == x);
    }
}

/// Every number is larger than the one before it.
pub open spec fn increasing(s: Seq<u64>) -> bool {
    forall|i: int, j: int| 0 <= i < j < s.len() ==> s[i] < s[j]
}

/// `sort_unstable` on a slice of integers: the same numbers, in ascending order.
#[verifier::external_body]
fn sort_unstable(v: &mut Vec<u64>)
    ensures
        final(v)@.to_multiset() == old(v)@.to_multiset(),
        forall|i: int, j: int| 0 <= i <= j < final(v)@.len() ==> final(v)@[i] <= final(v)@[j],
{
    v.sort_unstable();
}

/// The numbers of a list in ascending order, each of them once.
pub fn sorted_set(mut numbers: Vec<u64>) -> (r: Vec<u64>)
    ensures
        increasing(r@),
        forall|x: u64| #[trigger] r@.contains(x) <==> numbers@.contains(x),
{
    let ghost given = numbers@;
    sort_unstable(&mut numbers);
    assert forall|x: u64| #[trigger] numbers@.contains(x) <==> given.contains(x) by {
        to_multiset_contains(numbers@, x);
        to_multiset_contains(given, x);
    }
    let mut r: Vec<u64> = Vec::new();
    for i in 0..numbers.len()
        invariant
            forall|i: int, j: int| 0 <= i <= j < numbers@.len() ==> numbers@[i] <= numbers@[j],
            increasing(r@),
            r@.len() == 0 <==> i == 0,
            i > 0 ==> r@.last() == numbers@[i - 1],
            forall|k: int| 0 <= k < i ==> r@.contains(#[trigger] numbers@[k]),
            forall|k: int| 0 <= k < r@.len() ==> numbers@.contains(#[trigger] r@[k]),
    {
        let ghost before = r@;
        if r.len() == 0 || r[r.len() - 1] != numbers[i] {
            r.push(numbers[i]);
            assert(r@[before.len() as int] == numbers@[i as int]);
            assert forall|k: int| 0 <= k < i implies r@.contains(#[trigger] numbers@[k]) by {
                let j = choose|j: int| 0 <= j < before.len() && before[j] == numbers@[k];
                assert(r@[j] == numbers@[k]);
            }
        }
    }
    assert forall|x: u64| #[trigger] r@.contains(x) <==> given.contains(x) by {
        if r@.contains(x) {
            let k = choose|k: int| 0 <= k < r@.len() && r@[k] == x;
            assert(numbers@.contains(r@[k]));
        }
        if given.contains(x) {
            assert(numbers@.contains(x));
            let k = choose|k: int| 0 <= k < numbers@.len() && numbers@[k] == x;
            assert(r@.contains(numbers@[k]));
        }
    }
    r
}

/// Two increasing lists of the same numbers are the same list.
pub proof fn law_increasing_unique(a: Seq<u64>, b: Seq<u64>)
    requires
        increasing(a),
        increasing(b),
        forall|x: u64| #[trigger] a.contains(x) <==> b.contains(x),
    ensures
        a == b,
    decreases a.len(),
{
    if a.len() == 0 {
        if b.len() > 0 {
            assert(b.contains(b[0]) && a.contains(b[0]));
        }
    } else {
        assert(a.contains(a.last()));
        let i = choose|i: int| 0 <= i < b.len() && b[i] == a.last();
        assert(b.contains(b.last()));
        assert(a.contains(b.last()));
        let j = choose|j: int| 0 <= j < a.len() && a[j] == b.last();
        assert(a.last() == b.last());
        let c = a.drop_last();
        let d = b.drop_last();
        assert forall|x: u64| #[trigger] c.contains(x) <==> d.contains(x) by {
            if c.contains(x) {
                let k = choose|k: int| 0 <= k < c.len() && c[k] == x;
                assert(a[k] == x);
                assert(a.contains(x));
                let l = choose|l: int| 0 <= l < b.len() && b[l] == x;
                assert(d[l] == x);
            }
            if d.contains(x) {
                let k = choose|k: int| 0 <= k < d.len() && d[k] == x;
                assert(b[k] == x);
                assert(b.contains(x) && a.contains(x));
                let l = choose|l: int| 0 <= l < a.len() && a[l] == x;
                assert(c[l] == x);
            }
        }
        law_increasing_unique(c, d);
        assert(a =~= c.push(a.last()));
        assert(b =~= d.push(b.last()));
    }
}

} // verus!
