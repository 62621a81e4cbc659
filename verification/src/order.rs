//! Orders used by the report: ascending times, and the order of strings
//! (character by character, as `str`'s `Ord` orders them: UTF-8 byte order and
//! code point order agree).

use vstd::prelude::*;

use crate::clock::{is_not_after, not_after, Moment};

verus! {

broadcast use vstd::seq_lib::group_to_multiset_ensures;

/// Each time comes no later than the ones after it.
pub open spec fn ascending(s: Seq<Moment>) -> bool {
    forall|a: int, b: int| 0 <= a < b < s.len() ==> not_after(s[a], s[b])
}

proof fn lemma_insert_multiset(s: Seq<Moment>, p: int, x: Moment)
    requires
        0 <= p <= s.len(),
    ensures
        s.insert(p, x).to_multiset() =~= s.to_multiset().insert(x),
{
    let t = s.insert(p, x);
    s.insert_ensures(p, x);
    assert(t.remove(p) =~= s);
    assert(t.contains(x)) by {
        assert(t[p] == x);
    }
}

/// `times` in ascending order.
pub fn sort_times(times: Vec<Moment>) -> (sorted: Vec<Moment>)
    ensures
        ascending(sorted@),
        sorted@.to_multiset() =~= times@.to_multiset(),
{
    let mut sorted: Vec<Moment> = Vec::new();
    let mut i: usize = 0;
    while i < times.len()
        invariant
            i <= times.len(),
            ascending(sorted@),
            sorted@.to_multiset() =~= times@.take(i as int).to_multiset(),
        decreases times.len() - i,
    {
        let x = times[i];
        let mut p: usize = 0;
        while p < sorted.len() && is_not_after(sorted[p], x)
            invariant
                p <= sorted.len(),
                forall|k: int| 0 <= k < p ==> not_after(sorted@[k], x),
            decreases sorted.len() - p,
        {
            p = p + 1;
        }
        let ghost before = sorted@;
        proof {
            lemma_insert_multiset(before, p as int, x);
            before.insert_ensures(p as int, x);
            assert(times@.take(i + 1) =~= times@.take(i as int).push(x));
        }
        sorted.insert(p, x);
        assert forall|a: int, b: int| 0 <= a < b < sorted@.len() implies not_after(sorted@[a], sorted@[b]) by {
            if b < p {
            } else if b == p {
                assert(sorted@[a] == before[a]);
                assert(not_after(before[a], x));
            } else if a < p {
                assert(sorted@[b] == before[b - 1]);
                assert(sorted@[a] == before[a]);
            } else if a == p {
                assert(sorted@[b] == before[b - 1]);
                assert(!not_after(before[p as int], x));
                assert(not_after(before[p as int], before[b - 1]));
            } else {
                assert(sorted@[b] == before[b - 1]);
                assert(sorted@[a] == before[a - 1]);
            }
        }
        i = i + 1;
    }
    assert(times@.take(times.len() as int) =~= times@);
    sorted
}

/// `a` sorts strictly before `b`: at the first difference `a` has the smaller
/// character, or `a` is a proper prefix of `b`.
pub open spec fn text_lt(a: Seq<char>, b: Seq<char>) -> bool
    decreases a.len(),
{
    if a.len() == 0 {
        b.len() > 0
    } else if b.len() == 0 {
        false
    } else if a[0] != b[0] {
        (a[0] as int) < (b[0] as int)
    } else {
        text_lt(a.drop_first(), b.drop_first())
    }
}

pub proof fn lemma_text_lt_irreflexive(a: Seq<char>)
    ensures
        !text_lt(a, a),
    decreases a.len(),
{
    if a.len() > 0 {
        lemma_text_lt_irreflexive(a.drop_first());
    }
}

pub proof fn lemma_text_lt_transitive(a: Seq<char>, b: Seq<char>, c: Seq<char>)
    requires
        text_lt(a, b),
        text_lt(b, c),
    ensures
        text_lt(a, c),
    decreases a.len(),
{
    if a.len() > 0 && b.len() > 0 && c.len() > 0 && a[0] == b[0] && b[0] == c[0] {
        lemma_text_lt_transitive(a.drop_first(), b.drop_first(), c.drop_first());
    }
}

pub proof fn lemma_text_lt_total(a: Seq<char>, b: Seq<char>)
    ensures
        a == b || text_lt(a, b) || text_lt(b, a),
    decreases a.len(),
{
    if a.len() > 0 && b.len() > 0 {
        if a[0] == b[0] {
            lemma_text_lt_total(a.drop_first(), b.drop_first());
            if a.drop_first() == b.drop_first() {
                assert(a =~= seq![a[0]] + a.drop_first());
                assert(b =~= seq![b[0]] + b.drop_first());
            }
        } else {
            assert((a[0] as int) != (b[0] as int));
        }
    } else if a.len() == 0 && b.len() == 0 {
        assert(a =~= b);
    }
}

/// Whether `a` sorts strictly before `b`.
pub fn text_precedes(a: &Vec<char>, b: &Vec<char>) -> (r: bool)
    ensures
        r == text_lt(a@, b@),
{
    let mut i: usize = 0;
    proof {
        assert(a@.skip(0) =~= a@);
        assert(b@.skip(0) =~= b@);
    }
    while i < a.len() && i < b.len() && a[i] == b[i]
        invariant
            i <= a.len(),
            i <= b.len(),
            text_lt(a@, b@) == text_lt(a@.skip(i as int), b@.skip(i as int)),
        decreases a.len() - i,
    {
        proof {
            assert(a@.skip(i as int).drop_first() =~= a@.skip(i + 1));
            assert(b@.skip(i as int).drop_first() =~= b@.skip(i + 1));
        }
        i = i + 1;
    }
    if i == a.len() {
        i < b.len()
    } else if i == b.len() {
        false
    } else {
        assert(a@.skip(i as int)[0] == a@[i as int]);
        assert(b@.skip(i as int)[0] == b@[i as int]);
        a[i] < b[i]
    }
}

} // verus!
