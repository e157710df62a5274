//! Counting the occurrences of a value in sequences that hold the same
//! entries in another order.

use vstd::prelude::*;

verus! {

/// How often `v` occurs in `s`.
pub open spec fn occurrences<T>(s: Seq<T>, v: T) -> nat
    decreases s.len(),
{
    if s.len() == 0 {
        0
    } else {
        occurrences(s.drop_last(), v) + if s.last() == v {
            1nat
        } else {
            0nat
        }
    }
}

/// Taking an entry out takes one occurrence of it out.
pub proof fn lemma_occurrences_remove<T>(s: Seq<T>, at: int, v: T)
    requires
        0 <= at < s.len(),
    ensures
        occurrences(s, v) == occurrences(s.remove(at), v) + if s[at] == v {
            1nat
        } else {
            0nat
        },
    decreases s.len(),
{
    if at == s.len() - 1 {
        assert(s.remove(at) =~= s.drop_last());
    } else {
        let shorter = s.drop_last();
        lemma_occurrences_remove(shorter, at, v);
        assert(s.remove(at).drop_last() =~= shorter.remove(at));
        assert(s.remove(at).last() == s.last());
    }
}

/// Where each `v` in `a` has a place of its own in `b` that holds `v` too,
/// `b` holds `v` at least as often as `a`. `pi` gives the places.
pub proof fn lemma_occurrences_injection<T>(a: Seq<T>, b: Seq<T>, v: T, pi: spec_fn(int) -> int)
    requires
        forall|i: int|
            0 <= i < a.len() && a[i] == v ==> 0 <= #[trigger] pi(i) < b.len() && b[pi(i)] == v,
        forall|i: int, j: int|
            0 <= i < j < a.len() && a[i] == v && a[j] == v ==> #[trigger] pi(i) != #[trigger] pi(j),
    ensures
        occurrences(a, v) <= occurrences(b, v),
    decreases a.len(),
{
    if a.len() > 0 {
        let shorter = a.drop_last();
        let m = a.len() - 1;
        if a.last() == v {
            let at = pi(m);
            let rest = b.remove(at);
            let pi2 = |i: int|
                if pi(i) < at {
                    pi(i)
                } else {
                    pi(i) - 1
                };
            assert forall|i: int| 0 <= i < shorter.len() && shorter[i] == v implies 0 <= #[trigger] pi2(
                i,
            ) < rest.len() && rest[pi2(i)] == v by {
                assert(a[i] == v);
                assert(pi(i) != pi(m));
                assert(b[pi(i)] == v);
            }
            assert forall|i: int, j: int|
                0 <= i < j < shorter.len() && shorter[i] == v && shorter[j] == v implies #[trigger] pi2(
                i,
            ) != #[trigger] pi2(j) by {
                assert(a[i] == v && a[j] == v);
                assert(pi(i) != pi(j));
                assert(pi(i) != pi(m));
                assert(pi(j) != pi(m));
            }
            lemma_occurrences_injection(shorter, rest, v, pi2);
            lemma_occurrences_remove(b, at, v);
        } else {
            assert forall|i: int| 0 <= i < shorter.len() && shorter[i] == v implies 0 <= #[trigger] pi(
                i,
            ) < b.len() && b[pi(i)] == v by {
                assert(a[i] == v);
            }
            assert forall|i: int, j: int|
                0 <= i < j < shorter.len() && shorter[i] == v && shorter[j] == v implies #[trigger] pi(
                i,
            ) != #[trigger] pi(j) by {
                assert(a[i] == v && a[j] == v);
            }
            lemma_occurrences_injection(shorter, b, v, pi);
        }
    }
}

/// The multiset of a sequence counts the occurrences.
pub proof fn lemma_occurrences_multiset<T>(s: Seq<T>, v: T)
    ensures
        s.to_multiset().count(v) == occurrences(s, v),
    decreases s.len(),
{
    broadcast use vstd::seq_lib::group_to_multiset_ensures;

    if s.len() == 0 {
        assert(s.to_multiset().len() == 0);
        if s.to_multiset().count(v) > 0 {
            assert(s.contains(v));
        }
    } else {
        let shorter = s.drop_last();
        lemma_occurrences_multiset(shorter, v);
        assert(shorter.push(s.last()) =~= s);
        assert(s.to_multiset() =~= shorter.to_multiset().insert(s.last()));
    }
}

/// Sequences in which every value occurs equally often have one multiset.
pub proof fn lemma_same_occurrences<T>(a: Seq<T>, b: Seq<T>)
    requires
        forall|v: T| occurrences(a, v) == occurrences(b, v),
    ensures
        a.to_multiset() == b.to_multiset(),
{
    assert forall|v: T| a.to_multiset().count(v) == b.to_multiset().count(v) by {
        lemma_occurrences_multiset(a, v);
        lemma_occurrences_multiset(b, v);
    }
    assert(a.to_multiset() =~= b.to_multiset());
}

} // verus!
