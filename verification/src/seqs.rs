//! What holds of lists from which entries are dropped, and of lists joined.

use vstd::prelude::*;

verus! {

/// The ids that differ from `id`.
pub open spec fn other_than<Q>(id: Q) -> spec_fn(Q) -> bool {
    |c: Q| c != id
}

/// Two tests that agree on every element of `m` keep the same elements.
pub proof fn lemma_filter_agree<A>(m: Seq<A>, f: spec_fn(A) -> bool, g: spec_fn(A) -> bool)
    requires
        forall|j: int| 0 <= j < m.len() ==> f(#[trigger] m[j]) == g(m[j]),
    ensures
        m.filter(f) == m.filter(g),
    decreases m.len(),
{
    reveal(Seq::filter);
    if m.len() > 0 {
        assert forall|j: int| 0 <= j < m.drop_last().len() implies f(#[trigger] m.drop_last()[j])
            == g(m.drop_last()[j]) by {
            assert(m.drop_last()[j] == m[j]);
        }
        lemma_filter_agree(m.drop_last(), f, g);
        assert(m.last() == m[m.len() - 1]);
    }
}

/// A test that every element of `m` passes keeps all of `m`.
pub proof fn lemma_filter_all<A>(m: Seq<A>, f: spec_fn(A) -> bool)
    requires
        forall|j: int| 0 <= j < m.len() ==> f(#[trigger] m[j]),
    ensures
        m.filter(f) == m,
    decreases m.len(),
{
    reveal(Seq::filter);
    if m.len() > 0 {
        assert forall|j: int| 0 <= j < m.drop_last().len() implies f(#[trigger] m.drop_last()[j]) by {
            assert(m.drop_last()[j] == m[j]);
        }
        lemma_filter_all(m.drop_last(), f);
        assert(m.last() == m[m.len() - 1]);
        assert(m.drop_last().push(m.last()) =~= m);
    }
}

/// A test that all elements of `m` pass but the one at position `i` removes
/// that element.
pub proof fn lemma_filter_drops_one<A>(m: Seq<A>, f: spec_fn(A) -> bool, i: int)
    requires
        0 <= i < m.len(),
        forall|j: int| 0 <= j < m.len() ==> f(#[trigger] m[j]) == (j != i),
    ensures
        m.filter(f) == m.remove(i),
    decreases m.len(),
{
    reveal(Seq::filter);
    let rest = m.drop_last();
    let last = m.len() - 1;
    assert(m.last() == m[last]);
    assert forall|j: int| 0 <= j < rest.len() implies f(#[trigger] rest[j]) == (j != i) by {
        assert(rest[j] == m[j]);
    }
    if i == last {
        lemma_filter_all(rest, f);
        assert(m.remove(i) =~= rest);
    } else {
        lemma_filter_drops_one(rest, f, i);
        assert(rest.remove(i).push(m.last()) =~= m.remove(i));
    }
}

/// Striking an id from a list that holds it once, at position `w`, removes
/// that entry.
pub proof fn lemma_strike_one<Q>(kids: Seq<Q>, id: Q, w: int)
    requires
        kids.no_duplicates(),
        0 <= w < kids.len(),
        kids[w] == id,
    ensures
        kids.filter(other_than(id)) == kids.remove(w),
{
    assert forall|j: int| 0 <= j < kids.len() implies other_than(id)(#[trigger] kids[j]) == (j
        != w) by {}
    lemma_filter_drops_one(kids, other_than(id), w);
}

/// Striking an id from a list that does not hold it leaves the list.
pub proof fn lemma_strike_none<Q>(kids: Seq<Q>, id: Q)
    requires
        !kids.contains(id),
    ensures
        kids.filter(other_than(id)) == kids,
{
    assert forall|j: int| 0 <= j < kids.len() implies other_than(id)(#[trigger] kids[j]) by {}
    lemma_filter_all(kids, other_than(id));
}

/// Striking an id from a list without repetitions leaves a list without
/// repetitions that holds what the list held, but for the id.
pub proof fn lemma_struck<Q>(kids: Seq<Q>, id: Q)
    requires
        kids.no_duplicates(),
    ensures
        kids.filter(other_than(id)).no_duplicates(),
        !kids.filter(other_than(id)).contains(id),
        forall|x: Q| kids.filter(other_than(id)).contains(x) <==> kids.contains(x) && x != id,
{
    let f = kids.filter(other_than(id));
    if kids.contains(id) {
        let w = choose|w: int| 0 <= w < kids.len() && kids[w] == id;
        lemma_strike_one(kids, id, w);
        assert forall|a: int| 0 <= a < f.len() implies #[trigger] f[a] == kids[if a < w {
            a
        } else {
            a + 1
        }] by {}
        assert forall|x: Q| kids.contains(x) && x != id implies f.contains(x) by {
            let a0 = choose|a0: int| 0 <= a0 < kids.len() && kids[a0] == x;
            let a = if a0 < w { a0 } else { a0 - 1 };
            assert(f[a] == x);
        }
        assert forall|x: Q| f.contains(x) implies kids.contains(x) && x != id by {
            let a = choose|a: int| 0 <= a < f.len() && f[a] == x;
            let a0 = if a < w { a } else { a + 1 };
            assert(kids[a0] == x);
        }
        assert forall|a: int, b: int| 0 <= a < f.len() && 0 <= b < f.len() && a != b implies f[a]
            != f[b] by {
            let a0 = if a < w { a } else { a + 1 };
            let b0 = if b < w { b } else { b + 1 };
            assert(f[a] == kids[a0] && f[b] == kids[b0]);
        }
    } else {
        lemma_strike_none(kids, id);
    }
}

/// What two lists hold when one follows the other.
pub proof fn lemma_joined<A>(a: Seq<A>, b: Seq<A>)
    ensures
        forall|x: A| (a + b).contains(x) <==> a.contains(x) || b.contains(x),
        a.no_duplicates() && b.no_duplicates() && (forall|x: A| !(a.contains(x) && b.contains(x)))
            ==> (a + b).no_duplicates(),
{
    assert forall|x: A| (a + b).contains(x) <==> a.contains(x) || b.contains(x) by {
        if (a + b).contains(x) {
            let j = choose|j: int| 0 <= j < (a + b).len() && (a + b)[j] == x;
            if j < a.len() {
                assert(a[j] == x);
            } else {
                assert(b[j - a.len()] == x);
            }
        }
        if a.contains(x) {
            let j = choose|j: int| 0 <= j < a.len() && a[j] == x;
            assert((a + b)[j] == x);
        }
        if b.contains(x) {
            let j = choose|j: int| 0 <= j < b.len() && b[j] == x;
            assert((a + b)[a.len() + j] == x);
        }
    }
    if a.no_duplicates() && b.no_duplicates() && (forall|x: A| !(a.contains(x) && b.contains(x))) {
        assert forall|m: int, n: int|
            0 <= m < (a + b).len() && 0 <= n < (a + b).len() && m != n implies (a + b)[m] != (a
            + b)[n] by {
            if m < a.len() && n >= a.len() {
                assert(a.contains(a[m]) && b.contains(b[n - a.len()]));
            } else if n < a.len() && m >= a.len() {
                assert(a.contains(a[n]) && b.contains(b[m - a.len()]));
            }
        }
    }
}

/// Two lists without repetitions that hold the same entries are equally
/// long.
pub proof fn lemma_same_length<A>(a: Seq<A>, b: Seq<A>)
    requires
        a.no_duplicates(),
        b.no_duplicates(),
        forall|x: A| a.contains(x) <==> b.contains(x),
    ensures
        a.len() == b.len(),
{
    a.unique_seq_to_set();
    b.unique_seq_to_set();
    assert(a.to_set() =~= b.to_set());
}

} // verus!
