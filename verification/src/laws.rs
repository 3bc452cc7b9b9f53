//! What holds of the operations on a tree, proved from their models.

use vstd::prelude::*;
use crate::node::NodeModel;
use crate::store::{
    is_first, present, slot, node_of, has_root, root_slot, is_first_root, acyclic, rank,
    ranks_down, children_present, grounded, up_rank, ranks_up, distinct_ids,
    no_repeated_children, linked, at_most_one_root, one_root, forest, well_formed, attach, apart,
    lemma_absent, lemma_has_from_any, lemma_root_from_any, lemma_distinct_slot,
};
use crate::metrics::{height, tallest, depth};
use crate::removal::{outside, detached, adopted, lifted, pruned, removable};
use crate::seqs::{
    other_than, lemma_filter_agree, lemma_filter_all, lemma_filter_drops_one, lemma_struck,
    lemma_joined,
};
use crate::descent::{under, law_subtree_members, lemma_below_once, lemma_below_under};
use crate::tree::NodeRemovalStrategy;
use crate::subtree::{below, all_present, grafted};

verus! {
/// A node without children has height 0.
pub proof fn law_leaf_height<Q, T>(s: Seq<NodeModel<Q, T>>, id: Q)
    requires
        node_of(s, id).children.len() == 0,
    ensures
        height(s, id) == 0,
{
}

/// The height of a node with children is one more than the greatest height
/// among them: it is one more than the height of some child, and more than
/// the height of every child.
pub proof fn law_height_over_children<Q, T>(s: Seq<NodeModel<Q, T>>, id: Q)
    requires
        acyclic(s),
        present(s, id),
        node_of(s, id).children.len() > 0,
    ensures
        exists|k: int|
            0 <= k < node_of(s, id).children.len() && height(s, id) == 1 + height(
                s,
                #[trigger] node_of(s, id).children[k],
            ),
        forall|k: int|
            0 <= k < node_of(s, id).children.len() ==> height(s, id) >= 1 + height(
                s,
                #[trigger] node_of(s, id).children[k],
            ),
{
    lemma_tallest_is_max(s, id, node_of(s, id).children.len());
}

/// The greatest over the first `n` children is reached by one of them and
/// bounds each of them.
pub proof fn lemma_tallest_is_max<Q, T>(s: Seq<NodeModel<Q, T>>, id: Q, n: nat)
    requires
        acyclic(s),
        present(s, id),
        0 < n <= node_of(s, id).children.len(),
    ensures
        exists|k: int|
            0 <= k < n && tallest(s, id, n) == 1 + height(
                s,
                #[trigger] node_of(s, id).children[k],
            ),
        forall|k: int|
            0 <= k < n ==> tallest(s, id, n) >= 1 + height(
                s,
                #[trigger] node_of(s, id).children[k],
            ),
    decreases n,
{
    let kids = node_of(s, id).children;
    if n == 1 {
        assert(tallest(s, id, 0) == 0);
        assert(tallest(s, id, 1) == 1 + height(s, kids[0]));
    } else {
        lemma_tallest_is_max(s, id, (n - 1) as nat);
        let prev = choose|k: int|
            0 <= k < n - 1 && tallest(s, id, (n - 1) as nat) == 1 + height(s, #[trigger] kids[k]);
        if 1 + height(s, kids[n - 1]) > tallest(s, id, (n - 1) as nat) {
            assert(tallest(s, id, n) == 1 + height(s, kids[n - 1]));
        } else {
            assert(tallest(s, id, n) == 1 + height(s, kids[prev]));
        }
    }
}

/// A node without parent has depth 0.
pub proof fn law_root_depth<Q, T>(s: Seq<NodeModel<Q, T>>, id: Q)
    requires
        node_of(s, id).parent.is_none(),
    ensures
        depth(s, id) == 0,
{
}

/// A node is one deeper than the parent that it names.
pub proof fn law_depth_step<Q, T>(s: Seq<NodeModel<Q, T>>, id: Q)
    requires
        grounded(s),
        present(s, id),
        node_of(s, id).parent.is_some(),
    ensures
        depth(s, id) == depth(s, node_of(s, id).parent.unwrap()) + 1,
{
}

/// A lookup that succeeds in `s` ends at the same position in every store
/// that begins with nodes of the same ids.
pub proof fn lemma_lookup_extends<Q, T>(s: Seq<NodeModel<Q, T>>, t: Seq<NodeModel<Q, T>>, q: Q)
    requires
        s.len() <= t.len(),
        forall|j: int| 0 <= j < s.len() ==> (#[trigger] t[j]).id == s[j].id,
        present(s, q),
    ensures
        present(t, q),
        slot(t, q) == slot(s, q),
        is_first(t, q, slot(s, q)),
{
    let i = slot(s, q);
    assert(is_first(s, q, i));
    assert forall|j: int| 0 <= j < i implies (#[trigger] t[j]).id != q by {
        assert(s[j].id != q);
    }
    assert(is_first(t, q, i));
}

/// Adding a new node without children below a node of a tree leaves a tree.
pub proof fn law_attach_well_formed<Q, T>(s: Seq<NodeModel<Q, T>>, n: NodeModel<Q, T>, p: Q)
    requires
        well_formed(s),
        present(s, p),
        !present(s, n.id),
        n.children.len() == 0,
    ensures
        well_formed(attach(s, n, p)),
{
    let t = attach(s, n, p);
    let pi = slot(s, p);
    let last = s.len() as int;
    lemma_absent(s, n.id);
    assert(is_first(s, p, pi));
    assert(t.len() == s.len() + 1);
    assert forall|j: int| 0 <= j < s.len() implies (#[trigger] t[j]).id == s[j].id && t[j].parent
        == s[j].parent && (j != pi ==> t[j].children == s[j].children) by {}
    assert(t[pi].children == s[pi].children.push(n.id));
    assert(t[last].id == n.id && t[last].parent == Some(p) && t[last].children.len() == 0);
    assert(is_first(t, n.id, last));
    assert forall|q: Q| present(s, q) implies present(t, q) && slot(t, q) == slot(s, q) by {
        lemma_lookup_extends(s, t, q);
    }
    // No node of `s` lists the new id, since every listed child is in `s`.
    assert forall|i: int, k: int| 0 <= i < s.len() && 0 <= k < s[i].children.len() implies (
    #[trigger] s[i].children[k]) != n.id by {}
    assert(distinct_ids(t));
    assert(no_repeated_children(t)) by {
        assert forall|i: int| 0 <= i < t.len() implies (#[trigger] t[i]).children.no_duplicates() by {
            if i == pi {
                assert(s[pi].children.no_duplicates());
            } else if i < s.len() {
                assert(s[i].children.no_duplicates());
            }
        }
    }
    assert(linked(t)) by {
        assert forall|j: int| 0 <= j < t.len() && (#[trigger] t[j]).parent.is_some() implies present(
            t,
            t[j].parent.unwrap(),
        ) && node_of(t, t[j].parent.unwrap()).children.contains(t[j].id) by {
            if j < s.len() {
                let q = s[j].parent.unwrap();
                assert(present(s, q));
                let qi = slot(s, q);
                assert(is_first(s, q, qi));
                let w = choose|w: int| 0 <= w < s[qi].children.len() && s[qi].children[w] == s[j].id;
                assert(t[qi].children[w] == s[j].id);
            } else {
                assert(t[pi].children[s[pi].children.len() as int] == n.id);
            }
        }
        assert forall|i: int, k: int| 0 <= i < t.len() && 0 <= k < t[i].children.len() implies present(
            t,
            #[trigger] t[i].children[k],
        ) && node_of(t, t[i].children[k]).parent == Some(t[i].id) by {
            if i == pi && k == s[pi].children.len() {
                assert(t[i].children[k] == n.id);
            } else {
                let c = s[i].children[k];
                assert(t[i].children[k] == c);
                assert(present(s, c));
                assert(is_first(s, c, slot(s, c)));
            }
        }
    }
    assert(acyclic(t)) by {
        let r = |q: Q| if q == n.id { 0nat } else { rank(s, q) + 1 };
        assert(ranks_down(s, |q: Q| rank(s, q)));
        assert forall|i: int, k: int| 0 <= i < t.len() && 0 <= k < t[i].children.len() implies r(
            #[trigger] t[i].children[k],
        ) < r(t[i].id) by {
            if i == pi && k == s[pi].children.len() {
                assert(t[i].children[k] == n.id);
            } else {
                assert(t[i].children[k] == s[i].children[k]);
                assert(rank(s, s[i].children[k]) < rank(s, s[i].id));
            }
        }
        assert(ranks_down(t, r));
    }
    assert(grounded(t)) by {
        let u = |q: Q| if q == n.id { up_rank(s, p) + 1 } else { up_rank(s, q) };
        assert(ranks_up(s, |q: Q| up_rank(s, q)));
        assert forall|j: int| 0 <= j < t.len() && (#[trigger] t[j]).parent.is_some() implies u(
            t[j].parent.unwrap(),
        ) < u(t[j].id) by {
            if j < s.len() {
                assert(s[j].parent.is_some());
                assert(present(s, s[j].parent.unwrap()));
                assert(up_rank(s, s[j].parent.unwrap()) < up_rank(s, s[j].id));
            }
        }
        assert(ranks_up(t, u));
    }
    assert(at_most_one_root(t)) by {
        assert forall|i: int, j: int|
            0 <= i < t.len() && 0 <= j < t.len() && (#[trigger] t[i]).parent.is_none() && (
            #[trigger] t[j]).parent.is_none() implies i == j by {
            assert(s[i].parent.is_none() && s[j].parent.is_none());
        }
    }
}

/// The store without nodes is a tree.
pub proof fn law_empty_well_formed<Q, T>()
    ensures
        well_formed(Seq::<NodeModel<Q, T>>::empty()),
{
    let s = Seq::<NodeModel<Q, T>>::empty();
    let r = |q: Q| 0nat;
    assert(ranks_down(s, r));
    assert(ranks_up(s, r));
}

/// Adding a new node without parent and children to a tree in which every
/// node has a parent leaves a tree, and the new node is its one root.
pub proof fn law_root_well_formed<Q, T>(s: Seq<NodeModel<Q, T>>, n: NodeModel<Q, T>)
    requires
        well_formed(s),
        !has_root(s),
        !present(s, n.id),
        n.children.len() == 0,
        n.parent.is_none(),
    ensures
        well_formed(s.push(n)),
        one_root(s.push(n)),
        root_slot(s.push(n)) == s.len(),
{
    let t = s.push(n);
    let last = s.len() as int;
    lemma_absent(s, n.id);
    assert forall|j: int| 0 <= j < s.len() implies (#[trigger] s[j]).parent.is_some() by {
        if s[j].parent.is_none() {
            lemma_root_from_any(s, j);
        }
    }
    assert forall|q: Q| present(s, q) implies present(t, q) && slot(t, q) == slot(s, q) by {
        lemma_lookup_extends(s, t, q);
    }
    assert(is_first_root(t, last));
    assert(distinct_ids(t));
    assert(no_repeated_children(t)) by {
        assert forall|i: int| 0 <= i < t.len() implies (#[trigger] t[i]).children.no_duplicates() by {
            if i < s.len() {
                assert(s[i].children.no_duplicates());
            }
        }
    }
    assert(linked(t)) by {
        assert forall|j: int| 0 <= j < t.len() && (#[trigger] t[j]).parent.is_some() implies present(
            t,
            t[j].parent.unwrap(),
        ) && node_of(t, t[j].parent.unwrap()).children.contains(t[j].id) by {
            let q = s[j].parent.unwrap();
            assert(present(s, q));
            assert(is_first(s, q, slot(s, q)));
        }
        assert forall|i: int, k: int| 0 <= i < t.len() && 0 <= k < t[i].children.len() implies present(
            t,
            #[trigger] t[i].children[k],
        ) && node_of(t, t[i].children[k]).parent == Some(t[i].id) by {
            let c = s[i].children[k];
            assert(present(s, c));
            assert(is_first(s, c, slot(s, c)));
        }
    }
    assert(acyclic(t)) by {
        let r = |q: Q| rank(s, q);
        assert(ranks_down(s, r));
        assert forall|i: int, k: int| 0 <= i < t.len() && 0 <= k < t[i].children.len() implies r(
            #[trigger] t[i].children[k],
        ) < r(t[i].id) by {
            assert(t[i].children[k] == s[i].children[k]);
        }
        assert(ranks_down(t, r));
    }
    assert(grounded(t)) by {
        let u = |q: Q| up_rank(s, q);
        assert(ranks_up(s, u));
        assert forall|j: int| 0 <= j < t.len() && (#[trigger] t[j]).parent.is_some() implies u(
            t[j].parent.unwrap(),
        ) < u(t[j].id) by {
            assert(s[j].parent.is_some());
        }
        assert(ranks_up(t, u));
    }
    assert(at_most_one_root(t)) by {
        assert forall|i: int, j: int|
            0 <= i < t.len() && 0 <= j < t.len() && (#[trigger] t[i]).parent.is_none() && (
            #[trigger] t[j]).parent.is_none() implies i == j by {
            if i < s.len() {
                assert(s[i].parent.is_some());
            }
            if j < s.len() {
                assert(s[j].parent.is_some());
            }
        }
    }
}

/// A store with exactly one root keeps it, at its position, when a node is
/// added below a node of the store.
pub proof fn law_attach_keeps_root<Q, T>(s: Seq<NodeModel<Q, T>>, n: NodeModel<Q, T>, p: Q)
    requires
        one_root(s),
        present(s, p),
    ensures
        one_root(attach(s, n, p)),
        root_slot(attach(s, n, p)) == root_slot(s),
{
    let t = attach(s, n, p);
    let i = root_slot(s);
    assert(is_first_root(s, i));
    assert forall|j: int| 0 <= j < s.len() implies (#[trigger] t[j]).parent == s[j].parent by {}
    assert(is_first_root(t, i));
    assert forall|a: int, b: int|
        0 <= a < t.len() && 0 <= b < t.len() && (#[trigger] t[a]).parent.is_none() && (
        #[trigger] t[b]).parent.is_none() implies a == b by {
        assert(s[a].parent.is_none() && s[b].parent.is_none());
    }
}

/// Dropping the nodes with one id from a store with distinct ids removes the
/// one node that has it.
pub proof fn lemma_filter_one<Q, T>(m: Seq<NodeModel<Q, T>>, id: Q, i: int)
    requires
        distinct_ids(m),
        0 <= i < m.len(),
        m[i].id == id,
    ensures
        m.filter(outside(seq![id])) == m.remove(i),
{
    let keep = outside::<Q, T>(seq![id]);
    assert(seq![id][0] == id);
    assert forall|j: int| 0 <= j < m.len() implies keep(#[trigger] m[j]) == (j != i) by {
        if j != i {
            assert(m[j].id != m[i].id);
        }
    }
    lemma_filter_drops_one(m, keep, i);
}

/// What is left when the nodes with the ids `ids` are dropped from a store
/// with distinct ids: the ids stay distinct, and a lookup finds what it found
/// before, unless the id is one of `ids`.
pub proof fn lemma_discard_lookup<Q, T>(m: Seq<NodeModel<Q, T>>, ids: Seq<Q>)
    requires
        distinct_ids(m),
    ensures
        distinct_ids(m.filter(outside(ids))),
        forall|j: int|
            0 <= j < m.filter(outside(ids)).len() ==> present(
                m,
                (#[trigger] m.filter(outside(ids))[j]).id,
            ) && !ids.contains(m.filter(outside(ids))[j].id) && m.filter(outside(ids))[j]
                == node_of(m, m.filter(outside(ids))[j].id),
        forall|x: Q|
            present(m, x) && !ids.contains(x) ==> present(m.filter(outside(ids)), x) && node_of(
                m.filter(outside(ids)),
                x,
            ) == node_of(m, x),
        forall|x: Q| present(m.filter(outside(ids)), x) ==> present(m, x) && !ids.contains(x),
    decreases m.len(),
{
    reveal(Seq::filter);
    let keep = outside::<Q, T>(ids);
    let f = m.filter(keep);
    if m.len() > 0 {
        let rest = m.drop_last();
        let x0 = m.last();
        let last = m.len() - 1;
        let g = rest.filter(keep);
        assert(x0 == m[last]);
        assert(distinct_ids(rest)) by {
            assert forall|a: int, b: int| 0 <= a < b < rest.len() implies (#[trigger] rest[a]).id != (
            #[trigger] rest[b]).id by {
                assert(rest[a] == m[a] && rest[b] == m[b]);
            }
        }
        lemma_discard_lookup(rest, ids);
        // What a lookup finds in `rest` it finds in `m`.
        assert forall|x: Q| present(rest, x) implies present(m, x) && node_of(m, x) == node_of(
            rest,
            x,
        ) && x != x0.id by {
            let at = slot(rest, x);
            assert(is_first(rest, x, at));
            assert(m[at] == rest[at]);
            lemma_distinct_slot(m, at);
            assert(m[at].id != m[last].id);
        }
        assert forall|j: int| 0 <= j < g.len() implies (#[trigger] g[j]).id != x0.id by {
            assert(present(rest, g[j].id));
        }
        assert forall|j: int| 0 <= j < f.len() implies present(m, (#[trigger] f[j]).id)
            && !ids.contains(f[j].id) && f[j] == node_of(m, f[j].id) by {
            if j < g.len() {
                assert(f[j] == g[j]);
                assert(present(rest, g[j].id));
            } else {
                assert(f[j] == x0);
                lemma_distinct_slot(m, last);
            }
        }
        assert(distinct_ids(f)) by {
            assert forall|a: int, b: int| 0 <= a < b < f.len() implies (#[trigger] f[a]).id != (
            #[trigger] f[b]).id by {
                if b < g.len() {
                    assert(f[a] == g[a] && f[b] == g[b]);
                } else {
                    assert(f[a] == g[a]);
                }
            }
        }
        assert forall|x: Q| present(m, x) && !ids.contains(x) implies present(f, x) && node_of(f, x)
            == node_of(m, x) by {
            let at = slot(m, x);
            assert(is_first(m, x, at));
            if at == last {
                assert(f == g.push(x0));
                assert(f[g.len() as int] == x0);
                lemma_distinct_slot(f, g.len() as int);
                lemma_distinct_slot(m, last);
            } else {
                assert(rest[at] == m[at]);
                lemma_has_from_any(rest, x, at);
                assert(present(g, x));
                let w = slot(g, x);
                assert(is_first(g, x, w));
                assert(f[w] == g[w]);
                lemma_distinct_slot(f, w);
            }
        }
        assert forall|x: Q| present(f, x) implies present(m, x) && !ids.contains(x) by {
            let w = slot(f, x);
            assert(is_first(f, x, w));
            assert(present(m, f[w].id));
        }
    }
}

/// Dropping from a store with distinct ids the nodes with the ids `ids`, all
/// of them different and in the store, leaves as many nodes fewer as there
/// are ids.
pub proof fn lemma_discard_count<Q, T>(m: Seq<NodeModel<Q, T>>, ids: Seq<Q>)
    requires
        distinct_ids(m),
        ids.no_duplicates(),
        all_present(m, ids),
    ensures
        m.filter(outside(ids)).len() == m.len() - ids.len(),
    decreases m.len(),
{
    reveal(Seq::filter);
    if m.len() == 0 {
        if ids.len() > 0 {
            assert(present(m, ids[0]));
            assert(is_first(m, ids[0], slot(m, ids[0])));
        }
    } else {
        let rest = m.drop_last();
        let x = m.last();
        let last = m.len() - 1;
        assert(x == m[last]);
        assert(distinct_ids(rest)) by {
            assert forall|a: int, b: int| 0 <= a < b < rest.len() implies (#[trigger] rest[a]).id != (
            #[trigger] rest[b]).id by {
                assert(rest[a] == m[a] && rest[b] == m[b]);
            }
        }
        if ids.contains(x.id) {
            let w = choose|w: int| 0 <= w < ids.len() && ids[w] == x.id;
            let fewer = ids.remove(w);
            assert(fewer.no_duplicates()) by {
                assert forall|a: int, b: int|
                    0 <= a < fewer.len() && 0 <= b < fewer.len() && a != b implies fewer[a]
                    != fewer[b] by {
                    let a0 = if a < w { a } else { a + 1 };
                    let b0 = if b < w { b } else { b + 1 };
                    assert(fewer[a] == ids[a0] && fewer[b] == ids[b0]);
                }
            }
            assert(all_present(rest, fewer)) by {
                assert forall|a: int| 0 <= a < fewer.len() implies present(
                    rest,
                    #[trigger] fewer[a],
                ) by {
                    let a0 = if a < w { a } else { a + 1 };
                    assert(fewer[a] == ids[a0]);
                    assert(present(m, ids[a0]));
                    let at = slot(m, ids[a0]);
                    assert(is_first(m, ids[a0], at));
                    assert(at != last);
                    assert(rest[at] == m[at]);
                    assert forall|j: int| 0 <= j < at implies (#[trigger] rest[j]).id
                        != ids[a0] by {
                        assert(rest[j] == m[j]);
                    }
                    assert(is_first(rest, ids[a0], at));
                }
            }
            assert forall|j: int| 0 <= j < rest.len() implies outside::<Q, T>(ids)(
                #[trigger] rest[j],
            ) == outside::<Q, T>(fewer)(rest[j]) by {
                assert(rest[j] == m[j]);
                assert(m[j].id != m[last].id);
                let q = rest[j].id;
                if ids.contains(q) {
                    let a0 = choose|a0: int| 0 <= a0 < ids.len() && ids[a0] == q;
                    let a = if a0 < w { a0 } else { a0 - 1 };
                    assert(fewer[a] == q);
                }
                if fewer.contains(q) {
                    let a = choose|a: int| 0 <= a < fewer.len() && fewer[a] == q;
                    let a0 = if a < w { a } else { a + 1 };
                    assert(ids[a0] == q);
                }
            }
            lemma_filter_agree(rest, outside(ids), outside(fewer));
            lemma_discard_count(rest, fewer);
        } else {
            assert(all_present(rest, ids)) by {
                assert forall|a: int| 0 <= a < ids.len() implies present(rest, #[trigger] ids[a]) by {
                    assert(present(m, ids[a]));
                    let at = slot(m, ids[a]);
                    assert(is_first(m, ids[a], at));
                    assert(at != last);
                    assert(rest[at] == m[at]);
                    assert forall|j: int| 0 <= j < at implies (#[trigger] rest[j]).id != ids[a] by {
                        assert(rest[j] == m[j]);
                    }
                    assert(is_first(rest, ids[a], at));
                }
            }
            lemma_discard_count(rest, ids);
        }
    }
}

/// Every node of a forest can be removed, with either strategy.
pub proof fn law_forest_removable<Q, T>(
    s: Seq<NodeModel<Q, T>>,
    id: Q,
    strategy: NodeRemovalStrategy,
)
    requires
        forest(s),
        present(s, id),
    ensures
        removable(s, id, strategy),
{
    let i = slot(s, id);
    assert(is_first(s, id, i));
    lemma_below_once(s, id);
    assert(children_present(s));
    if s[i].parent.is_some() {
        assert(ranks_up(s, |q: Q| up_rank(s, q)));
        assert(up_rank(s, s[i].parent.unwrap()) < up_rank(s, s[i].id));
    }
    assert(all_present(s, s[i].children)) by {
        assert forall|k: int| 0 <= k < s[i].children.len() implies present(
            s,
            #[trigger] s[i].children[k],
        ) by {}
    }
}

/// The store with a node struck from the children of its parent has the ids
/// and parents of the store it came from.
pub proof fn lemma_detached_frame<Q, T>(s: Seq<NodeModel<Q, T>>, id: Q)
    requires
        present(s, id),
        node_of(s, id).parent.is_some() ==> present(s, node_of(s, id).parent.unwrap()),
    ensures
        detached(s, id).len() == s.len(),
        forall|j: int|
            0 <= j < s.len() ==> (#[trigger] detached(s, id)[j]).id == s[j].id && detached(
                s,
                id,
            )[j].parent == s[j].parent && detached(s, id)[j].value == s[j].value,
        forall|x: Q| present(s, x) <==> present(detached(s, id), x),
        forall|x: Q| present(s, x) ==> slot(detached(s, id), x) == slot(s, x),
        distinct_ids(s) ==> distinct_ids(detached(s, id)),
        forall|j: int|
            0 <= j < s.len() ==> (#[trigger] detached(s, id)[j]).children == (if node_of(
                s,
                id,
            ).parent.is_some() && j == slot(s, node_of(s, id).parent.unwrap()) {
                s[j].children.filter(other_than(id))
            } else {
                s[j].children
            }),
{
    let d = detached(s, id);
    if node_of(s, id).parent.is_some() {
        assert(is_first(s, node_of(s, id).parent.unwrap(), slot(s, node_of(s, id).parent.unwrap())));
    }
    assert forall|j: int| 0 <= j < s.len() implies (#[trigger] d[j]).id == s[j].id && d[j].parent
        == s[j].parent && d[j].value == s[j].value by {}
    assert forall|x: Q| present(s, x) implies present(d, x) && slot(d, x) == slot(s, x) by {
        lemma_lookup_extends(s, d, x);
    }
    assert forall|x: Q| present(d, x) implies present(s, x) by {
        assert forall|j: int| 0 <= j < d.len() implies (#[trigger] s[j]).id == d[j].id by {}
        lemma_lookup_extends(d, s, x);
    }
    if distinct_ids(s) {
        assert forall|a: int, b: int| 0 <= a < b < d.len() implies (#[trigger] d[a]).id != (
        #[trigger] d[b]).id by {
            assert(s[a].id != s[b].id);
        }
    }
}

/// Removing a node of a forest with everything below it leaves as many nodes
/// fewer as the node's subtree has, and the nodes that are left are those
/// that did not lie below the node.
pub proof fn law_prune_size<Q, T>(s: Seq<NodeModel<Q, T>>, id: Q)
    requires
        forest(s),
        present(s, id),
    ensures
        pruned(s, id).len() == s.len() - below(s, id).len(),
        forall|x: Q| present(pruned(s, id), x) <==> present(s, x) && !under(s, x, id),
{
    let d = detached(s, id);
    let gone = below(s, id);
    law_forest_removable(s, id, NodeRemovalStrategy::RemoveNodeAndChildren);
    lemma_detached_frame(s, id);
    law_subtree_members(s, id);
    assert(all_present(d, gone)) by {
        assert forall|j: int| 0 <= j < gone.len() implies present(d, #[trigger] gone[j]) by {
            lemma_below_under(s, id, gone[j]);
            assert(present(s, gone[j]));
        }
    }
    lemma_discard_count(d, gone);
    lemma_discard_lookup(d, gone);
}

/// The store in which the children of a node have moved up to its parent,
/// before the node itself is dropped.
pub open spec fn raised<Q, T>(s: Seq<NodeModel<Q, T>>, id: Q) -> Seq<NodeModel<Q, T>> {
    let node = node_of(s, id);
    let p = node.parent.unwrap();
    let moved = adopted(s, node.children, p);
    moved.update(
        slot(s, p),
        NodeModel {
            children: s[slot(s, p)].children.filter(other_than(id)) + node.children,
            ..moved[slot(s, p)]
        },
    )
}

/// What the store is like once the children of a node of a forest have moved
/// up: ids and payloads are as before, the children name the parent of the
/// node, that parent lists them behind its other children, and all else is
/// as it was.
pub proof fn lemma_raised_frame<Q, T>(s: Seq<NodeModel<Q, T>>, id: Q)
    requires
        forest(s),
        present(s, id),
        node_of(s, id).parent.is_some(),
    ensures
        raised(s, id).len() == s.len(),
        lifted(s, id) == raised(s, id).remove(slot(s, id)),
        lifted(s, id) == raised(s, id).filter(outside(seq![id])),
        distinct_ids(raised(s, id)),
        forall|j: int|
            0 <= j < s.len() ==> (#[trigger] raised(s, id)[j]).id == s[j].id && raised(
                s,
                id,
            )[j].value == s[j].value,
        forall|j: int|
            0 <= j < s.len() ==> (#[trigger] raised(s, id)[j]).parent == (if node_of(
                s,
                id,
            ).children.contains(s[j].id) {
                node_of(s, id).parent
            } else {
                s[j].parent
            }),
        forall|j: int|
            0 <= j < s.len() && j != slot(s, node_of(s, id).parent.unwrap()) ==> (
            #[trigger] raised(s, id)[j]).children == s[j].children,
        raised(s, id)[slot(s, node_of(s, id).parent.unwrap())].children == node_of(
            s,
            node_of(s, id).parent.unwrap(),
        ).children.filter(other_than(id)) + node_of(s, id).children,
        forall|x: Q| present(s, x) <==> present(raised(s, id), x),
        forall|x: Q| present(s, x) ==> slot(raised(s, id), x) == slot(s, x),
{
    let i = slot(s, id);
    assert(is_first(s, id, i));
    let node = s[i];
    let p = node.parent.unwrap();
    let pi = slot(s, p);
    assert(present(s, p));
    assert(is_first(s, p, pi));
    let m = raised(s, id);
    assert(m.len() == s.len());
    assert forall|j: int| 0 <= j < s.len() implies (#[trigger] m[j]).id == s[j].id && m[j].value
        == s[j].value by {}
    assert forall|j: int| 0 <= j < s.len() implies (#[trigger] m[j]).parent == (if node.children.contains(
        s[j].id,
    ) {
        node.parent
    } else {
        s[j].parent
    }) by {
        lemma_distinct_slot(s, j);
    }
    assert forall|a: int, b: int| 0 <= a < b < m.len() implies (#[trigger] m[a]).id != (
    #[trigger] m[b]).id by {
        assert(s[a].id != s[b].id);
    }
    lemma_filter_one(m, id, i);
    assert forall|x: Q| present(s, x) implies present(m, x) && slot(m, x) == slot(s, x) by {
        lemma_lookup_extends(s, m, x);
    }
    assert forall|x: Q| present(m, x) implies present(s, x) by {
        assert forall|j: int| 0 <= j < m.len() implies (#[trigger] s[j]).id == m[j].id by {}
        lemma_lookup_extends(m, s, x);
    }
}

/// Removing a node of a forest that has a parent, and keeping its children,
/// leaves one node fewer: the node is gone, its parent lists the children of
/// the node, in their order, behind its own other children, each of those
/// children names that parent, and every other node is as it was.
pub proof fn law_retain_children<Q, T>(s: Seq<NodeModel<Q, T>>, id: Q)
    requires
        forest(s),
        present(s, id),
        node_of(s, id).parent.is_some(),
    ensures
        lifted(s, id).len() == s.len() - 1,
        !present(lifted(s, id), id),
        forall|x: Q| x != id ==> (present(s, x) <==> present(lifted(s, id), x)),
        node_of(lifted(s, id), node_of(s, id).parent.unwrap()).children == node_of(
            s,
            node_of(s, id).parent.unwrap(),
        ).children.filter(other_than(id)) + node_of(s, id).children,
        forall|k: int|
            0 <= k < node_of(s, id).children.len() ==> node_of(
                lifted(s, id),
                #[trigger] node_of(s, id).children[k],
            ).parent == node_of(s, id).parent,
        forall|x: Q|
            present(s, x) && x != id && x != node_of(s, id).parent.unwrap() && !node_of(
                s,
                id,
            ).children.contains(x) ==> node_of(lifted(s, id), x) == node_of(s, x),
{
    let i = slot(s, id);
    assert(is_first(s, id, i));
    let node = s[i];
    let p = node.parent.unwrap();
    let pi = slot(s, p);
    assert(present(s, p));
    assert(is_first(s, p, pi));
    assert(ranks_up(s, |q: Q| up_rank(s, q)));
    assert(up_rank(s, s[i].parent.unwrap()) < up_rank(s, s[i].id));
    assert(ranks_down(s, |q: Q| rank(s, q)));
    let m = raised(s, id);
    let t = lifted(s, id);
    lemma_raised_frame(s, id);
    lemma_discard_lookup(m, seq![id]);
    assert(seq![id][0] == id);
    assert forall|x: Q| x != id implies !seq![id].contains(x) by {}
    assert forall|x: Q| present(s, x) && x != id implies present(t, x) && node_of(t, x)
        == m[slot(s, x)] by {
        assert(present(m, x));
        assert(slot(m, x) == slot(s, x));
        assert(!seq![id].contains(x));
        assert(t == m.filter(outside(seq![id])));
        assert(present(m.filter(outside(seq![id])), x));
        assert(node_of(m.filter(outside(seq![id])), x) == node_of(m, x));
    }
    assert forall|k: int| 0 <= k < node.children.len() implies node_of(
        t,
        #[trigger] node.children[k],
    ).parent == node.parent by {
        let c = node.children[k];
        assert(c == s[i].children[k]);
        assert(present(s, c));
        assert(rank(s, s[i].children[k]) < rank(s, s[i].id));
        assert(is_first(s, c, slot(s, c)));
        assert(node.children.contains(s[slot(s, c)].id));
    }
    assert forall|x: Q|
        present(s, x) && x != id && x != p && !node.children.contains(x) implies node_of(t, x)
        == node_of(s, x) by {
        let at = slot(s, x);
        assert(is_first(s, x, at));
        assert(m[at].id == s[at].id && m[at].value == s[at].value);
        assert(m[at].parent == s[at].parent);
        assert(m[at].children == s[at].children);
    }
}

/// Removing a node of a forest with everything below it leaves a forest, and
/// a tree where it was a tree.
pub proof fn law_prune_keeps_forest<Q, T>(s: Seq<NodeModel<Q, T>>, id: Q)
    requires
        forest(s),
        present(s, id),
    ensures
        forest(pruned(s, id)),
        at_most_one_root(s) ==> at_most_one_root(pruned(s, id)),
{
    let d = detached(s, id);
    let gone = below(s, id);
    let t = pruned(s, id);
    law_forest_removable(s, id, NodeRemovalStrategy::RemoveNodeAndChildren);
    lemma_detached_frame(s, id);
    law_subtree_members(s, id);
    lemma_discard_lookup(d, gone);
    assert(ranks_down(s, |q: Q| rank(s, q)));
    assert(ranks_up(s, |q: Q| up_rank(s, q)));
    // Each node that is left stands in `s`, at `at(j)`, with its id, payload
    // and parent, and with its children but for `id`.
    let at = |j: int| slot(s, t[j].id);
    assert forall|j: int| 0 <= j < t.len() implies {
        &&& 0 <= at(j) < s.len()
        &&& is_first(s, (#[trigger] t[j]).id, at(j))
        &&& t[j] == d[at(j)]
        &&& t[j].id == s[at(j)].id
        &&& t[j].parent == s[at(j)].parent
        &&& !under(s, t[j].id, id)
        &&& forall|x: Q| t[j].children.contains(x) <==> s[at(j)].children.contains(x) && x != id
        &&& t[j].children.no_duplicates()
    } by {
        let x = t[j].id;
        assert(present(d, x) && !gone.contains(x));
        assert(present(s, x));
        assert(is_first(s, x, at(j)));
        assert(slot(d, x) == slot(s, x));
        let a = slot(s, x);
        let kids = s[a].children;
        assert(kids.no_duplicates());
        lemma_struck(kids, id);
        if !(node_of(s, id).parent.is_some() && a == slot(s, node_of(s, id).parent.unwrap())) {
            // Only the parent of the node lists it.
            if kids.contains(id) {
                let k = choose|k: int| 0 <= k < kids.len() && kids[k] == id;
                assert(node_of(s, s[a].children[k]).parent == Some(s[a].id));
                lemma_distinct_slot(s, a);
            }
        }
    }
    assert(no_repeated_children(t));
    assert(linked(t)) by {
        assert forall|j: int| 0 <= j < t.len() && (#[trigger] t[j]).parent.is_some() implies present(
            t,
            t[j].parent.unwrap(),
        ) && node_of(t, t[j].parent.unwrap()).children.contains(t[j].id) by {
            let a = at(j);
            let q = s[a].parent.unwrap();
            assert(present(s, q));
            assert(node_of(s, q).children.contains(s[a].id));
            if under(s, q, id) {
                assert(under(s, t[j].id, id));
            }
            assert(!gone.contains(q));
            assert(present(d, q));
            assert(present(t, q));
            let w = slot(t, q);
            assert(is_first(t, q, w));
            assert(at(w) == slot(s, q));
            assert(t[j].id != id) by {
                assert(under(s, id, id));
            }
        }
        assert forall|j: int, k: int| 0 <= j < t.len() && 0 <= k < t[j].children.len() implies present(
            t,
            #[trigger] t[j].children[k],
        ) && node_of(t, t[j].children[k]).parent == Some(t[j].id) by {
            let a = at(j);
            let c = t[j].children[k];
            let kids = s[a].children;
            assert(t[j].children.contains(c));
            assert(kids.contains(c) && c != id);
            let k0 = choose|k0: int| 0 <= k0 < kids.len() && kids[k0] == c;
            assert(present(s, s[a].children[k0]));
            assert(node_of(s, s[a].children[k0]).parent == Some(s[a].id));
            if under(s, c, id) {
                assert(under(s, t[j].id, id));
            }
            assert(!gone.contains(c));
            assert(present(d, c));
            assert(present(t, c));
            let w = slot(t, c);
            assert(is_first(t, c, w));
            assert(at(w) == slot(s, c));
        }
    }
    assert(acyclic(t)) by {
        let r = |q: Q| rank(s, q);
        assert forall|j: int, k: int| 0 <= j < t.len() && 0 <= k < t[j].children.len() implies r(
            #[trigger] t[j].children[k],
        ) < r(t[j].id) by {
            let a = at(j);
            let c = t[j].children[k];
            let kids = s[a].children;
            assert(t[j].children.contains(c));
            let k0 = choose|k0: int| 0 <= k0 < kids.len() && kids[k0] == c;
            assert(rank(s, s[a].children[k0]) < rank(s, s[a].id));
        }
        assert(ranks_down(t, r));
    }
    assert(grounded(t)) by {
        let u = |q: Q| up_rank(s, q);
        assert forall|j: int| 0 <= j < t.len() && (#[trigger] t[j]).parent.is_some() implies u(
            t[j].parent.unwrap(),
        ) < u(t[j].id) by {
            let a = at(j);
            assert(up_rank(s, s[a].parent.unwrap()) < up_rank(s, s[a].id));
        }
        assert(ranks_up(t, u));
    }
    if at_most_one_root(s) {
        assert forall|a: int, b: int|
            0 <= a < t.len() && 0 <= b < t.len() && (#[trigger] t[a]).parent.is_none() && (
            #[trigger] t[b]).parent.is_none() implies a == b by {
            assert(s[at(a)].parent.is_none() && s[at(b)].parent.is_none());
            assert(at(a) == at(b));
            if a != b {
                if a < b {
                    assert(t[a].id != t[b].id);
                } else {
                    assert(t[b].id != t[a].id);
                }
            }
        }
    }
}

/// Removing a node of a forest and moving its children up leaves a forest,
/// and a tree where it was a tree.
pub proof fn law_retain_keeps_forest<Q, T>(s: Seq<NodeModel<Q, T>>, id: Q)
    requires
        forest(s),
        present(s, id),
        node_of(s, id).parent.is_some(),
    ensures
        forest(lifted(s, id)),
        at_most_one_root(s) ==> at_most_one_root(lifted(s, id)),
{
    let i = slot(s, id);
    assert(is_first(s, id, i));
    let kids = s[i].children;
    let p = s[i].parent.unwrap();
    let pi = slot(s, p);
    assert(present(s, p));
    assert(is_first(s, p, pi));
    let m = raised(s, id);
    let t = lifted(s, id);
    let kept = s[pi].children.filter(other_than(id));
    assert(ranks_down(s, |q: Q| rank(s, q)));
    assert(ranks_up(s, |q: Q| up_rank(s, q)));
    assert(up_rank(s, s[i].parent.unwrap()) < up_rank(s, s[i].id));
    assert(p != id);
    lemma_raised_frame(s, id);
    lemma_discard_lookup(m, seq![id]);
    assert(seq![id][0] == id);
    assert(s[pi].children.no_duplicates());
    assert(kids.no_duplicates());
    lemma_struck(s[pi].children, id);
    lemma_joined(kept, kids);
    // A child of the node is in the store, names the node and ranks below it.
    assert forall|x: Q| kids.contains(x) implies present(s, x) && node_of(s, x).parent == Some(id)
        && rank(s, x) < rank(s, id) && up_rank(s, id) < up_rank(s, x) && x != id && x != p by {
        let k = choose|k: int| 0 <= k < kids.len() && kids[k] == x;
        assert(present(s, s[i].children[k]));
        assert(rank(s, s[i].children[k]) < rank(s, s[i].id));
        let at = slot(s, x);
        assert(is_first(s, x, at));
        assert(up_rank(s, s[at].parent.unwrap()) < up_rank(s, s[at].id));
    }
    // A child of a node of the store is in the store and names that node.
    assert forall|a: int, x: Q| 0 <= a < s.len() && (#[trigger] s[a]).children.contains(x) implies present(
        s,
        x,
    ) && #[trigger] node_of(s, x).parent == Some(s[a].id) && rank(s, x) < rank(s, s[a].id) by {
        let k = choose|k: int| 0 <= k < s[a].children.len() && s[a].children[k] == x;
        assert(present(s, s[a].children[k]));
        assert(rank(s, s[a].children[k]) < rank(s, s[a].id));
    }
    assert(s[pi].children.contains(id)) by {
        assert(node_of(s, s[i].parent.unwrap()).children.contains(s[i].id));
    }
    assert(rank(s, id) < rank(s, p)) by {
        assert(node_of(s, id).parent == Some(s[pi].id));
    }
    assert forall|x: Q| !(kept.contains(x) && kids.contains(x)) by {
        if kept.contains(x) && kids.contains(x) {
            assert(s[pi].children.contains(x));
            assert(node_of(s, x).parent == Some(s[pi].id));
        }
    }
    assert((kept + kids).no_duplicates());
    // Each node that is left stands in the raised store at its place in `s`.
    let at = |j: int| slot(s, t[j].id);
    assert forall|j: int| 0 <= j < t.len() implies {
        &&& 0 <= at(j) < s.len()
        &&& is_first(s, (#[trigger] t[j]).id, at(j))
        &&& t[j] == m[at(j)]
        &&& t[j].id == s[at(j)].id
        &&& t[j].id != id
    } by {
        let x = t[j].id;
        assert(present(m, x) && !seq![id].contains(x));
        assert(present(s, x));
        assert(is_first(s, x, slot(s, x)));
        assert(slot(m, x) == slot(s, x));
    }
    assert forall|x: Q| present(s, x) && x != id implies present(t, x) && node_of(t, x)
        == m[slot(s, x)] by {
        assert(present(m, x));
        assert(slot(m, x) == slot(s, x));
        assert(!seq![id].contains(x));
        assert(present(m.filter(outside(seq![id])), x));
        assert(node_of(m.filter(outside(seq![id])), x) == node_of(m, x));
    }
    assert(distinct_ids(t));
    assert(no_repeated_children(t)) by {
        assert forall|j: int| 0 <= j < t.len() implies (#[trigger] t[j]).children.no_duplicates() by {
            let a = at(j);
            if a != pi {
                assert(s[a].children.no_duplicates());
            }
        }
    }
    assert(linked(t)) by {
        assert forall|j: int| 0 <= j < t.len() && (#[trigger] t[j]).parent.is_some() implies present(
            t,
            t[j].parent.unwrap(),
        ) && node_of(t, t[j].parent.unwrap()).children.contains(t[j].id) by {
            let a = at(j);
            let x = t[j].id;
            if kids.contains(x) {
                assert(t[j].parent == Some(p));
                assert(node_of(t, p) == m[pi]);
            } else {
                let q = s[a].parent.unwrap();
                assert(t[j].parent == s[a].parent);
                assert(present(s, q));
                assert(node_of(s, q).children.contains(x));
                let qi = slot(s, q);
                assert(is_first(s, q, qi));
                if q == id {
                    assert(qi == i);
                }
                assert(node_of(t, q) == m[qi]);
                if qi == pi {
                    assert(kept.contains(x));
                }
            }
        }
        assert forall|j: int, k: int| 0 <= j < t.len() && 0 <= k < t[j].children.len() implies present(
            t,
            #[trigger] t[j].children[k],
        ) && node_of(t, t[j].children[k]).parent == Some(t[j].id) by {
            let a = at(j);
            let c = t[j].children[k];
            assert(t[j].children.contains(c));
            if a == pi {
                if kids.contains(c) {
                    let w = slot(s, c);
                    assert(is_first(s, c, w));
                    assert(node_of(t, c) == m[w]);
                } else {
                    assert(kept.contains(c));
                    assert(s[pi].children.contains(c));
                    let w = slot(s, c);
                    assert(present(s, c));
                    assert(is_first(s, c, w));
                    assert(node_of(t, c) == m[w]);
                }
            } else {
                assert(s[a].children.contains(c));
                assert(present(s, c));
                assert(node_of(s, c).parent == Some(s[a].id));
                let w = slot(s, c);
                assert(is_first(s, c, w));
                if c == id {
                    lemma_distinct_slot(s, a);
                }
                if kids.contains(c) {
                    assert(false);
                }
                assert(node_of(t, c) == m[w]);
            }
        }
    }
    assert(acyclic(t)) by {
        let r = |q: Q| rank(s, q);
        assert forall|j: int, k: int| 0 <= j < t.len() && 0 <= k < t[j].children.len() implies r(
            #[trigger] t[j].children[k],
        ) < r(t[j].id) by {
            let a = at(j);
            let c = t[j].children[k];
            assert(t[j].children.contains(c));
            if a == pi {
                if !kids.contains(c) {
                    assert(kept.contains(c));
                    assert(s[pi].children.contains(c));
                }
            } else {
                assert(s[a].children.contains(c));
            }
        }
        assert(ranks_down(t, r));
    }
    assert(grounded(t)) by {
        let u = |q: Q| up_rank(s, q);
        assert forall|j: int| 0 <= j < t.len() && (#[trigger] t[j]).parent.is_some() implies u(
            t[j].parent.unwrap(),
        ) < u(t[j].id) by {
            let a = at(j);
            if !kids.contains(t[j].id) {
                assert(t[j].parent == s[a].parent);
                assert(up_rank(s, s[a].parent.unwrap()) < up_rank(s, s[a].id));
            }
        }
        assert(ranks_up(t, u));
    }
    if at_most_one_root(s) {
        assert forall|a: int, b: int|
            0 <= a < t.len() && 0 <= b < t.len() && (#[trigger] t[a]).parent.is_none() && (
            #[trigger] t[b]).parent.is_none() implies a == b by {
            assert(s[at(a)].parent.is_none() && s[at(b)].parent.is_none());
            assert(at(a) == at(b));
            if a != b {
                if a < b {
                    assert(t[a].id != t[b].id);
                } else {
                    assert(t[b].id != t[a].id);
                }
            }
        }
    }
}

/// Hanging a tree below a node of a forest that shares no id with it leaves
/// a forest, and a tree where the forest was one.
pub proof fn law_graft_keeps_forest<Q, T>(
    host: Seq<NodeModel<Q, T>>,
    id: Q,
    part: Seq<NodeModel<Q, T>>,
)
    requires
        forest(host),
        well_formed(part),
        has_root(part),
        present(host, id),
        apart(host, part),
    ensures
        forest(grafted(host, id, part)),
        at_most_one_root(host) ==> at_most_one_root(grafted(host, id, part)),
{
    let t = grafted(host, id, part);
    let n = host.len() as int;
    let hi = slot(host, id);
    let top = root_slot(part);
    assert(is_first(host, id, hi));
    assert(is_first_root(part, top));
    let top_id = part[top].id;
    lemma_distinct_slot(part, top);
    assert(ranks_down(host, |q: Q| rank(host, q)));
    assert(ranks_down(part, |q: Q| rank(part, q)));
    assert(ranks_up(host, |q: Q| up_rank(host, q)));
    assert(ranks_up(part, |q: Q| up_rank(part, q)));
    assert(t.len() == n + part.len());
    assert forall|j: int| 0 <= j < n implies (#[trigger] t[j]).id == host[j].id && t[j].parent
        == host[j].parent && (j != hi ==> t[j].children == host[j].children) by {}
    assert(t[hi].children == host[hi].children.push(top_id));
    assert forall|j: int| 0 <= j < part.len() implies (#[trigger] t[n + j]).id == part[j].id && t[n
        + j].children == part[j].children && (j != top ==> t[n + j].parent == part[j].parent) by {}
    assert(t[n + top].parent == Some(id));
    assert forall|j: int| 0 <= j < part.len() implies present(part, (#[trigger] part[j]).id)
        && !present(host, part[j].id) by {
        lemma_distinct_slot(part, j);
    }
    assert forall|i: int, j: int| 0 <= i < n && 0 <= j < part.len() implies (#[trigger] host[i]).id != (
    #[trigger] part[j]).id by {
        lemma_distinct_slot(host, i);
    }
    assert forall|x: Q| present(host, x) implies present(t, x) && slot(t, x) == slot(host, x) by {
        lemma_lookup_extends(host, t, x);
    }
    assert forall|x: Q| present(part, x) implies present(t, x) && slot(t, x) == n + slot(part, x) by {
        let w = slot(part, x);
        assert(is_first(part, x, w));
        assert(t[n + w].id == x);
        assert forall|j: int| 0 <= j < n + w implies (#[trigger] t[j]).id != x by {
            if j < n {
                lemma_distinct_slot(host, j);
            } else {
                assert(t[n + (j - n)].id == part[j - n].id);
            }
        }
        assert(is_first(t, x, n + w));
    }
    assert(distinct_ids(t)) by {
        assert forall|a: int, b: int| 0 <= a < b < t.len() implies (#[trigger] t[a]).id != (
        #[trigger] t[b]).id by {
            if b < n {
                assert(host[a].id != host[b].id);
            } else if a < n {
                assert(host[a].id != part[b - n].id);
                assert(t[n + (b - n)].id == part[b - n].id);
            } else {
                assert(part[a - n].id != part[b - n].id);
                assert(t[n + (a - n)].id == part[a - n].id);
                assert(t[n + (b - n)].id == part[b - n].id);
            }
        }
    }
    assert(no_repeated_children(t)) by {
        assert forall|i: int| 0 <= i < t.len() implies (#[trigger] t[i]).children.no_duplicates() by {
            if i < n {
                assert(host[i].children.no_duplicates());
                if i == hi {
                    assert forall|k: int| 0 <= k < host[hi].children.len() implies host[hi].children[k]
                        != top_id by {
                        assert(present(host, host[hi].children[k]));
                    }
                }
            } else {
                assert(part[i - n].children.no_duplicates());
                assert(t[n + (i - n)].children == part[i - n].children);
            }
        }
    }
    assert(linked(t)) by {
        assert forall|j: int| 0 <= j < t.len() && (#[trigger] t[j]).parent.is_some() implies present(
            t,
            t[j].parent.unwrap(),
        ) && node_of(t, t[j].parent.unwrap()).children.contains(t[j].id) by {
            if j < n {
                let q = host[j].parent.unwrap();
                assert(present(host, q));
                let qi = slot(host, q);
                assert(is_first(host, q, qi));
                let w = choose|w: int|
                    0 <= w < host[qi].children.len() && host[qi].children[w] == host[j].id;
                assert(t[qi].children[w] == host[j].id);
            } else if j - n == top {
                assert(t[n + top].id == top_id);
                assert(t[hi].children[host[hi].children.len() as int] == top_id);
            } else {
                let m = j - n;
                assert(t[n + m].parent == part[m].parent);
                let q = part[m].parent.unwrap();
                assert(present(part, q));
                let qi = slot(part, q);
                assert(is_first(part, q, qi));
                assert(t[n + qi].children == part[qi].children);
                assert(t[n + m].id == part[m].id);
            }
        }
        assert forall|i: int, k: int| 0 <= i < t.len() && 0 <= k < t[i].children.len() implies present(
            t,
            #[trigger] t[i].children[k],
        ) && node_of(t, t[i].children[k]).parent == Some(t[i].id) by {
            if i < n {
                if i == hi && k == host[hi].children.len() {
                    assert(t[i].children[k] == top_id);
                    assert(present(part, top_id));
                } else {
                    let c = host[i].children[k];
                    assert(t[i].children[k] == c);
                    assert(present(host, c));
                    assert(is_first(host, c, slot(host, c)));
                }
            } else {
                let m = i - n;
                assert(t[n + m].children == part[m].children);
                assert(t[n + m].id == part[m].id);
                let c = part[m].children[k];
                assert(present(part, c));
                let w = slot(part, c);
                assert(is_first(part, c, w));
                assert(node_of(part, c).parent == Some(part[m].id));
                assert(w != top);
                assert(t[n + w].parent == part[w].parent);
            }
        }
    }
    assert(acyclic(t)) by {
        let base = rank(part, top_id) + 1;
        let r = |q: Q|
            if present(part, q) {
                rank(part, q)
            } else {
                rank(host, q) + base
            };
        assert forall|i: int, k: int| 0 <= i < t.len() && 0 <= k < t[i].children.len() implies r(
            #[trigger] t[i].children[k],
        ) < r(t[i].id) by {
            if i < n {
                lemma_distinct_slot(host, i);
                assert(!present(part, host[i].id));
                if i == hi && k == host[hi].children.len() {
                    assert(t[i].children[k] == top_id);
                    assert(present(part, top_id));
                } else {
                    let c = host[i].children[k];
                    assert(t[i].children[k] == c);
                    assert(present(host, c));
                    assert(rank(host, host[i].children[k]) < rank(host, host[i].id));
                }
            } else {
                let m = i - n;
                assert(t[n + m].children == part[m].children);
                assert(t[n + m].id == part[m].id);
                assert(present(part, part[m].children[k]));
                assert(rank(part, part[m].children[k]) < rank(part, part[m].id));
            }
        }
        assert(ranks_down(t, r));
    }
    assert(grounded(t)) by {
        let base = up_rank(host, id) + 1;
        let u = |q: Q|
            if present(host, q) {
                up_rank(host, q)
            } else {
                up_rank(part, q) + base
            };
        assert forall|j: int| 0 <= j < t.len() && (#[trigger] t[j]).parent.is_some() implies u(
            t[j].parent.unwrap(),
        ) < u(t[j].id) by {
            if j < n {
                lemma_distinct_slot(host, j);
                assert(present(host, host[j].parent.unwrap()));
                assert(up_rank(host, host[j].parent.unwrap()) < up_rank(host, host[j].id));
            } else if j - n == top {
                assert(t[n + top].id == top_id);
                assert(!present(host, top_id));
            } else {
                let m = j - n;
                assert(t[n + m].parent == part[m].parent);
                assert(t[n + m].id == part[m].id);
                assert(present(part, part[m].parent.unwrap()));
                assert(up_rank(part, part[m].parent.unwrap()) < up_rank(part, part[m].id));
            }
        }
        assert(ranks_up(t, u));
    }
    if at_most_one_root(host) {
        assert forall|a: int, b: int|
            0 <= a < t.len() && 0 <= b < t.len() && (#[trigger] t[a]).parent.is_none() && (
            #[trigger] t[b]).parent.is_none() implies a == b by {
            if a >= n {
                assert(t[n + (a - n)].parent.is_none());
                if a - n != top {
                    assert(part[a - n].parent.is_none());
                }
            }
            if b >= n {
                assert(t[n + (b - n)].parent.is_none());
                if b - n != top {
                    assert(part[b - n].parent.is_none());
                }
            }
            assert(host[a].parent.is_none() && host[b].parent.is_none());
        }
    }
}

/// A forest that has the node `x` has a node without parent.
pub proof fn lemma_root_above<Q, T>(s: Seq<NodeModel<Q, T>>, x: Q)
    requires
        forest(s),
        present(s, x),
    ensures
        has_root(s),
    decreases up_rank(s, x),
{
    let at = slot(s, x);
    assert(is_first(s, x, at));
    if s[at].parent.is_some() {
        assert(ranks_up(s, |q: Q| up_rank(s, q)));
        assert(up_rank(s, s[at].parent.unwrap()) < up_rank(s, s[at].id));
        lemma_root_above(s, s[at].parent.unwrap());
    } else {
        lemma_root_from_any(s, at);
    }
}

/// A tree with a node has exactly one node without parent.
pub proof fn law_tree_has_one_root<Q, T>(s: Seq<NodeModel<Q, T>>)
    requires
        well_formed(s),
        s.len() > 0,
    ensures
        one_root(s),
{
    lemma_distinct_slot(s, 0);
    lemma_root_above(s, s[0].id);
}

} // verus!
