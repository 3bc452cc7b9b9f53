//! Which nodes lie below a node, and what follows for subtrees.

use vstd::prelude::*;
use crate::node::NodeModel;
use crate::store::{
    is_first, present, slot, node_of, acyclic, rank, ranks_down, grounded, up_rank, ranks_up,
    forest, children_present,
};
use crate::subtree::{below, below_children, within, picked, all_present};
use crate::metrics::{height, tallest, depth};

verus! {

/// `x` is `a`, or the chain of parents from the node with the id `x` leads
/// to `a`.
pub open spec fn under<Q, T>(s: Seq<NodeModel<Q, T>>, x: Q, a: Q) -> bool
    decreases up_rank(s, x),
{
    x == a || (grounded(s) && present(s, x) && node_of(s, x).parent.is_some() && under(
        s,
        node_of(s, x).parent.unwrap(),
        a,
    ))
}

/// In a forest a node has a smaller rank than the parent that it names.
pub proof fn lemma_parent_outranks<Q, T>(s: Seq<NodeModel<Q, T>>, x: Q)
    requires
        forest(s),
        present(s, x),
        node_of(s, x).parent.is_some(),
    ensures
        present(s, node_of(s, x).parent.unwrap()),
        rank(s, x) < rank(s, node_of(s, x).parent.unwrap()),
        node_of(s, node_of(s, x).parent.unwrap()).children.contains(x),
{
    let i = slot(s, x);
    assert(is_first(s, x, i));
    let p = s[i].parent.unwrap();
    let pi = slot(s, p);
    assert(present(s, p));
    assert(is_first(s, p, pi));
    let w = choose|w: int| 0 <= w < s[pi].children.len() && s[pi].children[w] == x;
    assert(ranks_down(s, |q: Q| rank(s, q)));
    assert(rank(s, s[pi].children[w]) < rank(s, s[pi].id));
}

/// In a forest a node below another has a smaller rank.
pub proof fn lemma_under_rank<Q, T>(s: Seq<NodeModel<Q, T>>, x: Q, a: Q)
    requires
        forest(s),
        under(s, x, a),
    ensures
        x == a || rank(s, x) < rank(s, a),
    decreases up_rank(s, x),
{
    if x != a {
        lemma_parent_outranks(s, x);
        assert(ranks_up(s, |q: Q| up_rank(s, q)));
        assert(is_first(s, x, slot(s, x)));
        lemma_under_rank(s, node_of(s, x).parent.unwrap(), a);
    }
}

/// What lies below a node that lies below `a` lies below `a`.
pub proof fn lemma_under_chain<Q, T>(s: Seq<NodeModel<Q, T>>, x: Q, c: Q, a: Q)
    requires
        grounded(s),
        under(s, x, c),
        under(s, c, a),
    ensures
        under(s, x, a),
    decreases up_rank(s, x),
{
    if x != c && x != a {
        assert(ranks_up(s, |q: Q| up_rank(s, q)));
        assert(is_first(s, x, slot(s, x)));
        lemma_under_chain(s, node_of(s, x).parent.unwrap(), c, a);
    }
}

/// Of two nodes that a node lies below, one lies below the other.
pub proof fn lemma_under_line<Q, T>(s: Seq<NodeModel<Q, T>>, x: Q, a: Q, b: Q)
    requires
        grounded(s),
        under(s, x, a),
        under(s, x, b),
    ensures
        under(s, a, b) || under(s, b, a),
    decreases up_rank(s, x),
{
    if x != a && x != b {
        assert(ranks_up(s, |q: Q| up_rank(s, q)));
        assert(is_first(s, x, slot(s, x)));
        lemma_under_line(s, node_of(s, x).parent.unwrap(), a, b);
    }
}

/// Every id that is listed below the first `k` children of a node is listed
/// below one of them.
pub proof fn lemma_below_children_split<Q, T>(s: Seq<NodeModel<Q, T>>, a: Q, k: nat, x: Q)
    requires
        below_children(s, a, k).contains(x),
    ensures
        exists|w: int|
            0 <= w < k && w < node_of(s, a).children.len() && below(
                s,
                #[trigger] node_of(s, a).children[w],
            ).contains(x),
        acyclic(s),
        present(s, a),
    decreases k,
{
    let kids = node_of(s, a).children;
    if acyclic(s) && present(s, a) && 0 < k <= kids.len() {
        let before = below_children(s, a, (k - 1) as nat);
        let here = below(s, kids[k - 1]);
        let j = choose|j: int| 0 <= j < (before + here).len() && (before + here)[j] == x;
        if j < before.len() {
            assert(before[j] == x);
            lemma_below_children_split(s, a, (k - 1) as nat, x);
        } else {
            assert(here[j - before.len()] == x);
        }
    } else {
        assert(below_children(s, a, k) =~= Seq::<Q>::empty());
    }
}

/// What is listed below a child of a node is listed below the children of
/// the node.
pub proof fn lemma_below_children_hold<Q, T>(s: Seq<NodeModel<Q, T>>, a: Q, k: nat, w: int, x: Q)
    requires
        acyclic(s),
        present(s, a),
        0 <= w < k <= node_of(s, a).children.len(),
        below(s, node_of(s, a).children[w]).contains(x),
    ensures
        below_children(s, a, k).contains(x),
    decreases k,
{
    let kids = node_of(s, a).children;
    let before = below_children(s, a, (k - 1) as nat);
    let here = below(s, kids[k - 1]);
    if w == k - 1 {
        let j = choose|j: int| 0 <= j < here.len() && here[j] == x;
        assert((before + here)[before.len() + j] == x);
    } else {
        lemma_below_children_hold(s, a, (k - 1) as nat, w, x);
        let j = choose|j: int| 0 <= j < before.len() && before[j] == x;
        assert((before + here)[j] == x);
    }
}

/// In a forest every id listed below `a` belongs to a node that lies below
/// `a`.
pub proof fn lemma_below_under<Q, T>(s: Seq<NodeModel<Q, T>>, a: Q, x: Q)
    requires
        forest(s),
        below(s, a).contains(x),
    ensures
        present(s, x),
        under(s, x, a),
    decreases rank(s, a),
{
    if acyclic(s) && present(s, a) {
        let kids = node_of(s, a).children;
        let rest = below_children(s, a, kids.len());
        let j = choose|j: int| 0 <= j < below(s, a).len() && below(s, a)[j] == x;
        if j > 0 {
            assert(rest[j - 1] == x);
            lemma_below_children_split(s, a, kids.len(), x);
            let w = choose|w: int|
                0 <= w < kids.len() && below(s, #[trigger] node_of(s, a).children[w]).contains(x);
            let c = kids[w];
            let i = slot(s, a);
            assert(is_first(s, a, i));
            assert(ranks_down(s, |q: Q| rank(s, q)));
            assert(rank(s, s[i].children[w]) < rank(s, s[i].id));
            lemma_below_under(s, c, x);
            assert(present(s, c) && node_of(s, c).parent == Some(a));
            assert(under(s, a, a));
            assert(under(s, c, a));
            lemma_under_chain(s, x, c, a);
        }
    } else {
        assert(below(s, a) =~= Seq::<Q>::empty());
    }
}

/// In a forest the children of a node listed below `a` are listed below `a`.
pub proof fn lemma_below_closed<Q, T>(s: Seq<NodeModel<Q, T>>, a: Q, p: Q, c: Q)
    requires
        forest(s),
        below(s, a).contains(p),
        node_of(s, p).children.contains(c),
    ensures
        below(s, a).contains(c),
    decreases rank(s, a),
{
    if acyclic(s) && present(s, a) {
        let kids = node_of(s, a).children;
        let rest = below_children(s, a, kids.len());
        let i = slot(s, a);
        assert(is_first(s, a, i));
        assert(ranks_down(s, |q: Q| rank(s, q)));
        let j = choose|j: int| 0 <= j < below(s, a).len() && below(s, a)[j] == p;
        if j == 0 {
            let w = choose|w: int| 0 <= w < kids.len() && kids[w] == c;
            assert(present(s, s[i].children[w]));
            assert(below(s, c)[0] == c);
            lemma_below_children_hold(s, a, kids.len(), w, c);
        } else {
            assert(rest[j - 1] == p);
            lemma_below_children_split(s, a, kids.len(), p);
            let w = choose|w: int|
                0 <= w < kids.len() && below(s, #[trigger] node_of(s, a).children[w]).contains(p);
            assert(rank(s, s[i].children[w]) < rank(s, s[i].id));
            lemma_below_closed(s, kids[w], p, c);
            lemma_below_children_hold(s, a, kids.len(), w, c);
        }
        let m = choose|m: int| 0 <= m < rest.len() && rest[m] == c;
        assert(below(s, a)[m + 1] == c);
    } else {
        assert(below(s, a) =~= Seq::<Q>::empty());
    }
}

/// In a forest the id of every node that lies below `a` is listed below `a`.
pub proof fn lemma_under_below<Q, T>(s: Seq<NodeModel<Q, T>>, a: Q, x: Q)
    requires
        forest(s),
        present(s, a),
        present(s, x),
        under(s, x, a),
    ensures
        below(s, a).contains(x),
    decreases up_rank(s, x),
{
    if x == a {
        assert(below(s, a)[0] == a);
    } else {
        lemma_parent_outranks(s, x);
        assert(ranks_up(s, |q: Q| up_rank(s, q)));
        assert(is_first(s, x, slot(s, x)));
        let p = node_of(s, x).parent.unwrap();
        lemma_under_below(s, a, p);
        lemma_below_closed(s, a, p, x);
    }
}

/// In a forest no id is listed twice below the first `k` children of a node,
/// and the id of the node is not among them.
pub proof fn lemma_below_children_once<Q, T>(s: Seq<NodeModel<Q, T>>, a: Q, k: nat)
    requires
        forest(s),
        present(s, a),
        k <= node_of(s, a).children.len(),
    ensures
        below_children(s, a, k).no_duplicates(),
        !below_children(s, a, k).contains(a),
    decreases rank(s, a), 0nat, k,
{
    let kids = node_of(s, a).children;
    let i = slot(s, a);
    assert(is_first(s, a, i));
    assert(ranks_down(s, |q: Q| rank(s, q)));
    if k > 0 {
        let before = below_children(s, a, (k - 1) as nat);
        let c = kids[k - 1];
        let here = below(s, c);
        assert(rank(s, s[i].children[k - 1]) < rank(s, s[i].id));
        assert(present(s, s[i].children[k - 1]));
        lemma_below_children_once(s, a, (k - 1) as nat);
        lemma_below_once(s, c);
        assert forall|m: int, n: int| 0 <= m < before.len() && 0 <= n < here.len() implies before[m]
            != here[n] by {
            if before[m] == here[n] {
                let x = before[m];
                lemma_below_children_split(s, a, (k - 1) as nat, x);
                let w = choose|w: int|
                    0 <= w < k - 1 && below(s, #[trigger] node_of(s, a).children[w]).contains(x);
                let d = kids[w];
                assert(s[i].children.no_duplicates());
                assert(d != c);
                assert(rank(s, s[i].children[w]) < rank(s, s[i].id));
                assert(present(s, s[i].children[w]));
                lemma_below_under(s, d, x);
                lemma_below_under(s, c, x);
                lemma_under_line(s, x, d, c);
                assert(node_of(s, d).parent == Some(a));
                assert(node_of(s, c).parent == Some(a));
                if under(s, d, c) {
                    assert(under(s, a, c));
                    lemma_under_rank(s, a, c);
                } else {
                    assert(under(s, a, d));
                    lemma_under_rank(s, a, d);
                }
            }
        }
        assert((before + here).no_duplicates()) by {
            assert forall|m: int, n: int|
                0 <= m < (before + here).len() && 0 <= n < (before + here).len() && m
                    != n implies (before + here)[m] != (before + here)[n] by {
                if m < before.len() && n >= before.len() {
                    assert(before[m] != here[n - before.len()]);
                } else if n < before.len() && m >= before.len() {
                    assert(before[n] != here[m - before.len()]);
                }
            }
        }
        if (before + here).contains(a) {
            let m = choose|m: int| 0 <= m < (before + here).len() && (before + here)[m] == a;
            if m < before.len() {
                assert(before[m] == a);
            } else {
                assert(here[m - before.len()] == a);
                lemma_below_under(s, c, a);
                lemma_under_rank(s, a, c);
            }
        }
    }
}

/// In a forest no id is listed twice below a node.
pub proof fn lemma_below_once<Q, T>(s: Seq<NodeModel<Q, T>>, a: Q)
    requires
        forest(s),
    ensures
        below(s, a).no_duplicates(),
    decreases rank(s, a), 1nat, 0nat,
{
    if present(s, a) {
        let rest = below_children(s, a, node_of(s, a).children.len());
        lemma_below_children_once(s, a, node_of(s, a).children.len());
        assert forall|m: int, n: int|
            0 <= m < below(s, a).len() && 0 <= n < below(s, a).len() && m != n implies below(
            s,
            a,
        )[m] != below(s, a)[n] by {
            if m > 0 {
                assert(rest[m - 1] == below(s, a)[m]);
            }
            if n > 0 {
                assert(rest[n - 1] == below(s, a)[n]);
            }
        }
    }
}

/// The subtree of a node of a forest holds the node and every node that lies
/// below it, each once.
pub proof fn law_subtree_members<Q, T>(s: Seq<NodeModel<Q, T>>, a: Q)
    requires
        forest(s),
        present(s, a),
    ensures
        below(s, a).no_duplicates(),
        below(s, a)[0] == a,
        forall|x: Q| below(s, a).contains(x) <==> present(s, x) && under(s, x, a),
{
    lemma_below_once(s, a);
    assert forall|x: Q| below(s, a).contains(x) <==> present(s, x) && under(s, x, a) by {
        if below(s, a).contains(x) {
            lemma_below_under(s, a, x);
        }
        if present(s, x) && under(s, x, a) {
            lemma_under_below(s, a, x);
        }
    }
}

/// The subtree of a node has more nodes than the node is high.
pub proof fn lemma_height_below<Q, T>(s: Seq<NodeModel<Q, T>>, a: Q)
    requires
        acyclic(s),
        children_present(s),
        present(s, a),
    ensures
        height(s, a) < below(s, a).len(),
    decreases rank(s, a), 1nat, 0nat,
{
    lemma_tallest_below(s, a, node_of(s, a).children.len());
}

/// What is listed below the first `k` children of a node is at least as long
/// as the greatest height among them, plus one, says.
pub proof fn lemma_tallest_below<Q, T>(s: Seq<NodeModel<Q, T>>, a: Q, k: nat)
    requires
        acyclic(s),
        children_present(s),
        present(s, a),
        k <= node_of(s, a).children.len(),
    ensures
        tallest(s, a, k) <= below_children(s, a, k).len(),
    decreases rank(s, a), 0nat, k,
{
    if k > 0 {
        let i = slot(s, a);
        assert(is_first(s, a, i));
        assert(ranks_down(s, |q: Q| rank(s, q)));
        let c = node_of(s, a).children[k - 1];
        assert(rank(s, s[i].children[k - 1]) < rank(s, s[i].id));
        assert(present(s, s[i].children[k - 1]));
        lemma_tallest_below(s, a, (k - 1) as nat);
        lemma_height_below(s, c);
    }
}

/// A subtree of a forest has no more nodes than the forest.
pub proof fn lemma_below_fits<Q, T>(s: Seq<NodeModel<Q, T>>, a: Q)
    requires
        forest(s),
    ensures
        below(s, a).len() <= s.len(),
{
    lemma_below_once(s, a);
    assert(all_present(s, below(s, a))) by {
        assert forall|j: int| 0 <= j < below(s, a).len() implies present(
            s,
            #[trigger] below(s, a)[j],
        ) by {
            lemma_below_under(s, a, below(s, a)[j]);
        }
    }
    crate::laws::lemma_discard_count(s, below(s, a));
}

/// In a forest the height of a node is less than the number of nodes, and
/// so is its depth.
pub proof fn law_height_and_depth_bounded<Q, T>(s: Seq<NodeModel<Q, T>>, a: Q)
    requires
        forest(s),
        present(s, a),
    ensures
        height(s, a) < s.len(),
        depth(s, a) < s.len(),
{
    lemma_height_below(s, a);
    lemma_below_fits(s, a);
    lemma_depth_and_height(s, a);
}

/// In a forest the depth of a node and its height together are less than the
/// number of nodes.
pub proof fn lemma_depth_and_height<Q, T>(s: Seq<NodeModel<Q, T>>, a: Q)
    requires
        forest(s),
        present(s, a),
    ensures
        depth(s, a) + height(s, a) < s.len(),
    decreases up_rank(s, a),
{
    if node_of(s, a).parent.is_some() {
        let p = node_of(s, a).parent.unwrap();
        lemma_parent_outranks(s, a);
        assert(ranks_up(s, |q: Q| up_rank(s, q)));
        assert(is_first(s, a, slot(s, a)));
        lemma_depth_and_height(s, p);
        let w = choose|w: int|
            0 <= w < node_of(s, p).children.len() && node_of(s, p).children[w] == a;
        crate::laws::law_height_over_children(s, p);
        assert(height(s, p) >= 1 + height(s, node_of(s, p).children[w]));
    } else {
        lemma_height_below(s, a);
        lemma_below_fits(s, a);
    }
}

/// The tree that `get_subtree` takes out of a forest without a bound: its
/// first node is the node asked for, it has a node for that node and for
/// every node that lies below it, and for no other, and no id occurs twice in
/// it.
pub proof fn law_subtree_nodes<Q, T>(s: Seq<NodeModel<Q, T>>, a: Q)
    requires
        forest(s),
        present(s, a),
    ensures
        picked(s, below(s, a)).len() == below(s, a).len(),
        picked(s, below(s, a))[0] == node_of(s, a),
        forall|j: int|
            0 <= j < below(s, a).len() ==> (#[trigger] picked(s, below(s, a))[j]).id == below(
                s,
                a,
            )[j],
        forall|i: int, j: int|
            0 <= i < j < below(s, a).len() ==> (#[trigger] picked(s, below(s, a))[i]).id != (
            #[trigger] picked(s, below(s, a))[j]).id,
        forall|x: Q| present(picked(s, below(s, a)), x) <==> present(s, x) && under(s, x, a),
{
    let ids = below(s, a);
    let part = picked(s, ids);
    law_subtree_members(s, a);
    assert forall|j: int| 0 <= j < ids.len() implies (#[trigger] part[j]).id == ids[j] by {
        lemma_below_under(s, a, ids[j]);
        assert(is_first(s, ids[j], slot(s, ids[j])));
    }
    assert forall|x: Q| present(part, x) <==> present(s, x) && under(s, x, a) by {
        if present(part, x) {
            let j = slot(part, x);
            assert(is_first(part, x, j));
            assert(ids[j] == x);
            assert(ids.contains(x));
        }
        if present(s, x) && under(s, x, a) {
            assert(ids.contains(x));
            let j = choose|j: int| 0 <= j < ids.len() && ids[j] == x;
            assert(part[j].id == x);
            crate::store::lemma_has_from_any(part, x, j);
        }
    }
}

/// The tree that `get_subtree` takes out with the bound 0 holds the node
/// asked for and nothing else.
pub proof fn law_subtree_of_bound_zero<Q, T>(s: Seq<NodeModel<Q, T>>, a: Q)
    requires
        present(s, a),
    ensures
        picked(s, within(s, a, 0)) == seq![node_of(s, a)],
{
    assert(within(s, a, 0) == seq![a]);
    assert(picked(s, seq![a]) =~= seq![node_of(s, a)]);
}

} // verus!
