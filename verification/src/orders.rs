//! What the traversal orders list.

use vstd::prelude::*;
use crate::node::NodeModel;
use crate::store::{is_first, present, slot, node_of, acyclic, rank, ranks_down, forest};
use crate::subtree::{below, below_children};
use crate::descent::lemma_below_once;
use crate::traversal::{first_occurrences, listed, walk};
use crate::tree::TraversalStrategy;

verus! {

/// A list without its later occurrences holds `x` exactly if the list does.
pub proof fn lemma_first_occurrences_hold<Q>(v: Seq<Q>, x: Q)
    ensures
        first_occurrences(v).contains(x) <==> v.contains(x),
    decreases v.len(),
{
    if v.len() > 0 {
        let rest = v.drop_last();
        let kept = first_occurrences(rest);
        let out = first_occurrences(v);
        lemma_first_occurrences_hold(rest, x);
        lemma_first_occurrences_hold(rest, v.last());
        if out.contains(x) {
            let j = choose|j: int| 0 <= j < out.len() && out[j] == x;
            if j < kept.len() {
                assert(kept[j] == x);
                assert(kept.contains(x));
                assert(rest.contains(x));
                let m = choose|m: int| 0 <= m < rest.len() && rest[m] == x;
                assert(v[m] == x);
            } else {
                assert(v[v.len() - 1] == x);
            }
        }
        if v.contains(x) {
            let m = choose|m: int| 0 <= m < v.len() && v[m] == x;
            if m < rest.len() {
                assert(rest[m] == x);
                assert(rest.contains(x));
                assert(kept.contains(x));
                let j = choose|j: int| 0 <= j < kept.len() && kept[j] == x;
                assert(out[j] == x);
            } else if kept.contains(x) {
                let j = choose|j: int| 0 <= j < kept.len() && kept[j] == x;
                assert(out[j] == x);
            } else {
                assert(out[kept.len() as int] == x);
            }
        }
    } else {
        assert(first_occurrences(v) =~= v);
    }
}

/// A list without its later occurrences holds what the list held, each
/// once, and is the list itself where nothing occurred twice.
pub proof fn lemma_first_occurrences<Q>(v: Seq<Q>)
    ensures
        first_occurrences(v).no_duplicates(),
        forall|x: Q| first_occurrences(v).contains(x) <==> v.contains(x),
        v.no_duplicates() ==> first_occurrences(v) == v,
    decreases v.len(),
{
    assert forall|x: Q| first_occurrences(v).contains(x) <==> v.contains(x) by {
        lemma_first_occurrences_hold(v, x);
    }
    if v.len() > 0 {
        let rest = v.drop_last();
        let kept = first_occurrences(rest);
        lemma_first_occurrences(rest);
        if v.no_duplicates() {
            assert(rest.no_duplicates());
            if rest.contains(v.last()) {
                let m = choose|m: int| 0 <= m < rest.len() && rest[m] == v.last();
                assert(v[m] == v[v.len() - 1]);
            }
            lemma_first_occurrences_hold(rest, v.last());
            assert(rest.push(v.last()) =~= v);
        }
    } else {
        assert(first_occurrences(v) =~= v);
    }
}

/// No traversal lists an id twice.
pub proof fn law_walk_once<Q, T>(s: Seq<NodeModel<Q, T>>, order: TraversalStrategy, id: Q)
    ensures
        walk(s, order, id).no_duplicates(),
{
    if acyclic(s) && present(s, id) {
        let all = listed(s, order, id, node_of(s, id).children.len());
        lemma_first_occurrences(all);
        lemma_first_occurrences(all.push(id));
    }
}

/// In a forest, `PreOrder` has listed the node and what is below its first
/// `k` children once it has dealt with them.
pub proof fn lemma_preorder_listed<Q, T>(s: Seq<NodeModel<Q, T>>, id: Q, k: nat)
    requires
        forest(s),
        present(s, id),
        k <= node_of(s, id).children.len(),
    ensures
        listed(s, TraversalStrategy::PreOrder, id, k) == seq![id] + below_children(s, id, k),
    decreases rank(s, id), 0nat, k,
{
    if k > 0 {
        let at = slot(s, id);
        assert(is_first(s, id, at));
        assert(ranks_down(s, |q: Q| rank(s, q)));
        assert(rank(s, s[at].children[k - 1]) < rank(s, s[at].id));
        assert(present(s, s[at].children[k - 1]));
        lemma_preorder_listed(s, id, (k - 1) as nat);
        law_preorder_lists_subtree(s, node_of(s, id).children[k - 1]);
        assert(listed(s, TraversalStrategy::PreOrder, id, k) =~= seq![id] + below_children(
            s,
            id,
            k,
        ));
    } else {
        assert(listed(s, TraversalStrategy::PreOrder, id, k) =~= seq![id] + below_children(
            s,
            id,
            k,
        ));
    }
}

/// In a forest, `PreOrder` lists the ids of the subtree of the node it
/// starts from, in the order of the subtree.
pub proof fn law_preorder_lists_subtree<Q, T>(s: Seq<NodeModel<Q, T>>, id: Q)
    requires
        forest(s),
        present(s, id),
    ensures
        walk(s, TraversalStrategy::PreOrder, id) == below(s, id),
    decreases rank(s, id), 1nat, 0nat,
{
    lemma_preorder_listed(s, id, node_of(s, id).children.len());
    lemma_below_once(s, id);
    lemma_first_occurrences(below(s, id));
}

/// In a forest, `PostOrder` has listed what is below the first `k` children
/// of the node, and nothing else, once it has dealt with them.
pub proof fn lemma_postorder_listed<Q, T>(s: Seq<NodeModel<Q, T>>, id: Q, k: nat)
    requires
        forest(s),
        present(s, id),
        k <= node_of(s, id).children.len(),
    ensures
        forall|x: Q|
            listed(s, TraversalStrategy::PostOrder, id, k).contains(x) <==> below_children(
                s,
                id,
                k,
            ).contains(x),
    decreases rank(s, id), 0nat, k,
{
    if k > 0 {
        let at = slot(s, id);
        assert(is_first(s, id, at));
        assert(ranks_down(s, |q: Q| rank(s, q)));
        assert(rank(s, s[at].children[k - 1]) < rank(s, s[at].id));
        assert(present(s, s[at].children[k - 1]));
        let c = node_of(s, id).children[k - 1];
        lemma_postorder_listed(s, id, (k - 1) as nat);
        law_postorder_lists_subtree(s, c);
        crate::seqs::lemma_joined(
            listed(s, TraversalStrategy::PostOrder, id, (k - 1) as nat),
            walk(s, TraversalStrategy::PostOrder, c),
        );
        crate::seqs::lemma_joined(below_children(s, id, (k - 1) as nat), below(s, c));
        assert(listed(s, TraversalStrategy::PostOrder, id, k) == listed(
            s,
            TraversalStrategy::PostOrder,
            id,
            (k - 1) as nat,
        ) + walk(s, TraversalStrategy::PostOrder, c));
        assert(below_children(s, id, k) == below_children(s, id, (k - 1) as nat) + below(s, c));
        let l1 = listed(s, TraversalStrategy::PostOrder, id, (k - 1) as nat);
        let w = walk(s, TraversalStrategy::PostOrder, c);
        let b1 = below_children(s, id, (k - 1) as nat);
        let b = below(s, c);
        assert forall|x: Q| (l1 + w).contains(x) <==> (b1 + b).contains(x) by {
            assert((l1 + w).contains(x) <==> l1.contains(x) || w.contains(x));
            assert((b1 + b).contains(x) <==> b1.contains(x) || b.contains(x));
            assert(l1.contains(x) <==> b1.contains(x));
            assert(w.contains(x) <==> b.contains(x));
        }
    } else {
        assert(listed(s, TraversalStrategy::PostOrder, id, k) =~= Seq::<Q>::empty());
        assert(below_children(s, id, k) =~= Seq::<Q>::empty());
    }
}

/// In a forest, `PostOrder` lists the ids of the subtree of the node it
/// starts from, each once, and the node last.
pub proof fn law_postorder_lists_subtree<Q, T>(s: Seq<NodeModel<Q, T>>, id: Q)
    requires
        forest(s),
        present(s, id),
    ensures
        forall|x: Q| walk(s, TraversalStrategy::PostOrder, id).contains(x) <==> below(
            s,
            id,
        ).contains(x),
        walk(s, TraversalStrategy::PostOrder, id).no_duplicates(),
        walk(s, TraversalStrategy::PostOrder, id).last() == id,
        walk(s, TraversalStrategy::PostOrder, id).len() == below(s, id).len(),
    decreases rank(s, id), 1nat, 0nat,
{
    let n = node_of(s, id).children.len();
    let all = listed(s, TraversalStrategy::PostOrder, id, n);
    let out = walk(s, TraversalStrategy::PostOrder, id);
    lemma_postorder_listed(s, id, n);
    lemma_first_occurrences(all.push(id));
    crate::seqs::lemma_joined(all, seq![id]);
    crate::seqs::lemma_joined(seq![id], below_children(s, id, n));
    assert(all.push(id) =~= all + seq![id]);
    assert(seq![id].contains(id)) by {
        assert(seq![id][0] == id);
    }
    assert forall|x: Q| seq![id].contains(x) implies x == id by {}
    // The node is below none of its children, so it is listed last.
    crate::descent::lemma_below_children_once(s, id, n);
    assert(!all.contains(id));
    lemma_first_occurrences(all);
    assert(all.push(id).drop_last() =~= all);
    lemma_first_occurrences_hold(all, id);
    assert(out == first_occurrences(all).push(id));
    assert(below(s, id) == seq![id] + below_children(s, id, n));
    let rest = below_children(s, id, n);
    assert forall|x: Q| out.contains(x) <==> below(s, id).contains(x) by {
        lemma_first_occurrences_hold(all.push(id), x);
        assert(out.contains(x) <==> (all + seq![id]).contains(x));
        assert((all + seq![id]).contains(x) <==> all.contains(x) || seq![id].contains(x));
        assert((seq![id] + rest).contains(x) <==> seq![id].contains(x) || rest.contains(x));
        assert(all.contains(x) <==> rest.contains(x));
    }
    // Two lists without repetitions that hold the same are equally long.
    lemma_below_once(s, id);
    crate::seqs::lemma_same_length(out, below(s, id));
}

} // verus!
