//! Linear orders over the nodes below a node.

use vstd::prelude::*;
use std::collections::HashSet;
use std::hash::Hash;
use vstd::std_specs::hash::obeys_key_model;
use crate::node::{NodeModel, lawful_key, copy_key};
use crate::store::{is_first, present, slot, node_of, acyclic, rank, ranks_down, children_present};
use crate::tree::{Tree, TraversalStrategy};

verus! {

/// `v` without the later occurrences of what occurs in it more than once.
pub open spec fn first_occurrences<Q>(v: Seq<Q>) -> Seq<Q>
    decreases v.len(),
{
    if v.len() == 0 {
        Seq::empty()
    } else {
        let kept = first_occurrences(v.drop_last());
        if kept.contains(v.last()) {
            kept
        } else {
            kept.push(v.last())
        }
    }
}

/// What a traversal from `id` has listed once it has dealt with the first `k`
/// children of the node that a lookup of `id` yields.
///
/// `PreOrder` starts with the node itself. `PreOrder` and `PostOrder` then add
/// the traversal of each child in turn. `InOrder` adds the traversal of the
/// first child, then that child and the node unless they are listed already,
/// and for each further child the child followed by its traversal.
pub open spec fn listed<Q, T>(s: Seq<NodeModel<Q, T>>, order: TraversalStrategy, id: Q, k: nat) -> Seq<
    Q,
>
    decreases rank(s, id), 0nat, k,
{
    if acyclic(s) && present(s, id) && 0 < k <= node_of(s, id).children.len() {
        let before = listed(s, order, id, (k - 1) as nat);
        let child = node_of(s, id).children[k - 1];
        let below = walk(s, order, child);
        match order {
            TraversalStrategy::PreOrder => before + below,
            TraversalStrategy::PostOrder => before + below,
            TraversalStrategy::InOrder => if k == 1 {
                let first = before + below;
                let with_child = if first.contains(child) {
                    first
                } else {
                    first.push(child)
                };
                if with_child.contains(id) {
                    with_child
                } else {
                    with_child.push(id)
                }
            } else {
                before.push(child) + below
            },
        }
    } else {
        match order {
            TraversalStrategy::PreOrder => seq![id],
            TraversalStrategy::PostOrder => Seq::empty(),
            TraversalStrategy::InOrder => Seq::empty(),
        }
    }
}

/// The ids that a traversal from `id` yields, in order, each once.
pub open spec fn walk<Q, T>(s: Seq<NodeModel<Q, T>>, order: TraversalStrategy, id: Q) -> Seq<Q>
    decreases rank(s, id), 1nat, 0nat,
{
    if acyclic(s) && present(s, id) {
        let all = listed(s, order, id, node_of(s, id).children.len());
        match order {
            TraversalStrategy::PreOrder => first_occurrences(all),
            TraversalStrategy::PostOrder => first_occurrences(all.push(id)),
            TraversalStrategy::InOrder => first_occurrences(all),
        }
    } else {
        Seq::empty()
    }
}

/// Whether `key` occurs in `keys`.
pub fn contains_key<Q: PartialEq + Clone>(keys: &Vec<Q>, key: &Q) -> (r: bool)
    requires
        lawful_key::<Q>(),
    ensures
        r == keys@.contains(*key),
{
    let mut i: usize = 0;
    while i < keys.len()
        invariant
            lawful_key::<Q>(),
            i <= keys@.len(),
            forall|j: int| 0 <= j < i ==> keys@[j] != *key,
        decreases keys@.len() - i,
    {
        if keys[i] == *key {
            return true;
        }
        i += 1;
    }
    false
}

/// Drops from `keys` every id that occurred earlier in it.
pub fn keep_first_occurrences<Q: PartialEq + Eq + Clone + Hash>(keys: Vec<Q>) -> (r: Vec<Q>)
    requires
        lawful_key::<Q>(),
        obeys_key_model::<Q>(),
    ensures
        r@ == first_occurrences(keys@),
{
    let mut seen: HashSet<Q> = HashSet::new();
    let mut kept: Vec<Q> = Vec::new();
    let mut i: usize = 0;
    assert(keys@.take(0) =~= Seq::<Q>::empty());
    while i < keys.len()
        invariant
            lawful_key::<Q>(),
            obeys_key_model::<Q>(),
            i <= keys@.len(),
            kept@ == first_occurrences(keys@.take(i as int)),
            forall|q: Q| seen@.contains(q) <==> kept@.contains(q),
        decreases keys@.len() - i,
    {
        let ghost before = kept@;
        proof {
            assert(keys@.take(i + 1).drop_last() =~= keys@.take(i as int));
            assert(keys@.take(i + 1).last() == keys@[i as int]);
        }
        if seen.insert(copy_key(&keys[i])) {
            kept.push(copy_key(&keys[i]));
            proof {
                assert forall|q: Q| seen@.contains(q) <==> kept@.contains(q) by {
                    if kept@.contains(q) {
                        let j = choose|j: int| 0 <= j < kept@.len() && kept@[j] == q;
                        if j < before.len() {
                            assert(before[j] == q);
                        }
                    }
                    if before.contains(q) {
                        let j = choose|j: int| 0 <= j < before.len() && before[j] == q;
                        assert(kept@[j] == q);
                    }
                    if q == keys@[i as int] {
                        assert(kept@[before.len() as int] == q);
                    }
                }
            }
        }
        i += 1;
    }
    assert(keys@.take(keys@.len() as int) =~= keys@);
    kept
}

impl<Q: PartialEq + Eq + Clone + Hash, T> Tree<Q, T> {
    /// The ids of the nodes below and including `node_id`, in the given order,
    /// each once.
    pub fn traverse(&self, order: TraversalStrategy, node_id: &Q) -> (r: Vec<Q>)
        requires
            lawful_key::<Q>(),
            obeys_key_model::<Q>(),
            acyclic(self@),
            children_present(self@),
            present(self@, *node_id),
        ensures
            r@ == walk(self@, order, *node_id),
        decreases rank(self@, *node_id),
    {
        let i = self.position(node_id).unwrap();
        let children = self.nodes[i].children();
        let mut nodes: Vec<Q> = Vec::new();
        if let TraversalStrategy::PreOrder = order {
            nodes.push(copy_key(node_id));
        }
        let mut k: usize = 0;
        while k < children.len()
            invariant
                lawful_key::<Q>(),
                obeys_key_model::<Q>(),
                acyclic(self@),
                children_present(self@),
                is_first(self@, *node_id, i as int),
                i == slot(self@, *node_id),
                children@ == self@[i as int].children,
                k <= children@.len(),
                nodes@ == listed(self@, order, *node_id, k as nat),
            decreases children@.len() - k,
        {
            proof {
                assert(ranks_down(self@, |q: Q| rank(self@, q)));
                assert(self@[i as int].children[k as int] == children@[k as int]);
            }
            let child = &children[k];
            let mut below = self.traverse(order, child);
            match order {
                TraversalStrategy::PreOrder => {
                    nodes.append(&mut below);
                },
                TraversalStrategy::PostOrder => {
                    nodes.append(&mut below);
                },
                TraversalStrategy::InOrder => {
                    if k == 0 {
                        nodes.append(&mut below);
                        if !contains_key(&nodes, child) {
                            nodes.push(copy_key(child));
                        }
                        if !contains_key(&nodes, node_id) {
                            nodes.push(copy_key(node_id));
                        }
                    } else {
                        nodes.push(copy_key(child));
                        nodes.append(&mut below);
                    }
                },
            }
            k += 1;
        }
        if let TraversalStrategy::PostOrder = order {
            nodes.push(copy_key(node_id));
        }
        keep_first_occurrences(nodes)
    }
}

} // verus!
