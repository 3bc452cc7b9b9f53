//! The mathematical model of a tree's node store.
//!
//! A store is the sequence of the models of a tree's nodes, in insertion
//! order. A lookup by id finds the first node that carries the id.

use vstd::prelude::*;
use crate::node::NodeModel;

verus! {

/// `i` is the first position of `s` whose node has the id `id`.
pub open spec fn is_first<Q, T>(s: Seq<NodeModel<Q, T>>, id: Q, i: int) -> bool {
    &&& 0 <= i < s.len()
    &&& s[i].id == id
    &&& forall|j: int| 0 <= j < i ==> (#[trigger] s[j]).id != id
}

/// Some node of `s` has the id `id`.
pub open spec fn present<Q, T>(s: Seq<NodeModel<Q, T>>, id: Q) -> bool {
    exists|i: int| is_first(s, id, i)
}

/// The position at which a lookup of `id` in `s` ends.
pub open spec fn slot<Q, T>(s: Seq<NodeModel<Q, T>>, id: Q) -> int {
    choose|i: int| is_first(s, id, i)
}

/// The node that a lookup of `id` in `s` yields.
pub open spec fn node_of<Q, T>(s: Seq<NodeModel<Q, T>>, id: Q) -> NodeModel<Q, T> {
    s[slot(s, id)]
}

/// `i` is the first position of `s` whose node has no parent.
pub open spec fn is_first_root<Q, T>(s: Seq<NodeModel<Q, T>>, i: int) -> bool {
    &&& 0 <= i < s.len()
    &&& s[i].parent.is_none()
    &&& forall|j: int| 0 <= j < i ==> (#[trigger] s[j]).parent.is_some()
}

/// Some node of `s` has no parent.
pub open spec fn has_root<Q, T>(s: Seq<NodeModel<Q, T>>) -> bool {
    exists|i: int| is_first_root(s, i)
}

/// The position of the first node of `s` that has no parent.
pub open spec fn root_slot<Q, T>(s: Seq<NodeModel<Q, T>>) -> int {
    choose|i: int| is_first_root(s, i)
}

/// A node with the id `id` stands somewhere in `s` exactly if a lookup finds one.
pub proof fn lemma_has_from_any<Q, T>(s: Seq<NodeModel<Q, T>>, id: Q, i: int)
    requires
        0 <= i < s.len(),
        s[i].id == id,
    ensures
        present(s, id),
        slot(s, id) <= i,
        is_first(s, id, slot(s, id)),
    decreases i,
{
    if forall|j: int| 0 <= j < i ==> (#[trigger] s[j]).id != id {
        assert(is_first(s, id, i));
    } else {
        let j = choose|j: int| 0 <= j < i && (#[trigger] s[j]).id == id;
        lemma_has_from_any(s, id, j);
    }
}

/// A node without a parent stands somewhere in `s` exactly if a first one does.
pub proof fn lemma_root_from_any<Q, T>(s: Seq<NodeModel<Q, T>>, i: int)
    requires
        0 <= i < s.len(),
        s[i].parent.is_none(),
    ensures
        has_root(s),
        root_slot(s) <= i,
        is_first_root(s, root_slot(s)),
    decreases i,
{
    if forall|j: int| 0 <= j < i ==> (#[trigger] s[j]).parent.is_some() {
        assert(is_first_root(s, i));
    } else {
        let j = choose|j: int| 0 <= j < i && (#[trigger] s[j]).parent.is_none();
        lemma_root_from_any(s, j);
    }
}

/// `s` with `child` appended to the children of the node at position `p`.
pub open spec fn with_child<Q, T>(s: Seq<NodeModel<Q, T>>, p: int, child: Q) -> Seq<
    NodeModel<Q, T>,
> {
    s.update(p, NodeModel { children: s[p].children.push(child), ..s[p] })
}

/// `s` after `node` was added below `parent`: where a lookup finds `parent`,
/// that node gains the child and `node` names it as its parent; where none
/// does, `node` is stored as it came.
pub open spec fn attach<Q, T>(s: Seq<NodeModel<Q, T>>, node: NodeModel<Q, T>, parent: Q) -> Seq<
    NodeModel<Q, T>,
> {
    if present(s, parent) {
        with_child(s, slot(s, parent), node.id).push(NodeModel { parent: Some(parent), ..node })
    } else {
        s.push(node)
    }
}

/// `r` gives every listed child a smaller rank than the node that lists it.
pub open spec fn ranks_down<Q, T>(s: Seq<NodeModel<Q, T>>, r: spec_fn(Q) -> nat) -> bool {
    forall|i: int, k: int|
        0 <= i < s.len() && 0 <= k < s[i].children.len() ==> r(#[trigger] s[i].children[k]) < r(
            s[i].id,
        )
}

/// No chain of children returns to where it began.
pub open spec fn acyclic<Q, T>(s: Seq<NodeModel<Q, T>>) -> bool {
    exists|r: spec_fn(Q) -> nat| ranks_down(s, r)
}

/// A rank that falls along every chain of children of an acyclic store.
pub open spec fn rank<Q, T>(s: Seq<NodeModel<Q, T>>, id: Q) -> nat {
    (choose|r: spec_fn(Q) -> nat| ranks_down(s, r))(id)
}

/// Every id that some node lists as a child belongs to a node of `s`.
pub open spec fn children_present<Q, T>(s: Seq<NodeModel<Q, T>>) -> bool {
    forall|i: int, k: int|
        0 <= i < s.len() && 0 <= k < s[i].children.len() ==> present(
            s,
            #[trigger] s[i].children[k],
        )
}

/// `r` gives every node a larger rank than the parent that it names.
pub open spec fn ranks_up<Q, T>(s: Seq<NodeModel<Q, T>>, r: spec_fn(Q) -> nat) -> bool {
    forall|j: int|
        0 <= j < s.len() && (#[trigger] s[j]).parent.is_some() ==> r(s[j].parent.unwrap()) < r(
            s[j].id,
        )
}

/// Every chain of parents ends.
pub open spec fn grounded<Q, T>(s: Seq<NodeModel<Q, T>>) -> bool {
    exists|r: spec_fn(Q) -> nat| ranks_up(s, r)
}

/// A rank that falls along every chain of parents of a grounded store.
pub open spec fn up_rank<Q, T>(s: Seq<NodeModel<Q, T>>, id: Q) -> nat {
    (choose|r: spec_fn(Q) -> nat| ranks_up(s, r))(id)
}

/// Every id that some node names as its parent belongs to a node of `s`.
pub open spec fn parents_present<Q, T>(s: Seq<NodeModel<Q, T>>) -> bool {
    forall|j: int|
        0 <= j < s.len() && (#[trigger] s[j]).parent.is_some() ==> present(
            s,
            s[j].parent.unwrap(),
        )
}

/// No two nodes of `s` have the same id.
pub open spec fn distinct_ids<Q, T>(s: Seq<NodeModel<Q, T>>) -> bool {
    forall|i: int, j: int| 0 <= i < j < s.len() ==> (#[trigger] s[i]).id != (#[trigger] s[j]).id
}

/// No node of `s` lists a child twice.
pub open spec fn no_repeated_children<Q, T>(s: Seq<NodeModel<Q, T>>) -> bool {
    forall|i: int| 0 <= i < s.len() ==> (#[trigger] s[i]).children.no_duplicates()
}

/// Parents and children agree: the parent that a node names is in `s` and
/// lists the node, and a child that a node lists is in `s` and names the node
/// as its parent.
pub open spec fn linked<Q, T>(s: Seq<NodeModel<Q, T>>) -> bool {
    &&& forall|j: int|
        0 <= j < s.len() && (#[trigger] s[j]).parent.is_some() ==> present(
            s,
            s[j].parent.unwrap(),
        ) && node_of(s, s[j].parent.unwrap()).children.contains(s[j].id)
    &&& forall|i: int, k: int|
        0 <= i < s.len() && 0 <= k < s[i].children.len() ==> present(
            s,
            #[trigger] s[i].children[k],
        ) && node_of(s, s[i].children[k]).parent == Some(s[i].id)
}

/// At most one node of `s` has no parent.
pub open spec fn at_most_one_root<Q, T>(s: Seq<NodeModel<Q, T>>) -> bool {
    forall|i: int, j: int|
        0 <= i < s.len() && 0 <= j < s.len() && (#[trigger] s[i]).parent.is_none() && (
        #[trigger] s[j]).parent.is_none() ==> i == j
}

/// `n` is new to `s`: no node of `s` has its id, and it has neither parent nor
/// children.
pub open spec fn fresh<Q, T>(s: Seq<NodeModel<Q, T>>, n: NodeModel<Q, T>) -> bool {
    &&& !present(s, n.id)
    &&& n.parent.is_none()
    &&& n.children.len() == 0
}

/// Exactly one node of `s` has no parent.
pub open spec fn one_root<Q, T>(s: Seq<NodeModel<Q, T>>) -> bool {
    has_root(s) && at_most_one_root(s)
}

/// The nodes of `s` form a forest: ids are distinct, parents and children
/// agree, and no chain of links returns to where it began.
pub open spec fn forest<Q, T>(s: Seq<NodeModel<Q, T>>) -> bool {
    &&& distinct_ids(s)
    &&& no_repeated_children(s)
    &&& linked(s)
    &&& acyclic(s)
    &&& grounded(s)
}

/// The nodes of `s` form a tree: a forest with at most one node without
/// parent.
pub open spec fn well_formed<Q, T>(s: Seq<NodeModel<Q, T>>) -> bool {
    &&& forest(s)
    &&& at_most_one_root(s)
}

/// No id belongs to a node of `a` and to a node of `b`.
pub open spec fn apart<Q, T>(a: Seq<NodeModel<Q, T>>, b: Seq<NodeModel<Q, T>>) -> bool {
    forall|x: Q| !(present(a, x) && present(b, x))
}

/// Where no lookup finds `id`, no node of `s` has it.
pub proof fn lemma_absent<Q, T>(s: Seq<NodeModel<Q, T>>, id: Q)
    requires
        !present(s, id),
    ensures
        forall|i: int| 0 <= i < s.len() ==> (#[trigger] s[i]).id != id,
{
    assert forall|i: int| 0 <= i < s.len() implies (#[trigger] s[i]).id != id by {
        if s[i].id == id {
            lemma_has_from_any(s, id, i);
        }
    }
}

/// In a store with distinct ids every node is what a lookup of its id yields.
pub proof fn lemma_distinct_slot<Q, T>(s: Seq<NodeModel<Q, T>>, i: int)
    requires
        distinct_ids(s),
        0 <= i < s.len(),
    ensures
        is_first(s, s[i].id, i),
        present(s, s[i].id),
        slot(s, s[i].id) == i,
{
    assert(is_first(s, s[i].id, i));
}

} // verus!
