//! When two nodes, and two trees, are equal.

use vstd::prelude::*;
use vstd::std_specs::cmp::PartialEqSpec;
use crate::node::{Node, NodeModel, lawful_eq};
use crate::tree::Tree;

verus! {

/// `==` holds between the ids of `a` and `b`, between their payloads, between
/// their parents and between their children, one by one.
pub open spec fn same_node<Q: PartialEq, T: PartialEq>(
    a: NodeModel<Q, T>,
    b: NodeModel<Q, T>,
) -> bool {
    &&& a.id.eq_spec(&b.id)
    &&& a.value.eq_spec(&b.value)
    &&& a.parent.eq_spec(&b.parent)
    &&& a.children.len() == b.children.len()
    &&& forall|k: int|
        0 <= k < a.children.len() ==> (#[trigger] a.children[k]).eq_spec(&b.children[k])
}

/// `a` and `b` have as many nodes, and each node of `a` is the same as the
/// node of `b` at its position.
pub open spec fn same_nodes<Q: PartialEq, T: PartialEq>(
    a: Seq<NodeModel<Q, T>>,
    b: Seq<NodeModel<Q, T>>,
) -> bool {
    &&& a.len() == b.len()
    &&& forall|i: int| 0 <= i < a.len() ==> same_node(#[trigger] a[i], b[i])
}

impl<Q: PartialEq, T: PartialEq> PartialEq for Node<Q, T> {
    /// Whether the two nodes have the same id, payload, parent and children.
    fn eq(&self, other: &Self) -> (r: bool) {
        *self.id() == *other.id() && *self.value() == *other.value() && *self.parent()
            == *other.parent() && *self.children() == *other.children()
    }
}

impl<Q: PartialEq, T: PartialEq> vstd::std_specs::cmp::PartialEqSpecImpl for Node<Q, T> {
    open spec fn obeys_eq_spec() -> bool {
        Q::obeys_eq_spec() && T::obeys_eq_spec()
    }

    open spec fn eq_spec(&self, other: &Self) -> bool {
        same_node(self@, other@)
    }
}

impl<Q: Eq, T: Eq> Eq for Node<Q, T> {

}

impl<Q: PartialEq, T: PartialEq> PartialEq for Tree<Q, T> {
    /// Whether the two trees hold the same nodes in the same order.
    fn eq(&self, other: &Self) -> (r: bool) {
        let mine = self.get_nodes();
        let theirs = other.get_nodes();
        if mine.len() != theirs.len() {
            return false;
        }
        let mut i: usize = 0;
        while i < mine.len()
            invariant
                mine@.len() == self@.len(),
                theirs@.len() == other@.len(),
                self@.len() == other@.len(),
                forall|j: int| 0 <= j < mine@.len() ==> (#[trigger] mine@[j])@ == self@[j],
                forall|j: int| 0 <= j < theirs@.len() ==> (#[trigger] theirs@[j])@ == other@[j],
                i <= mine@.len(),
                Q::obeys_eq_spec() && T::obeys_eq_spec() ==> forall|j: int|
                    0 <= j < i ==> same_node(#[trigger] self@[j], other@[j]),
            decreases mine@.len() - i,
        {
            if !(mine[i] == theirs[i]) {
                return false;
            }
            i += 1;
        }
        true
    }
}

impl<Q: PartialEq, T: PartialEq> vstd::std_specs::cmp::PartialEqSpecImpl for Tree<Q, T> {
    open spec fn obeys_eq_spec() -> bool {
        Q::obeys_eq_spec() && T::obeys_eq_spec()
    }

    open spec fn eq_spec(&self, other: &Self) -> bool {
        same_nodes(self@, other@)
    }
}

impl<Q: Eq, T: Eq> Eq for Tree<Q, T> {

}

/// Where `==` on ids and on payloads holds exactly of equal values, two nodes
/// are the same exactly if their models are equal.
pub proof fn law_node_equality<Q: PartialEq, T: PartialEq>(a: NodeModel<Q, T>, b: NodeModel<Q, T>)
    requires
        lawful_eq::<Q>(),
        lawful_eq::<T>(),
    ensures
        same_node(a, b) <==> a == b,
{
    if same_node(a, b) {
        assert(a.children =~= b.children);
    }
}

/// Where `==` on ids and on payloads holds exactly of equal values, two trees
/// are equal exactly if they hold equal nodes in the same order.
pub proof fn law_tree_equality<Q: PartialEq, T: PartialEq>(a: Tree<Q, T>, b: Tree<Q, T>)
    requires
        lawful_eq::<Q>(),
        lawful_eq::<T>(),
    ensures
        a.eq_spec(&b) <==> a@ == b@,
{
    if same_nodes(a@, b@) {
        assert forall|i: int| 0 <= i < a@.len() implies a@[i] == b@[i] by {
            law_node_equality(a@[i], b@[i]);
        }
        assert(a@ =~= b@);
    }
    if a@ == b@ {
        assert forall|i: int| 0 <= i < a@.len() implies same_node(#[trigger] a@[i], b@[i]) by {
            law_node_equality(a@[i], b@[i]);
        }
    }
}

} // verus!
