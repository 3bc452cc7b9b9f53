//! The tree container: its store, lookups and insertion.

use vstd::prelude::*;
use crate::error::Error;
use crate::node::{Node, NodeModel, lawful_key, faithful_clone, copy_key};
use crate::store::{
    is_first, present, slot, node_of, is_first_root, has_root, root_slot, attach, well_formed, fresh,
};
use crate::laws::{law_empty_well_formed, law_attach_well_formed, law_root_well_formed};

verus! {

/// What becomes of the children of a node that is removed.
#[derive(Clone, Copy, Debug)]
pub enum NodeRemovalStrategy {
    /// The children move up: they become children of the removed node's parent.
    RetainChildren,
    /// The children go too, with everything below them.
    RemoveNodeAndChildren,
}

/// The order in which a traversal lists the nodes below its start.
#[derive(Clone, Copy, Debug)]
pub enum TraversalStrategy {
    /// A node, then the subtrees of its children from left to right.
    PreOrder,
    /// The subtrees of a node's children from left to right, then the node.
    PostOrder,
    /// The subtree of the first child, then the node, then the other subtrees.
    InOrder,
}

/// A tree of nodes with ids of type `Q` and payloads of type `T`.
///
/// The nodes are kept in the order in which they were added.
#[derive(Debug)]
pub struct Tree<Q, T> {
    pub(crate) nodes: Vec<Node<Q, T>>,
}

/// A part of a tree, held as a tree of its own.
pub type SubTree<Q, T> = Tree<Q, T>;

impl<Q, T> View for Tree<Q, T> {
    type V = Seq<NodeModel<Q, T>>;

    open(crate) spec fn view(&self) -> Seq<NodeModel<Q, T>> {
        Seq::new(self.nodes@.len(), |i: int| self.nodes@[i]@)
    }
}

impl<Q, T> Tree<Q, T> {
    /// A tree that holds the given nodes, in their order, as they are.
    pub fn from_nodes(nodes: Vec<Node<Q, T>>) -> (r: Self)
        ensures
            r@.len() == nodes@.len(),
            forall|i: int| 0 <= i < nodes@.len() ==> r@[i] == (#[trigger] nodes@[i])@,
    {
        Tree { nodes }
    }

    /// The nodes of the tree, in the order in which they were added.
    pub fn get_nodes(&self) -> (r: &Vec<Node<Q, T>>)
        ensures
            r@.len() == self@.len(),
            forall|i: int| 0 <= i < r@.len() ==> (#[trigger] r@[i])@ == self@[i],
    {
        &self.nodes
    }
}

impl<Q: PartialEq + Clone, T> Tree<Q, T> {
    /// A tree without nodes.
    pub fn new() -> (r: Self)
        ensures
            r@ == Seq::<NodeModel<Q, T>>::empty(),
            well_formed(r@),
    {
        let r = Tree { nodes: Vec::new() };
        proof {
            assert(r@ =~= Seq::<NodeModel<Q, T>>::empty());
            law_empty_well_formed::<Q, T>();
        }
        r
    }

    /// The position of the first node with the id `node_id`.
    pub fn position(&self, node_id: &Q) -> (r: Option<usize>)
        requires
            lawful_key::<Q>(),
        ensures
            match r {
                Some(i) => is_first(self@, *node_id, i as int),
                None => !present(self@, *node_id),
            },
            r.is_some() == present(self@, *node_id),
            r.is_some() ==> r.unwrap() == slot(self@, *node_id),
    {
        let mut i: usize = 0;
        while i < self.nodes.len()
            invariant
                lawful_key::<Q>(),
                i <= self.nodes@.len(),
                forall|j: int| 0 <= j < i ==> (#[trigger] self@[j]).id != *node_id,
            decreases self.nodes@.len() - i,
        {
            if *self.nodes[i].id() == *node_id {
                assert(is_first(self@, *node_id, i as int));
                return Some(i);
            }
            i += 1;
        }
        None
    }

    /// The position of the first node without a parent.
    pub fn root_position(&self) -> (r: Option<usize>)
        ensures
            match r {
                Some(i) => is_first_root(self@, i as int),
                None => !has_root(self@),
            },
            r.is_some() == has_root(self@),
            r.is_some() ==> r.unwrap() == root_slot(self@),
    {
        let mut i: usize = 0;
        while i < self.nodes.len()
            invariant
                i <= self.nodes@.len(),
                forall|j: int| 0 <= j < i ==> (#[trigger] self@[j]).parent.is_some(),
            decreases self.nodes@.len() - i,
        {
            if self.nodes[i].parent().is_none() {
                assert(is_first_root(self@, i as int));
                return Some(i);
            }
            i += 1;
        }
        None
    }

    /// Adds `node` to the tree, below the node with the id `parent_id` where one
    /// is given.
    ///
    /// With a parent id that a lookup finds, that node gains `node` as its last
    /// child. With one that no lookup finds, `node` is stored unattached. Without
    /// a parent id, `node` becomes the root, unless the tree has a node without
    /// parent already: then the tree stays as it is.
    pub fn add_node(&mut self, node: Node<Q, T>, parent_id: Option<&Q>) -> (r: Result<Q, Error>)
        requires
            lawful_key::<Q>(),
        ensures
            match parent_id {
                Some(p) => r == Ok::<Q, Error>(node@.id) && final(self)@ == attach(
                    old(self)@,
                    node@,
                    *p,
                ),
                None => if has_root(old(self)@) {
                    r == Err::<Q, Error>(Error::RootNodeAlreadyPresent) && final(self)@ == old(
                        self,
                    )@
                } else {
                    r == Ok::<Q, Error>(node@.id) && final(self)@ == old(self)@.push(node@)
                },
            },
            well_formed(old(self)@) && fresh(old(self)@, node@) && (match parent_id {
                Some(p) => present(old(self)@, *p),
                None => true,
            }) ==> well_formed(final(self)@),
    {
        let ghost given = node@;
        let mut node = node;
        let id = node.get_node_id();
        match parent_id {
            Some(p) => {
                match self.position(p) {
                    Some(i) => {
                        self.nodes[i].push_child(copy_key(&id));
                        node.set_parent(Some(copy_key(p)));
                    },
                    None => {},
                }
            },
            None => {
                if self.root_position().is_some() {
                    return Err(Error::RootNodeAlreadyPresent);
                }
            },
        }
        self.nodes.push(node);
        proof {
            match parent_id {
                Some(p) => {
                    assert(final(self)@ =~= attach(old(self)@, given, *p));
                    if well_formed(old(self)@) && fresh(old(self)@, given) && present(
                        old(self)@,
                        *p,
                    ) {
                        law_attach_well_formed(old(self)@, given, *p);
                    }
                },
                None => {
                    assert(final(self)@ =~= old(self)@.push(given));
                    if well_formed(old(self)@) && fresh(old(self)@, given) {
                        law_root_well_formed(old(self)@, given);
                    }
                },
            }
        }
        Ok(id)
    }
}

impl<Q: PartialEq + Clone, T: Clone> Tree<Q, T> {
    /// The first node with the id `node_id`, if there is one.
    pub fn get_node(&self, node_id: &Q) -> (r: Option<Node<Q, T>>)
        requires
            lawful_key::<Q>(),
            faithful_clone::<T>(),
        ensures
            match r {
                Some(n) => is_first(self@, *node_id, slot(self@, *node_id)) && n@ == node_of(
                    self@,
                    *node_id,
                ),
                None => !present(self@, *node_id),
            },
            r.is_some() == present(self@, *node_id),
    {
        match self.position(node_id) {
            Some(i) => Some(self.nodes[i].clone()),
            None => None,
        }
    }

    /// The first node without a parent, if there is one.
    pub fn get_root_node(&self) -> (r: Option<Node<Q, T>>)
        requires
            lawful_key::<Q>(),
            faithful_clone::<T>(),
        ensures
            match r {
                Some(n) => is_first_root(self@, root_slot(self@)) && n@ == self@[root_slot(self@)],
                None => !has_root(self@),
            },
            r.is_some() == has_root(self@),
    {
        match self.root_position() {
            Some(i) => Some(self.nodes[i].clone()),
            None => None,
        }
    }
}

impl<Q: PartialEq + Clone, T> Default for Tree<Q, T> {
    fn default() -> (r: Self)
        ensures
            r@ == Seq::<NodeModel<Q, T>>::empty(),
    {
        Tree::new()
    }
}

impl<Q: PartialEq + Clone, T: Clone> Clone for Tree<Q, T> {
    fn clone(&self) -> (r: Self)
        ensures
            lawful_key::<Q>() && faithful_clone::<T>() ==> r@ == self@,
    {
        let mut nodes: Vec<Node<Q, T>> = Vec::new();
        let mut i: usize = 0;
        while i < self.nodes.len()
            invariant
                i <= self.nodes@.len(),
                nodes@.len() == i,
                lawful_key::<Q>() && faithful_clone::<T>() ==> forall|j: int|
                    0 <= j < i ==> (#[trigger] nodes@[j])@ == self@[j],
            decreases self.nodes@.len() - i,
        {
            nodes.push(self.nodes[i].clone());
            i += 1;
        }
        let r = Tree { nodes };
        proof {
            if lawful_key::<Q>() && faithful_clone::<T>() {
                assert(r@ =~= self@);
            }
        }
        r
    }
}

} // verus!
