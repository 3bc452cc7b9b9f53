//! A single node of a tree: its id, its payload and its links.

use vstd::prelude::*;
use vstd::std_specs::cmp::PartialEqSpec;

verus! {

/// Cloning a value of `A` yields a value equal to the one that was cloned.
pub open spec fn faithful_clone<A: Clone>() -> bool {
    forall|a: A, b: A| #[trigger] cloned::<A>(a, b) ==> a == b
}

/// `==` on `A` holds of two values exactly if they are equal.
pub open spec fn lawful_eq<A: PartialEq>() -> bool {
    &&& A::obeys_eq_spec()
    &&& forall|a: A, b: A| #[trigger] a.eq_spec(&b) <==> a == b
}

/// `==` on `Q` decides equality of ids, and cloning an id keeps it.
pub open spec fn lawful_key<Q: PartialEq + Clone>() -> bool {
    &&& lawful_eq::<Q>()
    &&& faithful_clone::<Q>()
}

/// What a node is: an id, an optional payload, the id of its parent if it has
/// one, and the ids of its children from left to right.
pub ghost struct NodeModel<Q, T> {
    pub id: Q,
    pub value: Option<T>,
    pub parent: Option<Q>,
    pub children: Seq<Q>,
}

/// A node as a tree stores it.
#[derive(Debug)]
pub struct Node<Q, T> {
    node_id: Q,
    value: Option<T>,
    parent: Option<Q>,
    children: Vec<Q>,
}

impl<Q, T> View for Node<Q, T> {
    type V = NodeModel<Q, T>;

    closed spec fn view(&self) -> NodeModel<Q, T> {
        NodeModel {
            id: self.node_id,
            value: self.value,
            parent: self.parent,
            children: self.children@,
        }
    }
}

/// Copies an id.
pub fn copy_key<Q: PartialEq + Clone>(key: &Q) -> (r: Q)
    requires
        lawful_key::<Q>(),
    ensures
        r == *key,
{
    let r = key.clone();
    proof {
        assert(cloned::<Q>(*key, r));
    }
    r
}

/// Copies a list of ids.
pub fn copy_keys<Q: PartialEq + Clone>(keys: &Vec<Q>) -> (r: Vec<Q>)
    requires
        lawful_key::<Q>(),
    ensures
        r@ == keys@,
{
    let mut r: Vec<Q> = Vec::new();
    let mut i: usize = 0;
    while i < keys.len()
        invariant
            lawful_key::<Q>(),
            i <= keys@.len(),
            r@ == keys@.take(i as int),
        decreases keys@.len() - i,
    {
        r.push(copy_key(&keys[i]));
        i += 1;
        assert(keys@.take(i as int) == keys@.take(i - 1).push(keys@[i - 1]));
    }
    assert(keys@.take(keys@.len() as int) == keys@);
    r
}

impl<Q, T> Node<Q, T> {
    /// The node's id, borrowed.
    pub fn id(&self) -> (r: &Q)
        ensures
            *r == self@.id,
    {
        &self.node_id
    }

    /// The node's payload, borrowed.
    pub fn value(&self) -> (r: &Option<T>)
        ensures
            *r == self@.value,
    {
        &self.value
    }

    /// The id of the node's parent, borrowed.
    pub fn parent(&self) -> (r: &Option<Q>)
        ensures
            *r == self@.parent,
    {
        &self.parent
    }

    /// The ids of the node's children, borrowed.
    pub fn children(&self) -> (r: &Vec<Q>)
        ensures
            r@ == self@.children,
    {
        &self.children
    }
}

impl<Q: PartialEq + Clone, T> Node<Q, T> {
    /// A node with the given id and payload, without parent or children.
    pub fn new(node_id: Q, value: Option<T>) -> (r: Self)
        ensures
            r@ == (NodeModel { id: node_id, value, parent: None, children: Seq::empty() }),
    {
        Node { node_id, value, parent: None, children: Vec::new() }
    }

    /// A node with all four of its parts given.
    pub fn from_parts(node_id: Q, value: Option<T>, parent: Option<Q>, children: Vec<Q>) -> (r:
        Self)
        ensures
            r@ == (NodeModel { id: node_id, value, parent, children: children@ }),
    {
        Node { node_id, value, parent, children }
    }

    /// The node's id.
    pub fn get_node_id(&self) -> (r: Q)
        requires
            lawful_key::<Q>(),
        ensures
            r == self@.id,
    {
        copy_key(&self.node_id)
    }

    /// The id of the node's parent, if it has one.
    pub fn get_parent(&self) -> (r: Option<Q>)
        requires
            lawful_key::<Q>(),
        ensures
            r == self@.parent,
    {
        match &self.parent {
            Some(p) => Some(copy_key(p)),
            None => None,
        }
    }

    /// The ids of the node's children, from left to right.
    pub fn get_children(&self) -> (r: Vec<Q>)
        requires
            lawful_key::<Q>(),
        ensures
            r@ == self@.children,
    {
        copy_keys(&self.children)
    }

    /// Replaces the id of the node's parent.
    pub fn set_parent(&mut self, parent: Option<Q>)
        ensures
            final(self)@ == (NodeModel { parent, ..old(self)@ }),
    {
        self.parent = parent;
    }

    /// Appends `child` to the ids of the node's children.
    pub fn push_child(&mut self, child: Q)
        ensures
            final(self)@ == (NodeModel { children: old(self)@.children.push(child), ..old(self)@ }),
    {
        self.children.push(child);
    }

    /// Replaces the ids of the node's children.
    pub fn set_children(&mut self, children: Vec<Q>)
        ensures
            final(self)@ == (NodeModel { children: children@, ..old(self)@ }),
    {
        self.children = children;
    }
}

impl<Q: PartialEq + Clone, T: Clone> Node<Q, T> {
    /// The node's payload.
    pub fn get_value(&self) -> (r: Option<T>)
        requires
            faithful_clone::<T>(),
        ensures
            r == self@.value,
    {
        match &self.value {
            Some(v) => {
                let c = v.clone();
                proof {
                    assert(cloned::<T>(*v, c));
                }
                Some(c)
            },
            None => None,
        }
    }
}

impl<Q: PartialEq + Clone, T: Clone> Clone for Node<Q, T> {
    fn clone(&self) -> (r: Self)
        ensures
            lawful_key::<Q>() && faithful_clone::<T>() ==> r@ == self@,
    {
        let node_id = self.node_id.clone();
        let value = self.value.clone();
        let parent = self.parent.clone();
        let children = self.children.clone();
        proof {
            if lawful_key::<Q>() && faithful_clone::<T>() {
                assert(cloned::<Q>(self.node_id, node_id));
                if self.value.is_some() {
                    assert(cloned::<T>(self.value.unwrap(), value.unwrap()));
                }
                if self.parent.is_some() {
                    assert(cloned::<Q>(self.parent.unwrap(), parent.unwrap()));
                }
                assert forall|i: int| 0 <= i < children@.len() implies children@[i]
                    == self.children@[i] by {
                    assert(cloned::<Q>(self.children@[i], children@[i]));
                }
                assert(children@ =~= self.children@);
            }
        }
        Node { node_id, value, parent, children }
    }
}

} // verus!
