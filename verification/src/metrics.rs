//! Height, depth and degree of the nodes of a tree.

use vstd::prelude::*;
use crate::node::{NodeModel, lawful_key};
use crate::store::{
    is_first, present, slot, node_of, has_root, root_slot, acyclic, rank, ranks_down,
    children_present, grounded, up_rank, ranks_up, parents_present,
};
use crate::tree::Tree;

verus! {

/// The height of the node that a lookup of `id` yields: 0 where it has no
/// children, else one more than the greatest height among them.
pub open spec fn height<Q, T>(s: Seq<NodeModel<Q, T>>, id: Q) -> nat
    decreases rank(s, id), 1nat, 0nat,
{
    if acyclic(s) && present(s, id) {
        tallest(s, id, node_of(s, id).children.len())
    } else {
        0
    }
}

/// The greatest of `1 + height(c)` over the first `k` children `c` of the node
/// that a lookup of `id` yields; 0 where `k` is 0.
pub open spec fn tallest<Q, T>(s: Seq<NodeModel<Q, T>>, id: Q, k: nat) -> nat
    decreases rank(s, id), 0nat, k,
{
    if acyclic(s) && present(s, id) && 0 < k <= node_of(s, id).children.len() {
        let rest = tallest(s, id, (k - 1) as nat);
        let h = 1 + height(s, node_of(s, id).children[k - 1]);
        if h > rest {
            h
        } else {
            rest
        }
    } else {
        0
    }
}

/// The number of parents between the node that a lookup of `id` yields and a
/// node without parent.
pub open spec fn depth<Q, T>(s: Seq<NodeModel<Q, T>>, id: Q) -> nat
    decreases up_rank(s, id),
{
    if grounded(s) && present(s, id) && node_of(s, id).parent.is_some() {
        1 + depth(s, node_of(s, id).parent.unwrap())
    } else {
        0
    }
}

/// The greatest over the first `k` children never falls when `k` grows.
pub proof fn lemma_tallest_grows<Q, T>(s: Seq<NodeModel<Q, T>>, id: Q, k: nat, n: nat)
    requires
        k <= n <= node_of(s, id).children.len(),
    ensures
        tallest(s, id, k) <= tallest(s, id, n),
    decreases n - k,
{
    if k < n {
        lemma_tallest_grows(s, id, k, (n - 1) as nat);
    }
}

impl<Q: PartialEq + Clone, T> Tree<Q, T> {
    /// The height of the node with the id `node_id`.
    pub fn get_node_height(&self, node_id: &Q) -> (r: i32)
        requires
            lawful_key::<Q>(),
            acyclic(self@),
            children_present(self@),
            present(self@, *node_id),
            height(self@, *node_id) <= i32::MAX,
        ensures
            r == height(self@, *node_id),
        decreases rank(self@, *node_id),
    {
        let i = self.position(node_id).unwrap();
        let children = self.nodes[i].children();
        let mut best: i32 = 0;
        let mut k: usize = 0;
        while k < children.len()
            invariant
                lawful_key::<Q>(),
                acyclic(self@),
                children_present(self@),
                is_first(self@, *node_id, i as int),
                i == slot(self@, *node_id),
                children@ == self@[i as int].children,
                height(self@, *node_id) <= i32::MAX,
                k <= children@.len(),
                best == tallest(self@, *node_id, k as nat),
            decreases children@.len() - k,
        {
            proof {
                lemma_tallest_grows(self@, *node_id, (k + 1) as nat, children@.len());
                assert(ranks_down(self@, |q: Q| rank(self@, q)));
                assert(self@[i as int].children[k as int] == children@[k as int]);
            }
            let h = self.get_node_height(&children[k]);
            if h + 1 > best {
                best = h + 1;
            }
            k += 1;
        }
        best
    }

    /// The number of children of the node with the id `node_id`.
    pub fn get_node_degree(&self, node_id: &Q) -> (r: i32)
        requires
            lawful_key::<Q>(),
            present(self@, *node_id),
        ensures
            r == node_of(self@, *node_id).children.len() as i32,
            node_of(self@, *node_id).children.len() <= i32::MAX ==> r == node_of(
                self@,
                *node_id,
            ).children.len(),
    {
        let i = self.position(node_id).unwrap();
        #[verifier::truncate]
        (self.nodes[i].children().len() as i32)
    }

    /// The number of parents between the node with the id `node_id` and the
    /// node without parent above it.
    pub fn get_node_depth(&self, node_id: &Q) -> (r: i32)
        requires
            lawful_key::<Q>(),
            grounded(self@),
            parents_present(self@),
            present(self@, *node_id),
            depth(self@, *node_id) <= i32::MAX,
        ensures
            r == depth(self@, *node_id),
    {
        let mut at = self.position(node_id).unwrap();
        let mut hops: i32 = 0;
        while self.nodes[at].parent().is_some()
            invariant
                lawful_key::<Q>(),
                grounded(self@),
                parents_present(self@),
                depth(self@, *node_id) <= i32::MAX,
                at < self@.len(),
                is_first(self@, self@[at as int].id, at as int),
                hops + depth(self@, self@[at as int].id) == depth(self@, *node_id),
            decreases up_rank(self@, self@[at as int].id),
        {
            proof {
                assert(ranks_up(self@, |q: Q| up_rank(self@, q)));
            }
            let up = match self.nodes[at].parent() {
                Some(p) => self.position(p).unwrap(),
                None => at,
            };
            hops += 1;
            at = up;
        }
        hops
    }

    /// The height of the first node without a parent.
    pub fn get_height(&self) -> (r: i32)
        requires
            lawful_key::<Q>(),
            acyclic(self@),
            children_present(self@),
            has_root(self@),
            height(self@, self@[root_slot(self@)].id) <= i32::MAX,
        ensures
            r == height(self@, self@[root_slot(self@)].id),
    {
        let i = self.root_position().unwrap();
        proof {
            crate::store::lemma_has_from_any(self@, self@[i as int].id, i as int);
        }
        self.get_node_height(self.nodes[i].id())
    }
}

} // verus!
