//! Taking a part out of a tree as a tree of its own, and adding one tree to
//! another.

use vstd::prelude::*;
use crate::node::{Node, NodeModel, lawful_key, faithful_clone, copy_key};
use crate::store::{
    is_first, present, slot, node_of, has_root, root_slot, acyclic, rank, ranks_down, with_child,
    forest, well_formed, apart,
};
use crate::tree::Tree;

verus! {

/// The ids of the node that a lookup of `id` yields and of everything below
/// it: the node first, then what is below each of its children in turn.
/// Nothing where no node has the id.
pub open spec fn below<Q, T>(s: Seq<NodeModel<Q, T>>, id: Q) -> Seq<Q>
    decreases rank(s, id), 1nat, 0nat,
{
    if acyclic(s) && present(s, id) {
        seq![id] + below_children(s, id, node_of(s, id).children.len())
    } else {
        Seq::empty()
    }
}

/// What is below the first `k` children of the node that a lookup of `id`
/// yields, those children included.
pub open spec fn below_children<Q, T>(s: Seq<NodeModel<Q, T>>, id: Q, k: nat) -> Seq<Q>
    decreases rank(s, id), 0nat, k,
{
    if acyclic(s) && present(s, id) && 0 < k <= node_of(s, id).children.len() {
        below_children(s, id, (k - 1) as nat) + below(s, node_of(s, id).children[k - 1])
    } else {
        Seq::empty()
    }
}

/// The ids that a walk of at most `g` rounds from `id` collects: the node
/// that a lookup of `id` yields, then for each bound from 0 up to `g - 1`, and
/// for each child in turn, what a walk from that child collects under that
/// bound. Nothing where no node has the id.
pub open spec fn within<Q, T>(s: Seq<NodeModel<Q, T>>, id: Q, g: int) -> Seq<Q>
    decreases g, 2nat, 0nat,
{
    if present(s, id) {
        if g > 0 {
            seq![id] + rounds(s, id, g, g as nat)
        } else {
            seq![id]
        }
    } else {
        Seq::empty()
    }
}

/// What the first `r` rounds of a walk of `g` rounds from `id` collect below
/// the node.
pub open spec fn rounds<Q, T>(s: Seq<NodeModel<Q, T>>, id: Q, g: int, r: nat) -> Seq<Q>
    decreases g, 1nat, r,
{
    if 0 < r <= g {
        rounds(s, id, g, (r - 1) as nat) + round(s, id, r - 1, node_of(s, id).children.len())
    } else {
        Seq::empty()
    }
}

/// What one round with the bound `bound` collects from the first `k` children
/// of the node that a lookup of `id` yields.
pub open spec fn round<Q, T>(s: Seq<NodeModel<Q, T>>, id: Q, bound: int, k: nat) -> Seq<Q>
    decreases bound, 3nat, k,
{
    if 0 <= bound && 0 < k <= node_of(s, id).children.len() {
        round(s, id, bound, (k - 1) as nat) + within(s, node_of(s, id).children[k - 1], bound)
    } else {
        Seq::empty()
    }
}

/// The nodes that lookups of `ids` yield, in the order of `ids`.
pub open spec fn picked<Q, T>(s: Seq<NodeModel<Q, T>>, ids: Seq<Q>) -> Seq<NodeModel<Q, T>> {
    Seq::new(ids.len(), |j: int| node_of(s, ids[j]))
}

/// Every id in `ids` belongs to a node of `s`.
pub open spec fn all_present<Q, T>(s: Seq<NodeModel<Q, T>>, ids: Seq<Q>) -> bool {
    forall|j: int| 0 <= j < ids.len() ==> present(s, #[trigger] ids[j])
}

/// `host` after the tree `part` was hung below the node that a lookup of `id`
/// yields: that node gains the first parentless node of `part` as its last
/// child, that node of `part` names `id` as its parent, and the nodes of
/// `part` follow those of `host`.
pub open spec fn grafted<Q, T>(host: Seq<NodeModel<Q, T>>, id: Q, part: Seq<NodeModel<Q, T>>) -> Seq<
    NodeModel<Q, T>,
> {
    let top = root_slot(part);
    with_child(host, slot(host, id), part[top].id) + part.update(
        top,
        NodeModel { parent: Some(id), ..part[top] },
    )
}

impl<Q: PartialEq + Clone, T> Tree<Q, T> {
    /// The ids of the node with the id `node_id` and of everything below it.
    pub fn ids_below(&self, node_id: &Q) -> (r: Vec<Q>)
        requires
            lawful_key::<Q>(),
            acyclic(self@),
        ensures
            r@ == below(self@, *node_id),
            all_present(self@, r@),
        decreases rank(self@, *node_id),
    {
        let mut ids: Vec<Q> = Vec::new();
        match self.position(node_id) {
            None => {},
            Some(i) => {
                ids.push(copy_key(node_id));
                let children = self.nodes[i].children();
                let mut k: usize = 0;
                assert(ids@ =~= seq![*node_id] + below_children(self@, *node_id, 0));
                while k < children.len()
                    invariant
                        lawful_key::<Q>(),
                        acyclic(self@),
                        is_first(self@, *node_id, i as int),
                        i == slot(self@, *node_id),
                        children@ == self@[i as int].children,
                        k <= children@.len(),
                        ids@ == seq![*node_id] + below_children(self@, *node_id, k as nat),
                        all_present(self@, ids@),
                    decreases children@.len() - k,
                {
                    proof {
                        assert(ranks_down(self@, |q: Q| rank(self@, q)));
                        assert(self@[i as int].children[k as int] == children@[k as int]);
                    }
                    let mut more = self.ids_below(&children[k]);
                    ids.append(&mut more);
                    k += 1;
                    assert(ids@ =~= seq![*node_id] + below_children(self@, *node_id, k as nat));
                }
            },
        }
        ids
    }

    /// The ids that a walk of at most `generations` rounds from the node with
    /// the id `node_id` collects.
    pub fn ids_within(&self, node_id: &Q, generations: i32) -> (r: Vec<Q>)
        requires
            lawful_key::<Q>(),
        ensures
            r@ == within(self@, *node_id, generations as int),
            all_present(self@, r@),
        decreases generations,
    {
        let mut ids: Vec<Q> = Vec::new();
        match self.position(node_id) {
            None => {},
            Some(i) => {
                ids.push(copy_key(node_id));
                let children = self.nodes[i].children();
                let mut bound: i32 = 0;
                assert(ids@ =~= seq![*node_id] + rounds(self@, *node_id, generations as int, 0));
                while bound < generations
                    invariant
                        lawful_key::<Q>(),
                        is_first(self@, *node_id, i as int),
                        i == slot(self@, *node_id),
                        children@ == self@[i as int].children,
                        0 <= bound,
                        generations > 0 ==> bound <= generations,
                        ids@ == seq![*node_id] + rounds(
                            self@,
                            *node_id,
                            generations as int,
                            bound as nat,
                        ),
                        all_present(self@, ids@),
                    decreases generations - bound,
                {
                    let ghost before = ids@;
                    let mut k: usize = 0;
                    assert(ids@ =~= before + round(self@, *node_id, bound as int, 0));
                    while k < children.len()
                        invariant
                            lawful_key::<Q>(),
                            is_first(self@, *node_id, i as int),
                            i == slot(self@, *node_id),
                            children@ == self@[i as int].children,
                            0 <= bound < generations,
                            k <= children@.len(),
                            ids@ == before + round(self@, *node_id, bound as int, k as nat),
                            all_present(self@, ids@),
                        decreases children@.len() - k,
                    {
                        let mut more = self.ids_within(&children[k], bound);
                        ids.append(&mut more);
                        k += 1;
                        assert(ids@ =~= before + round(self@, *node_id, bound as int, k as nat));
                    }
                    bound += 1;
                    assert(ids@ =~= seq![*node_id] + rounds(
                        self@,
                        *node_id,
                        generations as int,
                        bound as nat,
                    ));
                }
            },
        }
        ids
    }

    /// Hangs the tree `subtree` below the node with the id `node_id`.
    ///
    /// The first parentless node of `subtree` becomes the last child of that
    /// node, and all nodes of `subtree` are added behind those of this tree.
    /// Ids of `subtree` that this tree has already are not looked for.
    pub fn add_subtree(&mut self, node_id: &Q, subtree: Tree<Q, T>)
        requires
            lawful_key::<Q>(),
            present(old(self)@, *node_id),
            has_root(subtree@),
        ensures
            final(self)@ == grafted(old(self)@, *node_id, subtree@),
            forest(old(self)@) && well_formed(subtree@) && apart(old(self)@, subtree@) ==> forest(
                final(self)@,
            ),
            well_formed(old(self)@) && well_formed(subtree@) && apart(old(self)@, subtree@)
                ==> well_formed(final(self)@),
    {
        let ghost part = subtree@;
        proof {
            if forest(self@) && well_formed(part) && apart(self@, part) {
                crate::laws::law_graft_keeps_forest(self@, *node_id, part);
            }
        }
        let mut subtree = subtree;
        let i = self.position(node_id).unwrap();
        let top = subtree.root_position().unwrap();
        self.nodes[i].push_child(copy_key(subtree.nodes[top].id()));
        subtree.nodes[top].set_parent(Some(copy_key(node_id)));
        self.nodes.append(&mut subtree.nodes);
        assert(self@ =~= grafted(old(self)@, *node_id, part));
    }
}

impl<Q: PartialEq + Clone, T: Clone> Tree<Q, T> {
    /// The nodes with the ids `ids`, in that order, as a tree of their own.
    pub fn pick(&self, ids: &Vec<Q>) -> (r: Tree<Q, T>)
        requires
            lawful_key::<Q>(),
            faithful_clone::<T>(),
            all_present(self@, ids@),
        ensures
            r@ == picked(self@, ids@),
    {
        let mut nodes: Vec<Node<Q, T>> = Vec::new();
        let mut j: usize = 0;
        while j < ids.len()
            invariant
                lawful_key::<Q>(),
                faithful_clone::<T>(),
                all_present(self@, ids@),
                j <= ids@.len(),
                nodes@.len() == j,
                forall|m: int| 0 <= m < j ==> (#[trigger] nodes@[m])@ == node_of(self@, ids@[m]),
            decreases ids@.len() - j,
        {
            let i = self.position(&ids[j]).unwrap();
            nodes.push(self.nodes[i].clone());
            j += 1;
        }
        let r = Tree { nodes };
        assert(r@ =~= picked(self@, ids@));
        r
    }

    /// The node with the id `node_id` and what is below it, as a tree of its
    /// own.
    ///
    /// Without a number of generations, everything below the node is taken.
    /// With one, the walk is bounded as [`within`] says. The tree is empty
    /// where no node has the id.
    pub fn get_subtree(&self, node_id: &Q, generations: Option<i32>) -> (r: Tree<Q, T>)
        requires
            lawful_key::<Q>(),
            faithful_clone::<T>(),
            generations.is_none() ==> acyclic(self@),
        ensures
            r@ == match generations {
                None => picked(self@, below(self@, *node_id)),
                Some(g) => picked(self@, within(self@, *node_id, g as int)),
            },
    {
        let ids = match generations {
            None => self.ids_below(node_id),
            Some(g) => self.ids_within(node_id, g),
        };
        self.pick(&ids)
    }
}

} // verus!
