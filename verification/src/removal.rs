//! Removing nodes from a tree.

use vstd::prelude::*;
use crate::error::Error;
use crate::node::{NodeModel, lawful_key, copy_key, copy_keys};
use crate::store::{
    is_first, present, slot, node_of, acyclic, children_present, forest, well_formed,
};
use crate::laws::{law_prune_keeps_forest, law_retain_keeps_forest};
use crate::seqs::other_than;
use crate::subtree::{below, all_present};
use crate::traversal::contains_key;
use crate::tree::{Tree, NodeRemovalStrategy};

verus! {

/// What is said when a node without parent is to be removed while its
/// children are kept.
pub const NO_PARENT: &'static str = "Cannot remove root node with RetainChildren strategy";

/// The nodes whose id is none of `ids`.
pub open spec fn outside<Q, T>(ids: Seq<Q>) -> spec_fn(NodeModel<Q, T>) -> bool {
    |n: NodeModel<Q, T>| !ids.contains(n.id)
}

/// `s` with `id` struck from the children of the node at position `p`.
pub open spec fn without_child<Q, T>(s: Seq<NodeModel<Q, T>>, p: int, id: Q) -> Seq<
    NodeModel<Q, T>,
> {
    s.update(p, NodeModel { children: s[p].children.filter(other_than(id)), ..s[p] })
}

/// `s` with the node that a lookup of `id` yields struck from the children of
/// the parent that it names, where it names one.
pub open spec fn detached<Q, T>(s: Seq<NodeModel<Q, T>>, id: Q) -> Seq<NodeModel<Q, T>> {
    match node_of(s, id).parent {
        Some(p) => without_child(s, slot(s, p), id),
        None => s,
    }
}

/// `s` with `p` as the parent of each node that a lookup of one of `kids`
/// yields.
pub open spec fn adopted<Q, T>(s: Seq<NodeModel<Q, T>>, kids: Seq<Q>, p: Q) -> Seq<NodeModel<Q, T>> {
    Seq::new(
        s.len(),
        |j: int|
            if kids.contains(s[j].id) && is_first(s, s[j].id, j) {
                NodeModel { parent: Some(p), ..s[j] }
            } else {
                s[j]
            },
    )
}

/// `s` after the node that a lookup of `id` yields was removed and its
/// children moved up: its parent lists them, in their order, behind its own
/// other children, each of them names that parent, and no node with the id
/// `id` is left.
pub open spec fn lifted<Q, T>(s: Seq<NodeModel<Q, T>>, id: Q) -> Seq<NodeModel<Q, T>> {
    let node = node_of(s, id);
    let p = node.parent.unwrap();
    let moved = adopted(s, node.children, p);
    moved.update(
        slot(s, p),
        NodeModel {
            children: s[slot(s, p)].children.filter(other_than(id)) + node.children,
            ..moved[slot(s, p)]
        },
    ).filter(outside(seq![id]))
}

/// `s` after the node that a lookup of `id` yields was removed with
/// everything below it: its parent lists it no more, and no node is left
/// whose id is that of the node or of one below it.
pub open spec fn pruned<Q, T>(s: Seq<NodeModel<Q, T>>, id: Q) -> Seq<NodeModel<Q, T>> {
    detached(s, id).filter(outside(below(s, id)))
}

/// What `remove_node` asks of the store for each strategy.
///
/// To move the children up, the node names a parent other than itself that
/// is in the store, or none, and its children are in the store. To remove
/// them too, the store is acyclic, every listed child and the parent that the
/// node names are in it, and no node is below the node in two ways.
pub open spec fn removable<Q, T>(
    s: Seq<NodeModel<Q, T>>,
    id: Q,
    strategy: NodeRemovalStrategy,
) -> bool {
    &&& present(s, id)
    &&& match strategy {
        NodeRemovalStrategy::RetainChildren => match node_of(s, id).parent {
            Some(p) => p != id && present(s, p) && all_present(s, node_of(s, id).children),
            None => true,
        },
        NodeRemovalStrategy::RemoveNodeAndChildren => {
            &&& acyclic(s)
            &&& children_present(s)
            &&& below(s, id).no_duplicates()
            &&& match node_of(s, id).parent {
                Some(p) => present(s, p),
                None => true,
            }
        },
    }
}

/// The ids of `keys` that differ from `id`, in their order.
pub fn strike<Q: PartialEq + Clone>(keys: &Vec<Q>, id: &Q) -> (r: Vec<Q>)
    requires
        lawful_key::<Q>(),
    ensures
        r@ == keys@.filter(other_than(*id)),
{
    let mut kept: Vec<Q> = Vec::new();
    let mut i: usize = 0;
    proof {
        reveal(Seq::filter);
        assert(keys@.take(0) =~= Seq::<Q>::empty());
    }
    while i < keys.len()
        invariant
            lawful_key::<Q>(),
            i <= keys@.len(),
            kept@ == keys@.take(i as int).filter(other_than(*id)),
        decreases keys@.len() - i,
    {
        proof {
            reveal(Seq::filter);
            assert(keys@.take(i + 1).drop_last() =~= keys@.take(i as int));
        }
        if keys[i] != *id {
            kept.push(copy_key(&keys[i]));
        }
        i += 1;
    }
    assert(keys@.take(keys@.len() as int) =~= keys@);
    kept
}

impl<Q: PartialEq + Clone, T> Tree<Q, T> {
    /// Drops every node whose id is one of `ids`.
    pub fn discard(&mut self, ids: &Vec<Q>)
        requires
            lawful_key::<Q>(),
        ensures
            final(self)@ == old(self)@.filter(outside(ids@)),
    {
        let ghost s = self@;
        let ghost mut seen: int = 0;
        let mut i: usize = 0;
        proof {
            reveal(Seq::filter);
            assert(s.take(0) =~= Seq::<NodeModel<Q, T>>::empty());
            assert(self@ =~= s.take(0).filter(outside(ids@)) + s.skip(0));
        }
        while i < self.nodes.len()
            invariant
                lawful_key::<Q>(),
                0 <= seen <= s.len(),
                i == s.take(seen).filter(outside(ids@)).len(),
                self@ == s.take(seen).filter(outside(ids@)) + s.skip(seen),
            decreases s.len() - seen,
        {
            proof {
                reveal(Seq::filter);
                assert(seen < s.len());
                assert(s.take(seen + 1).drop_last() =~= s.take(seen));
                assert(s.take(seen + 1).last() == s[seen]);
                assert(self@[i as int] == s.skip(seen)[0]);
                assert(outside::<Q, T>(ids@)(s[seen]) == !ids@.contains(s[seen].id));
            }
            let ghost before = self@;
            if contains_key(ids, self.nodes[i].id()) {
                self.nodes.remove(i);
                proof {
                    let kept = s.take(seen).filter(outside(ids@));
                    assert(s.take(seen + 1).filter(outside(ids@)) == kept);
                    assert(self@.len() == before.len() - 1);
                    assert forall|j: int| 0 <= j < self@.len() implies self@[j] == (kept + s.skip(
                        seen + 1,
                    ))[j] by {
                        if j < i {
                            assert(self@[j] == before[j]);
                        } else {
                            assert(self@[j] == before[j + 1]);
                            assert(before[j + 1] == s.skip(seen)[j + 1 - i]);
                        }
                    }
                    assert(self@ =~= s.take(seen + 1).filter(outside(ids@)) + s.skip(seen + 1));
                }
            } else {
                i += 1;
                proof {
                    assert(self@ =~= s.take(seen + 1).filter(outside(ids@)) + s.skip(seen + 1));
                }
            }
            proof {
                seen = seen + 1;
            }
        }
        proof {
            assert(seen == s.len());
            assert(s.take(seen) =~= s);
            assert(self@ =~= s.filter(outside(ids@)));
        }
    }

    /// Removes the node with the id `node_id`.
    ///
    /// With `RetainChildren` the children of the node become children of its
    /// parent; a node without parent cannot be removed so, and the tree then
    /// stays as it is. With `RemoveNodeAndChildren` everything below the node
    /// is removed with it.
    pub fn remove_node(&mut self, node_id: &Q, strategy: NodeRemovalStrategy) -> (r: Result<
        (),
        Error,
    >)
        requires
            lawful_key::<Q>(),
            removable(old(self)@, *node_id, strategy),
        ensures
            match strategy {
                NodeRemovalStrategy::RetainChildren => if node_of(
                    old(self)@,
                    *node_id,
                ).parent.is_none() {
                    &&& r matches Err(Error::InvalidOperation(m)) && m@ == NO_PARENT@
                    &&& final(self)@ == old(self)@
                } else {
                    r.is_ok() && final(self)@ == lifted(old(self)@, *node_id)
                },
                NodeRemovalStrategy::RemoveNodeAndChildren => r.is_ok() && final(self)@ == pruned(
                    old(self)@,
                    *node_id,
                ),
            },
            forest(old(self)@) ==> forest(final(self)@),
            well_formed(old(self)@) ==> well_formed(final(self)@),
    {
        let ghost s = self@;
        proof {
            if forest(s) {
                law_prune_keeps_forest(s, *node_id);
                if node_of(s, *node_id).parent.is_some() {
                    law_retain_keeps_forest(s, *node_id);
                }
            }
        }
        let i = self.position(node_id).unwrap();
        match strategy {
            NodeRemovalStrategy::RetainChildren => {
                let p = match self.nodes[i].parent() {
                    Some(p) => copy_key(p),
                    None => {
                        return Err(Error::InvalidOperation(NO_PARENT.to_string()));
                    },
                };
                let up = self.position(&p).unwrap();
                let kids = copy_keys(self.nodes[i].children());
                let kept = strike(self.nodes[up].children(), node_id);
                self.nodes[up].set_children(kept);
                let mut k: usize = 0;
                proof {
                    assert(kids@.take(0) =~= Seq::<Q>::empty());
                    assert(s[up as int].children.filter(other_than(*node_id)) + kids@.take(0)
                        =~= s[up as int].children.filter(other_than(*node_id)));
                    assert(self@ =~= adopted(s, kids@.take(0), p).update(
                        up as int,
                        NodeModel {
                            children: s[up as int].children.filter(other_than(*node_id))
                                + kids@.take(0),
                            ..adopted(s, kids@.take(0), p)[up as int]
                        },
                    ));
                }
                while k < kids.len()
                    invariant
                        lawful_key::<Q>(),
                        all_present(s, kids@),
                        up < s.len(),
                        k <= kids@.len(),
                        self@ == adopted(s, kids@.take(k as int), p).update(
                            up as int,
                            NodeModel {
                                children: s[up as int].children.filter(other_than(*node_id))
                                    + kids@.take(k as int),
                                ..adopted(s, kids@.take(k as int), p)[up as int]
                            },
                        ),
                    decreases kids@.len() - k,
                {
                    let ghost before = self@;
                    proof {
                        let at = slot(s, kids@[k as int]);
                        assert(is_first(s, kids@[k as int], at));
                        assert forall|j: int| 0 <= j < s.len() implies (#[trigger] before[j]).id
                            == s[j].id by {}
                        assert(is_first(before, kids@[k as int], at));
                    }
                    let c = self.position(&kids[k]).unwrap();
                    self.nodes[c].set_parent(Some(copy_key(&p)));
                    self.nodes[up].push_child(copy_key(&kids[k]));
                    k += 1;
                    proof {
                        let was = kids@.take(k - 1);
                        let now = kids@.take(k as int);
                        assert(now =~= was.push(kids@[k - 1]));
                        assert forall|q: Q| now.contains(q) <==> (was.contains(q) || q
                            == kids@[k - 1]) by {
                            if was.contains(q) {
                                let m = choose|m: int| 0 <= m < was.len() && was[m] == q;
                                assert(now[m] == q);
                            }
                            if q == kids@[k - 1] {
                                assert(now[k - 1] == q);
                            }
                        }
                        assert(s[up as int].children.filter(other_than(*node_id)) + now =~= (
                        s[up as int].children.filter(other_than(*node_id)) + was).push(
                            kids@[k - 1],
                        ));
                        let goal = adopted(s, now, p).update(
                            up as int,
                            NodeModel {
                                children: s[up as int].children.filter(other_than(*node_id)) + now,
                                ..adopted(s, now, p)[up as int]
                            },
                        );
                        let kid = kids@[k - 1];
                        assert(c == slot(s, kid));
                        assert(goal.len() == s.len());
                        assert(self@.len() == s.len());
                        assert(adopted(s, now, p)[c as int] == NodeModel {
                            parent: Some(p),
                            ..s[c as int]
                        }) by {
                            assert(now.contains(s[c as int].id));
                        }
                        assert forall|j: int| 0 <= j < s.len() && j != c implies adopted(
                            s,
                            now,
                            p,
                        )[j] == adopted(s, was, p)[j] by {
                            if is_first(s, s[j].id, j) && s[j].id == kid {
                                assert(false);
                            }
                        }
                        assert forall|j: int| 0 <= j < s.len() implies self@[j] == goal[j] by {
                            if j == up {
                                assert(self@[j].children == before[j].children.push(kid));
                            } else if j == c {
                                assert(self@[j] == NodeModel { parent: Some(p), ..before[j] });
                            } else {
                                assert(self@[j] == before[j]);
                            }
                        }
                        assert(self@ =~= goal);
                    }
                }
                proof {
                    assert(kids@.take(kids@.len() as int) =~= kids@);
                }
                let mut gone: Vec<Q> = Vec::new();
                gone.push(copy_key(node_id));
                assert(gone@ =~= seq![*node_id]);
                self.discard(&gone);
                Ok(())
            },
            NodeRemovalStrategy::RemoveNodeAndChildren => {
                let gone = self.ids_below(node_id);
                match self.nodes[i].parent() {
                    Some(p) => {
                        let up = self.position(p).unwrap();
                        let kept = strike(self.nodes[up].children(), node_id);
                        self.nodes[up].set_children(kept);
                        assert(self@ =~= detached(s, *node_id));
                    },
                    None => {},
                }
                self.discard(&gone);
                Ok(())
            },
        }
    }
}

} // verus!
