//! Telling at run time whether a tree can be walked.

use vstd::prelude::*;
use crate::node::{NodeModel, lawful_key};
use crate::store::{
    is_first, present, slot, node_of, acyclic, rank, ranks_down, children_present, distinct_ids,
    forest, lemma_distinct_slot,
};
use crate::metrics::height;
use crate::laws::law_height_over_children;
use crate::descent::law_height_and_depth_bounded;
use crate::tree::Tree;

verus! {

/// Every chain of children from the node at position `at` ends, at a node
/// without children, after fewer than `fuel` steps, and every child on the
/// way is in the store.
pub open spec fn descends_within<Q, T>(s: Seq<NodeModel<Q, T>>, at: int, fuel: nat) -> bool
    decreases fuel,
{
    fuel > 0 && forall|k: int|
        0 <= k < s[at].children.len() ==> present(s, #[trigger] s[at].children[k])
            && descends_within(s, slot(s, s[at].children[k]), (fuel - 1) as nat)
}

/// The ids of `s` are distinct, and from every node every chain of children
/// ends, within the store, after fewer steps than the store has nodes.
pub open spec fn orderly<Q, T>(s: Seq<NodeModel<Q, T>>) -> bool {
    &&& distinct_ids(s)
    &&& forall|at: int| 0 <= at < s.len() ==> #[trigger] descends_within(s, at, s.len())
}

/// The least fuel with which the chains of children from `at` end.
pub open spec fn least_fuel<Q, T>(s: Seq<NodeModel<Q, T>>, at: int) -> nat {
    choose|f: nat|
        descends_within(s, at, f) && forall|g: nat| g < f ==> !descends_within(s, at, g)
}

/// Where some fuel is enough, a least fuel is.
pub proof fn lemma_least_fuel<Q, T>(s: Seq<NodeModel<Q, T>>, at: int, f: nat)
    requires
        descends_within(s, at, f),
    ensures
        descends_within(s, at, least_fuel(s, at)),
        forall|g: nat| g < least_fuel(s, at) ==> !descends_within(s, at, g),
        least_fuel(s, at) <= f,
    decreases f,
{
    if exists|g: nat| g < f && descends_within(s, at, g) {
        let g = choose|g: nat| g < f && descends_within(s, at, g);
        lemma_least_fuel(s, at, g);
    } else {
        assert(descends_within(s, at, f) && forall|g: nat| g < f ==> !descends_within(s, at, g));
    }
}

/// More fuel is enough where less is.
pub proof fn lemma_more_fuel<Q, T>(s: Seq<NodeModel<Q, T>>, at: int, f: nat, g: nat)
    requires
        descends_within(s, at, f),
        f <= g,
    ensures
        descends_within(s, at, g),
    decreases f,
{
    assert forall|k: int| 0 <= k < s[at].children.len() implies present(
        s,
        #[trigger] s[at].children[k],
    ) && descends_within(s, slot(s, s[at].children[k]), (g - 1) as nat) by {
        lemma_more_fuel(s, slot(s, s[at].children[k]), (f - 1) as nat, (g - 1) as nat);
    }
}

/// An orderly store is acyclic, and every child that it lists is in it.
pub proof fn law_orderly_walkable<Q, T>(s: Seq<NodeModel<Q, T>>)
    requires
        orderly(s),
    ensures
        acyclic(s),
        children_present(s),
{
    let r = |q: Q|
        if present(s, q) {
            least_fuel(s, slot(s, q))
        } else {
            0nat
        };
    assert forall|i: int, k: int| 0 <= i < s.len() && 0 <= k < s[i].children.len() implies present(
        s,
        #[trigger] s[i].children[k],
    ) && r(s[i].children[k]) < r(s[i].id) by {
        let c = s[i].children[k];
        lemma_distinct_slot(s, i);
        assert(descends_within(s, i, s.len()));
        lemma_least_fuel(s, i, s.len());
        let f = least_fuel(s, i);
        assert(present(s, c));
        assert(descends_within(s, slot(s, c), (f - 1) as nat));
        lemma_least_fuel(s, slot(s, c), (f - 1) as nat);
    }
    assert(ranks_down(s, r));
}

/// In an acyclic store that holds every child it lists, the chains of
/// children from a node end after no more steps than the node is high.
pub proof fn lemma_descends_by_height<Q, T>(s: Seq<NodeModel<Q, T>>, id: Q)
    requires
        acyclic(s),
        children_present(s),
        present(s, id),
    ensures
        descends_within(s, slot(s, id), height(s, id) + 1),
    decreases rank(s, id),
{
    let at = slot(s, id);
    assert(is_first(s, id, at));
    assert(ranks_down(s, |q: Q| rank(s, q)));
    if s[at].children.len() > 0 {
        law_height_over_children(s, id);
    }
    assert forall|k: int| 0 <= k < s[at].children.len() implies present(
        s,
        #[trigger] s[at].children[k],
    ) && descends_within(s, slot(s, s[at].children[k]), height(s, id)) by {
        let c = s[at].children[k];
        assert(rank(s, s[at].children[k]) < rank(s, s[at].id));
        lemma_descends_by_height(s, c);
        assert(height(s, id) >= 1 + height(s, node_of(s, id).children[k]));
        lemma_more_fuel(s, slot(s, c), height(s, c) + 1, height(s, id));
    }
}

/// Every forest is orderly.
pub proof fn law_forest_orderly<Q, T>(s: Seq<NodeModel<Q, T>>)
    requires
        forest(s),
    ensures
        orderly(s),
{
    assert forall|at: int| 0 <= at < s.len() implies #[trigger] descends_within(s, at, s.len()) by {
        lemma_distinct_slot(s, at);
        law_height_and_depth_bounded(s, s[at].id);
        lemma_descends_by_height(s, s[at].id);
        lemma_more_fuel(s, at, height(s, s[at].id) + 1, s.len());
    }
}

impl<Q: PartialEq + Clone, T> Tree<Q, T> {
    /// Whether no two nodes of the tree have the same id.
    pub fn has_distinct_ids(&self) -> (r: bool)
        requires
            lawful_key::<Q>(),
        ensures
            r == distinct_ids(self@),
    {
        let mut j: usize = 0;
        while j < self.nodes.len()
            invariant
                lawful_key::<Q>(),
                j <= self@.len(),
                forall|a: int, b: int| 0 <= a < b < j ==> (#[trigger] self@[a]).id != (
                #[trigger] self@[b]).id,
            decreases self@.len() - j,
        {
            let mut i: usize = 0;
            while i < j
                invariant
                    lawful_key::<Q>(),
                    i <= j < self@.len(),
                    forall|a: int| 0 <= a < i ==> (#[trigger] self@[a]).id != self@[j as int].id,
                decreases j - i,
            {
                if *self.nodes[i].id() == *self.nodes[j].id() {
                    assert(self@[i as int].id == self@[j as int].id);
                    return false;
                }
                i += 1;
            }
            j += 1;
        }
        true
    }

    /// Whether the chains of children from the node at position `at` end
    /// within the store after fewer than `fuel` steps.
    pub fn probe(&self, at: usize, fuel: usize) -> (r: bool)
        requires
            lawful_key::<Q>(),
            at < self@.len(),
        ensures
            r == descends_within(self@, at as int, fuel as nat),
        decreases fuel,
    {
        if fuel == 0 {
            return false;
        }
        let children = self.nodes[at].children();
        let mut k: usize = 0;
        while k < children.len()
            invariant
                lawful_key::<Q>(),
                at < self@.len(),
                fuel > 0,
                children@ == self@[at as int].children,
                k <= children@.len(),
                forall|j: int|
                    0 <= j < k ==> present(self@, #[trigger] self@[at as int].children[j])
                        && descends_within(
                        self@,
                        slot(self@, self@[at as int].children[j]),
                        (fuel - 1) as nat,
                    ),
            decreases children@.len() - k,
        {
            assert(self@[at as int].children[k as int] == children@[k as int]);
            match self.position(&children[k]) {
                None => {
                    return false;
                },
                Some(c) => {
                    if !self.probe(c, fuel - 1) {
                        return false;
                    }
                },
            }
            k += 1;
        }
        true
    }

    /// Whether the tree is orderly, so that it can be walked from every node.
    ///
    /// Every forest is. A tree that is can be measured, traversed and drawn.
    pub fn is_walkable(&self) -> (r: bool)
        requires
            lawful_key::<Q>(),
        ensures
            r == orderly(self@),
            r ==> acyclic(self@) && children_present(self@),
            forest(self@) ==> r,
    {
        proof {
            if forest(self@) {
                law_forest_orderly(self@);
            }
            if orderly(self@) {
                law_orderly_walkable(self@);
            }
        }
        if !self.has_distinct_ids() {
            return false;
        }
        let n = self.nodes.len();
        let mut at: usize = 0;
        while at < n
            invariant
                lawful_key::<Q>(),
                n == self@.len(),
                at <= n,
                forest(self@) ==> orderly(self@),
                forall|j: int| 0 <= j < at ==> #[trigger] descends_within(self@, j, n as nat),
            decreases n - at,
        {
            if !self.probe(at, n) {
                assert(!descends_within(self@, at as int, self@.len()));
                return false;
            }
            at += 1;
        }
        true
    }
}

} // verus!
