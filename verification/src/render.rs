//! A drawing of a tree as text, one line per node.

use vstd::prelude::*;
use vstd::string::StringExecFns;
use vstd::string::to_string_from_display_ensures;
use std::fmt::Display;
use crate::node::{Node, NodeModel, lawful_key};
use crate::store::{present, slot, has_root, root_slot, acyclic, rank, ranks_down, children_present};
use crate::tree::Tree;

verus! {

/// What stands before the label of a node on its own line.
pub open spec fn branch(last: bool) -> Seq<char> {
    if last {
        "└── "@
    } else {
        "├── "@
    }
}

/// What stands in the column of a node on the lines of the nodes below it.
pub open spec fn filler(last: bool) -> Seq<char> {
    if last {
        "    "@
    } else {
        "│   "@
    }
}

/// The text of each label.
pub open spec fn texts(labels: Seq<String>) -> Seq<Seq<char>> {
    labels.map_values(|t: String| t@)
}

/// The lines of the first `k` children of the node at position `at`, each
/// followed by the lines of what is below it.
///
/// A line is made of `prefix`, a branch mark, the node's label and a line
/// feed. Below a node the prefix grows by one column: a bar while siblings of
/// the node are still to come, blanks below the last of them.
pub open spec fn lines_below<Q, T>(
    s: Seq<NodeModel<Q, T>>,
    labels: Seq<Seq<char>>,
    at: int,
    prefix: Seq<char>,
    k: nat,
) -> Seq<char>
    decreases rank(s, s[at].id), k,
{
    if acyclic(s) && 0 <= at < s.len() && 0 < k <= s[at].children.len() && present(
        s,
        s[at].children[k - 1],
    ) {
        let child = slot(s, s[at].children[k - 1]);
        let last = k == s[at].children.len();
        lines_below(s, labels, at, prefix, (k - 1) as nat) + prefix + branch(last) + labels[child]
            + seq!['\n'] + lines_below(
            s,
            labels,
            child,
            prefix + filler(last),
            s[child].children.len(),
        )
    } else {
        Seq::empty()
    }
}

/// The position of the node that a drawing starts from: the first node
/// without parent, or the first node where every node has a parent.
pub open spec fn top_slot<Q, T>(s: Seq<NodeModel<Q, T>>) -> int {
    if has_root(s) {
        root_slot(s)
    } else {
        0
    }
}

/// The drawing of `s`: the label of the top node on a line of its own, then
/// the lines of everything below it.
pub open spec fn drawing<Q, T>(s: Seq<NodeModel<Q, T>>, labels: Seq<Seq<char>>) -> Seq<char> {
    labels[top_slot(s)] + seq!['\n'] + lines_below(
        s,
        labels,
        top_slot(s),
        Seq::empty(),
        s[top_slot(s)].children.len(),
    )
}

/// `text` is what `Display` writes for `a`.
pub open spec fn shows<A: Display>(a: A, text: Seq<char>) -> bool {
    exists|t: String| #[trigger] to_string_from_display_ensures::<A>(&a, t) && t@ == text
}

/// `text` is what `Display` writes for the payload `value`, or for a default
/// payload where there is none.
pub open spec fn shows_payload<T: Display + Default>(value: Option<T>, text: Seq<char>) -> bool {
    match value {
        Some(v) => shows(v, text),
        None => exists|d: T| call_ensures(T::default, (), d) && #[trigger] shows(d, text),
    }
}

/// `text` is a label of `n`: what `Display` writes for its id, a colon and a
/// blank, and what `Display` writes for its payload.
pub open spec fn is_label<Q: Display, T: Display + Default>(
    n: NodeModel<Q, T>,
    text: Seq<char>,
) -> bool {
    exists|a: Seq<char>, b: Seq<char>|
        {
            &&& #[trigger] shows(n.id, a)
            &&& #[trigger] shows_payload(n.value, b)
            &&& text == a + ": "@ + b
        }
}

impl<Q: PartialEq + Clone + Display, T: Display + Default> Node<Q, T> {
    /// The label of the node in a drawing.
    pub fn label(&self) -> (r: String)
        ensures
            is_label(self@, r@),
    {
        let mut text = self.id().to_string();
        let ghost a = text@;
        text.append(": ");
        let shown = match self.value() {
            Some(v) => v.to_string(),
            None => {
                let d = T::default();
                let t = d.to_string();
                assert(shows(d, t@));
                t
            },
        };
        text.append(shown.as_str());
        proof {
            assert(shows(self@.id, a));
            let b = shown@;
            assert(shows_payload(self@.value, b));
            assert(text@ == a + ": "@ + b);
        }
        text
    }
}

impl<Q: PartialEq + Clone, T> Tree<Q, T> {
    /// Appends to `out` the lines of everything below the node at position
    /// `at`, each line led by `prefix`.
    pub fn print_tree(&self, labels: &Vec<String>, at: usize, prefix: &String, out: &mut String)
        requires
            lawful_key::<Q>(),
            acyclic(self@),
            children_present(self@),
            at < self@.len(),
            labels@.len() == self@.len(),
        ensures
            final(out)@ == old(out)@ + lines_below(
                self@,
                texts(labels@),
                at as int,
                prefix@,
                self@[at as int].children.len(),
            ),
        decreases rank(self@, self@[at as int].id),
    {
        let children = self.nodes[at].children();
        let mut k: usize = 0;
        assert(out@ =~= old(out)@ + lines_below(self@, texts(labels@), at as int, prefix@, 0));
        while k < children.len()
            invariant
                lawful_key::<Q>(),
                acyclic(self@),
                children_present(self@),
                labels@.len() == self@.len(),
                at < self@.len(),
                children@ == self@[at as int].children,
                k <= children@.len(),
                out@ == old(out)@ + lines_below(
                    self@,
                    texts(labels@),
                    at as int,
                    prefix@,
                    k as nat,
                ),
            decreases children@.len() - k,
        {
            proof {
                assert(ranks_down(self@, |q: Q| rank(self@, q)));
                assert(self@[at as int].children[k as int] == children@[k as int]);
            }
            let ghost before = out@;
            let c = self.position(&children[k]).unwrap();
            let last = k + 1 == children.len();
            out.append(prefix.as_str());
            let mut deeper = prefix.clone();
            if last {
                out.append("└── ");
                deeper.append("    ");
            } else {
                out.append("├── ");
                deeper.append("│   ");
            }
            out.append(labels[c].as_str());
            out.append("\n");
            proof {
                reveal_strlit("\n");
                assert("\n"@ =~= seq!['\n']);
                assert(texts(labels@)[c as int] == labels@[c as int]@);
                assert(deeper@ == prefix@ + filler(last));
                assert(out@ =~= before + prefix@ + branch(last) + texts(labels@)[c as int]
                    + seq!['\n']);
            }
            self.print_tree(labels, c, &deeper, out);
            k += 1;
            proof {
                assert(out@ =~= old(out)@ + lines_below(
                    self@,
                    texts(labels@),
                    at as int,
                    prefix@,
                    k as nat,
                ));
            }
        }
    }

    /// The drawing of the tree with the given labels, one for each node in
    /// the order of the store.
    pub fn render(&self, labels: &Vec<String>) -> (r: String)
        requires
            lawful_key::<Q>(),
            acyclic(self@),
            children_present(self@),
            self@.len() > 0,
            labels@.len() == self@.len(),
        ensures
            r@ == drawing(self@, texts(labels@)),
    {
        let top = match self.root_position() {
            Some(i) => i,
            None => 0,
        };
        let mut out = String::new();
        out.append(labels[top].as_str());
        out.append("\n");
        proof {
            reveal_strlit("\n");
            assert("\n"@ =~= seq!['\n']);
            assert(texts(labels@)[top as int] == labels@[top as int]@);
            assert(out@ =~= texts(labels@)[top as int] + seq!['\n']);
        }
        let prefix = String::new();
        assert(prefix@ =~= Seq::<char>::empty());
        self.print_tree(labels, top, &prefix, &mut out);
        out
    }
}

impl<Q: PartialEq + Clone + Display, T: Display + Default> Tree<Q, T> {
    /// The drawing of the tree, each node labelled as `Display` writes its id
    /// and its payload.
    pub fn to_string(&self) -> (r: String)
        requires
            lawful_key::<Q>(),
            acyclic(self@),
            children_present(self@),
            self@.len() > 0,
        ensures
            exists|labels: Seq<Seq<char>>|
                {
                    &&& labels.len() == self@.len()
                    &&& forall|i: int| 0 <= i < labels.len() ==> is_label(self@[i], #[trigger] labels[i])
                    &&& r@ == drawing(self@, labels)
                },
    {
        let mut labels: Vec<String> = Vec::new();
        let mut i: usize = 0;
        while i < self.nodes.len()
            invariant
                i <= self@.len(),
                labels@.len() == i,
                forall|j: int| 0 <= j < i ==> is_label(self@[j], #[trigger] texts(labels@)[j]),
            decreases self@.len() - i,
        {
            let ghost before = labels@;
            labels.push(self.nodes[i].label());
            proof {
                assert forall|j: int| 0 <= j < i + 1 implies is_label(
                    self@[j],
                    #[trigger] texts(labels@)[j],
                ) by {
                    if j < i {
                        assert(texts(labels@)[j] == texts(before)[j]);
                    }
                }
            }
            i += 1;
        }
        let r = self.render(&labels);
        proof {
            let shown = texts(labels@);
            assert(shown.len() == self@.len());
            assert(forall|j: int| 0 <= j < shown.len() ==> is_label(self@[j], #[trigger] shown[j]));
            assert(r@ == drawing(self@, shown));
        }
        r
    }
}

} // verus!
