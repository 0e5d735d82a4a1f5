//! A model of one run over a directory tree: a pure function `clean_node`
//! that removes, everywhere in a tree, the directories that qualify under the
//! decision rule, and recurses into everything it keeps.

use vstd::prelude::*;
use vstd::string::StringExecFns;
use crate::decision::{is_target_name, src_name, target_name};

verus! {

/// The mathematical form of a filesystem node: a name, whether it is a
/// directory, and the nodes inside it.
pub ghost struct Tree {
    pub name: Seq<char>,
    pub is_dir: bool,
    pub children: Seq<Tree>,
}

/// Whether some entry with the given name stands in a list of siblings.
pub open spec fn has_entry(cs: Seq<Tree>, name: Seq<char>) -> bool {
    exists|i: int| 0 <= i < cs.len() && cs[i].name == name
}

/// Whether the child `c` of a node with children `cs` may be removed: it is a
/// directory named `target` and some sibling entry is named `src`.
pub open spec fn qualifies_in(cs: Seq<Tree>, c: Tree) -> bool {
    c.is_dir && c.name == target_name() && has_entry(cs, src_name())
}

/// The tree after one run: every qualifying `target` directory is removed
/// with all its contents, and the rule is applied again inside every child
/// that is kept.
pub open spec fn clean_tree(t: Tree) -> Tree
    decreases t, 0int,
{
    Tree { name: t.name, is_dir: t.is_dir, children: clean_children(t.children) }
}

/// The children of a node after one run.
pub open spec fn clean_children(cs: Seq<Tree>) -> Seq<Tree>
    decreases cs, cs.len() + 1,
{
    clean_from(cs, has_entry(cs, src_name()), 0)
}

/// The cleaned suffix of a child list from position `i` on; `src_here` says
/// whether the whole list holds an entry named `src`.
pub open spec fn clean_from(cs: Seq<Tree>, src_here: bool, i: int) -> Seq<Tree>
    decreases cs, cs.len() - i,
{
    if i < 0 || i >= cs.len() {
        Seq::empty()
    } else {
        let rest = clean_from(cs, src_here, i + 1);
        if cs[i].is_dir && cs[i].name == target_name() && src_here {
            rest
        } else {
            seq![clean_tree(cs[i])] + rest
        }
    }
}

/// Whether some directory anywhere below `t` qualifies for removal.
pub open spec fn has_qualifying_target(t: Tree) -> bool
    decreases t, 0int,
{
    any_qualifying_from(t.children, has_entry(t.children, src_name()), 0)
}

/// Whether, from position `i` on, some child of a node qualifies for removal
/// or holds a qualifying directory below it; `src_here` says whether the
/// whole child list holds an entry named `src`.
pub open spec fn any_qualifying_from(cs: Seq<Tree>, src_here: bool, i: int) -> bool
    decreases cs, cs.len() - i,
{
    if i < 0 || i >= cs.len() {
        false
    } else {
        (cs[i].is_dir && cs[i].name == target_name() && src_here)
            || has_qualifying_target(cs[i])
            || any_qualifying_from(cs, src_here, i + 1)
    }
}

/// An in-memory filesystem node, as tests and callers build it.
pub struct Node {
    pub name: String,
    pub is_dir: bool,
    pub children: Vec<Node>,
}

/// The mathematical value of a node.
pub open spec fn node_view(n: Node) -> Tree
    decreases n, 0int,
{
    Tree { name: n.name@, is_dir: n.is_dir, children: views_from(n.children@, 0) }
}

/// The mathematical values of the nodes of a list, from position `i` on.
pub open spec fn views_from(cs: Seq<Node>, i: int) -> Seq<Tree>
    decreases cs, cs.len() - i,
{
    if i < 0 || i >= cs.len() {
        Seq::empty()
    } else {
        seq![node_view(cs[i])] + views_from(cs, i + 1)
    }
}

/// The mathematical values of the nodes of a list.
pub open spec fn views(cs: Seq<Node>) -> Seq<Tree> {
    views_from(cs, 0)
}

impl View for Node {
    type V = Tree;

    open spec fn view(&self) -> Tree {
        node_view(*self)
    }
}

/// The view of a list of nodes is their views, one for one, in order.
pub proof fn lemma_views_from(cs: Seq<Node>, i: int)
    requires
        0 <= i <= cs.len(),
    ensures
        views_from(cs, i).len() == cs.len() - i,
        forall|j: int| 0 <= j < cs.len() - i ==> #[trigger] views_from(cs, i)[j] == node_view(
            cs[i + j],
        ),
    decreases cs.len() - i,
{
    if i < cs.len() {
        lemma_views_from(cs, i + 1);
        assert forall|j: int| 0 <= j < cs.len() - i implies #[trigger] views_from(cs, i)[j]
            == node_view(cs[i + j]) by {
            if j > 0 {
                assert(views_from(cs, i)[j] == views_from(cs, i + 1)[j - 1]);
            }
        }
    }
}

/// Whether some entry of a list of nodes is named `src`.
pub fn has_src_entry(children: &Vec<Node>) -> (r: bool)
    ensures
        r == has_entry(views(children@), src_name()),
{
    proof {
        lemma_views_from(children@, 0);
    }
    let s = String::from_str("src");
    let mut i: usize = 0;
    while i < children.len()
        invariant
            0 <= i <= children.len(),
            s@ == src_name(),
            forall|j: int| 0 <= j < i ==> #[trigger] children@[j].name@ != src_name(),
            views(children@).len() == children@.len(),
            forall|j: int| 0 <= j < children@.len()
                ==> #[trigger] views(children@)[j] == node_view(children@[j]),
        decreases children.len() - i,
    {
        if children[i].name.eq(&s) {
            proof {
                assert(views(children@)[i as int].name == src_name());
            }
            return true;
        }
        i += 1;
    }
    proof {
        assert forall|k: int| 0 <= k < views(children@).len()
            implies #[trigger] views(children@)[k].name != src_name() by {
            assert(views(children@)[k] == node_view(children@[k]));
        }
    }
    false
}

/// Appending a node to a list appends its view to the list's views.
pub proof fn lemma_views_push(cs: Seq<Node>, x: Node)
    ensures
        views(cs.push(x)) == views(cs).push(node_view(x)),
{
    lemma_views_from(cs, 0);
    lemma_views_from(cs.push(x), 0);
    let a = views(cs.push(x));
    let b = views(cs).push(node_view(x));
    assert forall|j: int| 0 <= j < a.len() implies a[j] == b[j] by {
        assert(a[j] == node_view(cs.push(x)[j]));
        if j < cs.len() {
            assert(cs.push(x)[j] == cs[j]);
            assert(b[j] == views(cs)[j]);
        } else {
            assert(cs.push(x)[j] == x);
        }
    }
    assert(a =~= b);
}

/// One run over the tree below `n`: every qualifying `target` directory is
/// dropped with all its contents, and every kept child is cleaned in turn.
pub fn clean_node(n: &Node) -> (out: Node)
    ensures
        out@ == clean_tree(n@),
    decreases n,
{
    let src_here = has_src_entry(&n.children);
    let ghost cs = n.children@;
    let ghost tcs = views(cs);
    proof {
        lemma_views_from(cs, 0);
        assert(views(Seq::<Node>::empty()) =~= Seq::<Tree>::empty());
    }
    let mut kept: Vec<Node> = Vec::new();
    let mut i: usize = 0;
    while i < n.children.len()
        invariant
            0 <= i <= n.children.len(),
            cs == n.children@,
            tcs == views(cs),
            src_here == has_entry(tcs, src_name()),
            tcs.len() == cs.len(),
            forall|j: int| 0 <= j < cs.len() ==> #[trigger] tcs[j] == node_view(cs[j]),
            views(kept@) + clean_from(tcs, src_here, i as int) == clean_from(tcs, src_here, 0),
        decreases n.children.len() - i,
    {
        let c = &n.children[i];
        if c.is_dir && is_target_name(&c.name) && src_here {
            proof {
                assert(tcs[i as int] == node_view(cs[i as int]));
                assert(clean_from(tcs, src_here, i as int)
                    == clean_from(tcs, src_here, i as int + 1));
            }
        } else {
            let cc = clean_node(c);
            proof {
                assert(tcs[i as int] == node_view(cs[i as int]));
                assert(clean_from(tcs, src_here, i as int)
                    == seq![clean_tree(tcs[i as int])] + clean_from(tcs, src_here, i as int + 1));
                lemma_views_push(kept@, cc);
                assert(views(kept@.push(cc)) + clean_from(tcs, src_here, i as int + 1)
                    =~= views(kept@) + clean_from(tcs, src_here, i as int));
            }
            kept.push(cc);
        }
        i += 1;
    }
    proof {
        assert(views(kept@) + clean_from(tcs, src_here, i as int) =~= views(kept@));
        assert(clean_children(tcs) == views(kept@));
    }
    let out = Node { name: n.name.clone(), is_dir: n.is_dir, children: kept };
    proof {
        assert(out@.children == views(out.children@));
        assert(out@ == clean_tree(n@));
    }
    out
}

} // verus!
