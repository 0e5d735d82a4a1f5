//! What holds of a cleaned tree: which directories a run removes, which it
//! keeps untouched, that the contents of a removed directory are never
//! examined, and that a second run changes nothing.

use vstd::prelude::*;
use crate::decision::{spec_qualifies, src_name, target_name};
use crate::tree::{
    Tree, any_qualifying_from, clean_children, clean_from, clean_tree, has_entry,
    has_qualifying_target, qualifies_in,
};

verus! {

/// The two reserved names differ.
pub proof fn lemma_src_is_not_target()
    ensures
        src_name() != target_name(),
{
    reveal_strlit("src");
    reveal_strlit("target");
    assert(src_name().len() == 3);
    assert(target_name().len() == 6);
}

/// `any_qualifying_from` holds exactly when some child from position `i` on
/// qualifies itself or holds a qualifying directory below it.
proof fn lemma_any_qualifying_exists(cs: Seq<Tree>, src_here: bool, i: int)
    requires
        0 <= i <= cs.len(),
    ensures
        any_qualifying_from(cs, src_here, i) <==> exists|k: int|
            i <= k < cs.len() && ((cs[k].is_dir && cs[k].name == target_name() && src_here)
                || has_qualifying_target(#[trigger] cs[k])),
    decreases cs.len() - i,
{
    if i < cs.len() {
        lemma_any_qualifying_exists(cs, src_here, i + 1);
    }
}

/// Every entry of a cleaned child list is the cleaned form of some original
/// entry that did not qualify for removal.
proof fn lemma_clean_from_elems(cs: Seq<Tree>, src_here: bool, i: int)
    requires
        0 <= i <= cs.len(),
    ensures
        forall|j: int| 0 <= j < clean_from(cs, src_here, i).len() ==> exists|k: int|
            i <= k < cs.len() && !(cs[k].is_dir && cs[k].name == target_name() && src_here) && (
            #[trigger] clean_from(cs, src_here, i)[j]) == clean_tree(cs[k]),
    decreases cs.len() - i,
{
    if i < cs.len() {
        lemma_clean_from_elems(cs, src_here, i + 1);
        let rest = clean_from(cs, src_here, i + 1);
        let whole = clean_from(cs, src_here, i);
        assert forall|j: int| 0 <= j < whole.len() implies exists|k: int|
            i <= k < cs.len() && !(cs[k].is_dir && cs[k].name == target_name() && src_here)
                && (#[trigger] whole[j]) == clean_tree(cs[k]) by {
            if cs[i].is_dir && cs[i].name == target_name() && src_here {
                assert(whole[j] == rest[j]);
            } else if j == 0 {
                assert(whole[0] == clean_tree(cs[i]));
            } else {
                assert(whole[j] == rest[j - 1]);
            }
        }
    }
}

/// An entry that does not qualify for removal stays, in cleaned form, in the
/// cleaned child list.
proof fn lemma_clean_from_keeps(cs: Seq<Tree>, src_here: bool, i: int, k: int)
    requires
        0 <= i <= k < cs.len(),
        !(cs[k].is_dir && cs[k].name == target_name() && src_here),
    ensures
        clean_from(cs, src_here, i).contains(clean_tree(cs[k])),
    decreases k - i,
{
    let whole = clean_from(cs, src_here, i);
    let rest = clean_from(cs, src_here, i + 1);
    if i == k {
        assert(whole[0] == clean_tree(cs[k]));
    } else {
        lemma_clean_from_keeps(cs, src_here, i + 1, k);
        let j = choose|j: int| 0 <= j < rest.len() && rest[j] == clean_tree(cs[k]);
        if cs[i].is_dir && cs[i].name == target_name() && src_here {
            assert(whole[j] == clean_tree(cs[k]));
        } else {
            assert(whole[j + 1] == clean_tree(cs[k]));
        }
    }
}

/// Cleaning a child list neither removes nor adds entries of any name other
/// than `target`.
proof fn lemma_clean_from_preserves_entry(cs: Seq<Tree>, src_here: bool, name: Seq<char>)
    requires
        name != target_name(),
    ensures
        has_entry(clean_from(cs, src_here, 0), name) == has_entry(cs, name),
{
    let cleaned = clean_from(cs, src_here, 0);
    lemma_clean_from_elems(cs, src_here, 0);
    if has_entry(cs, name) {
        let k = choose|k: int| 0 <= k < cs.len() && cs[k].name == name;
        lemma_clean_from_keeps(cs, src_here, 0, k);
        let j = choose|j: int| 0 <= j < cleaned.len() && cleaned[j] == clean_tree(cs[k]);
        assert(cleaned[j].name == name);
    }
    if has_entry(cleaned, name) {
        let j = choose|j: int| 0 <= j < cleaned.len() && cleaned[j].name == name;
        let k = choose|k: int|
            0 <= k < cs.len() && !(cs[k].is_dir && cs[k].name == target_name() && src_here)
                && cleaned[j] == clean_tree(cs[k]);
        assert(cs[k].name == name);
    }
}

/// A tree below which nothing qualifies for removal is left exactly as it
/// was.
pub proof fn lemma_clean_identity(t: Tree)
    requires
        !has_qualifying_target(t),
    ensures
        clean_tree(t) == t,
    decreases t, 0int,
{
    lemma_clean_from_identity(t.children, has_entry(t.children, src_name()), 0);
    assert(t.children.subrange(0, t.children.len() as int) =~= t.children);
}

/// Where nothing from position `i` on qualifies for removal, cleaning keeps
/// the suffix exactly as it was.
proof fn lemma_clean_from_identity(cs: Seq<Tree>, src_here: bool, i: int)
    requires
        0 <= i <= cs.len(),
        !any_qualifying_from(cs, src_here, i),
    ensures
        clean_from(cs, src_here, i) == cs.subrange(i, cs.len() as int),
    decreases cs, cs.len() - i,
{
    if i < cs.len() {
        lemma_clean_identity(cs[i]);
        lemma_clean_from_identity(cs, src_here, i + 1);
    }
    assert(clean_from(cs, src_here, i) =~= cs.subrange(i, cs.len() as int));
}

/// After a run nothing in the tree qualifies for removal any more.
pub proof fn lemma_clean_leaves_none(t: Tree)
    ensures
        !has_qualifying_target(clean_tree(t)),
    decreases t, 0int,
{
    let cs = t.children;
    let src_here = has_entry(cs, src_name());
    let cleaned = clean_from(cs, src_here, 0);
    lemma_clean_from_elems(cs, src_here, 0);
    lemma_src_is_not_target();
    lemma_clean_from_preserves_entry(cs, src_here, src_name());
    lemma_any_qualifying_exists(cleaned, src_here, 0);
    assert forall|k: int| 0 <= k < cleaned.len() implies !((cleaned[k].is_dir
        && cleaned[k].name == target_name() && src_here) || has_qualifying_target(
        #[trigger] cleaned[k])) by {
        let m = choose|m: int|
            0 <= m < cs.len() && !(cs[m].is_dir && cs[m].name == target_name() && src_here)
                && cleaned[k] == clean_tree(cs[m]);
        lemma_clean_leaves_none(cs[m]);
    }
}

/// The walker's per-entry decision and the model agree: a child of a node is
/// removed by a run exactly when the decision on it — given whether an entry
/// named `src` stands among its siblings — is to remove it.
pub proof fn lemma_decision_matches_model(cs: Seq<Tree>, i: int)
    requires
        0 <= i < cs.len(),
    ensures
        qualifies_in(cs, cs[i]) == spec_qualifies(
            cs[i].is_dir,
            cs[i].name,
            has_entry(cs, src_name()),
        ),
{
}

/// A `target` directory whose parent holds no entry named `src` is not
/// removed: the cleaned parent still holds it, cleaned by the same rule; and
/// where nothing below it qualifies either, it is kept with all its contents
/// exactly as they were.
pub proof fn lemma_unqualified_target_kept(cs: Seq<Tree>, i: int)
    requires
        0 <= i < cs.len(),
        cs[i].is_dir,
        cs[i].name == target_name(),
        !has_entry(cs, src_name()),
    ensures
        clean_children(cs).contains(clean_tree(cs[i])),
        !has_qualifying_target(cs[i]) ==> clean_children(cs).contains(cs[i]),
{
    lemma_clean_from_keeps(cs, has_entry(cs, src_name()), 0, i);
    if !has_qualifying_target(cs[i]) {
        lemma_clean_identity(cs[i]);
    }
}

/// Where an entry named `src` stands among the children, the cleaned child
/// list holds no directory named `target` at all: every qualifying `target`
/// directory is removed with its whole subtree.
pub proof fn lemma_qualifying_targets_removed(cs: Seq<Tree>)
    requires
        has_entry(cs, src_name()),
    ensures
        forall|j: int| 0 <= j < clean_children(cs).len() ==> !((#[trigger] clean_children(cs)[j]).is_dir
            && clean_children(cs)[j].name == target_name()),
{
    let src_here = has_entry(cs, src_name());
    let cleaned = clean_from(cs, src_here, 0);
    lemma_clean_from_elems(cs, src_here, 0);
    assert forall|j: int| 0 <= j < cleaned.len() implies !((#[trigger] cleaned[j]).is_dir
        && cleaned[j].name == target_name()) by {
        let k = choose|k: int|
            0 <= k < cs.len() && !(cs[k].is_dir && cs[k].name == target_name() && src_here)
                && cleaned[j] == clean_tree(cs[k]);
        assert(cleaned[j].is_dir == cs[k].is_dir && cleaned[j].name == cs[k].name);
    }
}

/// What stands inside a directory that is removed is never examined: the
/// cleaned child list is the same whatever that directory held.
pub proof fn lemma_removed_contents_not_examined(cs: Seq<Tree>, i: int, other: Seq<Tree>)
    requires
        0 <= i < cs.len(),
        qualifies_in(cs, cs[i]),
    ensures
        clean_children(
            cs.update(i, Tree { name: cs[i].name, is_dir: cs[i].is_dir, children: other }),
        ) == clean_children(cs),
{
    let cs2 = cs.update(i, Tree { name: cs[i].name, is_dir: cs[i].is_dir, children: other });
    lemma_src_is_not_target();
    let k = choose|k: int| 0 <= k < cs.len() && cs[k].name == src_name();
    assert(cs2[k].name == src_name());
    assert(has_entry(cs2, src_name()));
    lemma_clean_from_update(cs, cs2, true, i, 0);
}

/// Cleaning two child lists that differ only in the contents of one
/// qualifying `target` directory gives the same result.
proof fn lemma_clean_from_update(cs: Seq<Tree>, cs2: Seq<Tree>, src_here: bool, i: int, j: int)
    requires
        cs.len() == cs2.len(),
        0 <= i < cs.len(),
        src_here,
        cs[i].is_dir && cs[i].name == target_name(),
        cs2[i].is_dir && cs2[i].name == target_name(),
        forall|k: int| 0 <= k < cs.len() && k != i ==> cs2[k] == cs[k],
        0 <= j <= cs.len(),
    ensures
        clean_from(cs2, src_here, j) == clean_from(cs, src_here, j),
    decreases cs.len() - j,
{
    if j < cs.len() {
        lemma_clean_from_update(cs, cs2, src_here, i, j + 1);
    }
}

/// A second run removes nothing more: one run already removed every
/// qualifying `target` directory.
pub proof fn lemma_idempotent(t: Tree)
    ensures
        clean_tree(clean_tree(t)) == clean_tree(t),
{
    lemma_clean_leaves_none(t);
    lemma_clean_identity(clean_tree(t));
}

/// A `target` directory nested below a non-qualifying `target` directory is
/// judged by the same rule at its own level: the outer directory is kept, and
/// where its own children hold an entry named `src`, its cleaned contents
/// hold no directory named `target` any more.
pub proof fn lemma_nested_targets_still_evaluated(cs: Seq<Tree>, i: int)
    requires
        0 <= i < cs.len(),
        cs[i].is_dir,
        cs[i].name == target_name(),
        !has_entry(cs, src_name()),
        has_entry(cs[i].children, src_name()),
    ensures
        clean_children(cs).contains(clean_tree(cs[i])),
        clean_tree(cs[i]).children == clean_children(cs[i].children),
        forall|j: int| 0 <= j < clean_children(cs[i].children).len() ==> !((#[trigger] clean_children(
            cs[i].children,
        )[j]).is_dir && clean_children(cs[i].children)[j].name == target_name()),
{
    lemma_clean_from_keeps(cs, has_entry(cs, src_name()), 0, i);
    lemma_qualifying_targets_removed(cs[i].children);
}

} // verus!
