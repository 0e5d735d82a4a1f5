//! The per-entry decision: what the tree walker should do with one directory
//! entry it has just visited.

use vstd::prelude::*;
use vstd::string::StringExecFns;

verus! {

/// The name of the directories that the tool removes.
pub open spec fn target_name() -> Seq<char> {
    "target"@
}

/// The name of the sibling entry whose presence permits a removal.
pub open spec fn src_name() -> Seq<char> {
    "src"@
}

/// What the walker does with a visited entry: remove the directory and do not
/// descend into it, or keep it and walk its children.
#[derive(Clone, Copy, Debug, PartialEq, Eq, Structural)]
pub enum Directive {
    RemoveAndPrune,
    Descend,
}

/// A directory entry qualifies for removal exactly when it is a directory,
/// its name is `target`, and its parent holds an entry named `src`.
pub open spec fn spec_qualifies(is_dir: bool, name: Seq<char>, src_sibling_exists: bool) -> bool {
    is_dir && name == target_name() && src_sibling_exists
}

/// Whether an entry's name is exactly `target`.
pub fn is_target_name(name: &String) -> (r: bool)
    ensures
        r == (name@ == target_name()),
{
    let t = String::from_str("target");
    name.eq(&t)
}

/// Decide what the walker does with one visited entry, given whether the
/// entry is a directory, its name, and whether an entry named `src` exists
/// beside it.
pub fn decide(is_dir: bool, name: &String, src_sibling_exists: bool) -> (d: Directive)
    ensures
        (d == Directive::RemoveAndPrune) <==> spec_qualifies(is_dir, name@, src_sibling_exists),
{
    if is_dir && is_target_name(name) && src_sibling_exists {
        Directive::RemoveAndPrune
    } else {
        Directive::Descend
    }
}

} // verus!
