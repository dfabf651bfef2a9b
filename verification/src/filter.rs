//! Which directory entries a snapshot shows.

use crate::text::same_text;
use vstd::prelude::*;

verus! {

/// A name is hidden when it starts with a dot.
pub open spec fn is_hidden_name(name: Seq<char>) -> bool {
    name.len() > 0 && name[0] == '.'
}

/// The names of dependency and build-cache directories that never appear in a
/// snapshot.
pub open spec fn is_noise_name(name: Seq<char>) -> bool {
    ||| name == "node_modules"@
    ||| name == "target"@
    ||| name == ".svelte-kit"@
    ||| name == "__pycache__"@
}

/// The visibility policy: neither hidden nor noise.
pub open spec fn visible(name: Seq<char>) -> bool {
    !is_hidden_name(name) && !is_noise_name(name)
}

/// Decides whether an entry with this base name is shown.
pub fn is_visible(name: &str) -> (shown: bool)
    ensures
        shown == visible(name@),
{
    if name.is_empty() {
        proof {
            reveal_strlit("node_modules");
            reveal_strlit("target");
            reveal_strlit(".svelte-kit");
            reveal_strlit("__pycache__");
        }
        return true;
    }
    if name.get_char(0) == '.' {
        return false;
    }
    proof {
        reveal_strlit(".svelte-kit");
    }
    !(same_text(name, "node_modules") || same_text(name, "target") || same_text(
        name,
        "__pycache__",
    ))
}

} // verus!
