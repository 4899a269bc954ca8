//! Screens of the application and the focused field of the world-creation form.

use vstd::prelude::*;
use crate::text::{trim, trimmed};

verus! {

/// Current screen of the application.
#[derive(Debug, Clone, Copy, PartialEq, Eq, Structural)]
pub enum Screen {
    Main,
    WorldSelect,
    Create,
    Settings,
    InGame,
    Pause,
}

/// Input field focused in the world-creation screen.
#[derive(Debug, Clone, Copy, PartialEq, Eq, Structural)]
pub enum Field {
    NoFocus,
    Name,
    Seed,
}

/// Name given to a world created from the name field `input`: the field without
/// surrounding white space, or "Nouveau Monde" when nothing is left.
pub open spec fn new_world_name(input: Seq<char>) -> Seq<char> {
    if trimmed(input).len() == 0 { "Nouveau Monde"@ } else { trimmed(input) }
}

/// Name of the world the creation screen starts from the name field `input`.
pub fn world_name(input: &str) -> (r: String)
    ensures
        r@ == new_world_name(input@),
{
    let t = trim(input);
    if t.as_str().unicode_len() == 0 {
        "Nouveau Monde".to_owned()
    } else {
        t
    }
}

} // verus!
