//! A space for trying out games.
use vstd::prelude::*;

verus! {

/// A game, known by its id.
#[derive(Clone, Debug)]
pub struct Game {
    pub id: u32,
}

impl Game {
    /// A game with the given id.
    pub fn new(id: u32) -> (r: Game)
        ensures
            r.id == id,
    {
        Game { id }
    }
}

} // verus!
