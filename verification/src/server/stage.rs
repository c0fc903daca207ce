//! How far the login sequence is allowed to run.
//!
//! A client that closes on a malformed packet says nothing about which packet. Stopping
//! the sequence early and seeing whether it still closes splits the suspects in half.
use vstd::prelude::*;

verus! {

/// How far the login sequence is allowed to run.
#[derive(Debug, Clone, Copy, PartialEq, Eq, Structural, PartialOrd, Ord)]
pub enum Stage {
    /// Stop after `StartGame`, sending no registries.
    StartGame,
    /// Stop after the registries.
    World,
    /// Stop after granting a chunk radius.
    Radius,
    /// Stop after streaming columns, without telling the client to spawn.
    Chunks,
    /// Run the whole sequence.
    Spawn,
}

/// The stage a name stands for.
pub open spec fn stage_named(name: Seq<char>) -> Option<Stage> {
    if name == "start-game"@ {
        Some(Stage::StartGame)
    } else if name == "world"@ {
        Some(Stage::World)
    } else if name == "radius"@ {
        Some(Stage::Radius)
    } else if name == "chunks"@ {
        Some(Stage::Chunks)
    } else if name == "spawn"@ {
        Some(Stage::Spawn)
    } else {
        None
    }
}

impl Stage {
    /// Parses a stage name: `start-game`, `world`, `radius`, `chunks` or `spawn`.
    pub fn parse(name: &str) -> (s: Option<Self>)
        ensures
            s == stage_named(name@),
    {
        if crate::blocks::str_equal(name, "start-game") {
            Some(Stage::StartGame)
        } else if crate::blocks::str_equal(name, "world") {
            Some(Stage::World)
        } else if crate::blocks::str_equal(name, "radius") {
            Some(Stage::Radius)
        } else if crate::blocks::str_equal(name, "chunks") {
            Some(Stage::Chunks)
        } else if crate::blocks::str_equal(name, "spawn") {
            Some(Stage::Spawn)
        } else {
            None
        }
    }
}

} // verus!
