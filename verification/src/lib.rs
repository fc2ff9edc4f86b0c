//! `craft_server` is an alternate authoritative server for the Craft voxel
//! sandbox game. The library holds the verified core: the line-oriented
//! ASCII protocol codec, the chunked world store with its cross-chunk
//! overlap rule, the event hub that owns the roster of players, the
//! nickname registry, the chat command handler, and the planner that turns
//! world mutations into SQL operations. Sockets, files and the SQL engine
//! live outside the library.

use vstd::prelude::*;

pub mod codec;
pub mod commands;
pub mod fields;
pub mod hub;
pub mod message;
pub mod nick;
pub mod num;
pub mod persist;
pub mod world;

verus! {

/// The square X and Z dimensions of a world sector.
pub const CHUNK_SIZE: u8 = 32;

/// Length of an in-game day, in seconds.
pub const DAY_LENGTH: u32 = 600;

/// Stores the data needed to find the game time of day: the in-game
/// second count at which the server started. Elapsed wall-clock seconds
/// are measured outside the library.
#[derive(Clone, Copy, Debug, PartialEq, Eq, Structural)]
pub struct ServerTime {
    /// The point to start counting from, in seconds.
    pub offset_secs: u64,
}

impl ServerTime {
    /// A server clock starting at noon: half a day into the cycle.
    pub fn at_noon() -> (r: ServerTime)
        ensures
            r.offset_secs == DAY_LENGTH / 2,
    {
        ServerTime { offset_secs: (DAY_LENGTH / 2) as u64 }
    }

    /// The in-game time after `elapsed_secs` seconds of running.
    pub fn time(&self, elapsed_secs: u64) -> (r: u64)
        requires
            self.offset_secs + elapsed_secs <= u64::MAX,
        ensures
            r == self.offset_secs + elapsed_secs,
    {
        self.offset_secs + elapsed_secs
    }
}

} // verus!
