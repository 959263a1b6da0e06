//! Moderation engines for a group-chat bot: channels whose messages delete
//! themselves after a delay ("tree holes"), and community votes that remove a
//! message once enough members approve ("flushes").

use vstd::prelude::*;

pub mod flush;
pub mod votes;
pub mod tree_hole;

verus! {

/// Where the bot reads its configuration and keeps its database.
pub struct Args {
    /// Path to the configuration file.
    pub config: String,
    /// Path to the database file.
    pub db: String,
}

impl Default for Args {
    fn default() -> (r: Self)
        ensures
            r.config@ == "config.json"@,
            r.db@ == "sqlite.db"@,
    {
        Args { config: "config.json".to_owned(), db: "sqlite.db".to_owned() }
    }
}

} // verus!
