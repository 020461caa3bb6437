//! A football live-score library: it decodes an obfuscated schedule feed,
//! groups the raw per-competition records into a country/competition/game
//! tree, and answers free-text, time and status queries over that tree.
//! Alongside the feed, it models the standings pages of two ranking sites:
//! cutting their embedded data out of the page text, flattening it into
//! league tables, and answering ranking lookups over those tables.

pub mod beebs;
pub mod beebs_search;
pub mod beebs_table;
pub mod clock;
pub mod decoder;
pub mod fuzzy;
pub mod generic_structs;
pub mod livescore;
pub mod search;
pub mod soccerway;
pub mod sorting;
pub mod strutil;
pub mod time;

pub use generic_structs::Competition;
pub use generic_structs::Country;
pub use generic_structs::Football;
pub use generic_structs::Game;
pub use generic_structs::GameStatus;
