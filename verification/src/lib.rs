//! The logic of No Man's Manager, a mod manager for No Man's Sky, verified
//! with Verus: the mod store and its names, deploying mods into the game in
//! load order, profiles and settings, finding the game and its saves, the
//! `.hg` save container, key renaming in save documents, importing and
//! exporting bases, backups, and the activity log.
//!
//! What touches the disk, the network or the clock lives outside this crate
//! (or, for the clock and the outside codecs, behind small trusted calls);
//! every function here takes and returns plain values with a contract.
use vstd::prelude::*;

pub mod text;
pub mod clock;
pub mod json;
pub mod names;
pub mod bases;
pub mod hg;
pub mod keymap;
pub mod payload;
pub mod paths;
pub mod sort;
pub mod store;
pub mod deploy;
pub mod intake;
pub mod profile;
pub mod locate;
pub mod savefiles;
pub mod export;
pub mod logs;
pub mod migration;

verus! {
}
