//! Reveal's library: the story notes, photo identifiers, cache bookkeeping,
//! export naming, thumbnails and preset parsing that the desktop
//! application is built around.
use vstd::prelude::*;

pub mod text;
pub mod paths;
pub mod order;
pub mod photo_cache;
pub mod apple_photos;
pub mod preview;
pub mod xmp_preset;
pub mod preset;
pub mod catalog;
pub mod publishing;
pub mod daily_note;
pub mod story;
pub mod import_cards;
pub mod export;
pub mod thumbnail;
pub mod percent;
pub mod cull;
pub mod thumb_request;
pub mod publish_flow;

verus! {

} // verus!
