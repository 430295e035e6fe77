//! The decisions of the ZapFast WhatsApp desktop client, verified: which chats
//! the background worker prefetches and when, the account privacy settings and
//! their optimistic updates, the order of chip pins, the search calendar and
//! the search-hit highlight.

pub mod calendar;
pub mod chip_pins;
pub mod model;
pub mod prefetch;
pub mod privacy;
pub mod ranking;
pub mod snippet;
pub mod text;
pub mod viewer;
