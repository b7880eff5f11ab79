//! A clipboard-history engine: a bounded, deduplicating store of clipboard
//! entries, a polling change detector that feeds it, a text-safe image codec,
//! and an append-only journal that lets the history survive a restart.

use vstd::prelude::*;

pub mod codec;
pub mod facade;
pub mod journal;
pub mod poller;
pub mod shared;
pub mod store;

verus! {

/// Upper bound on how many entries the history retains.
pub const MAX_ITEMS: usize = 50;

} // verus!
