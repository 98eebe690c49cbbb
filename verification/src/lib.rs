//! A verified log-tailing state machine for a card game's inventory: it
//! turns an append-only stream of heterogeneous log lines into a
//! consistent snapshot of the items held in hand and in storage and of
//! the opposing entities of the current encounter, tolerating file
//! truncation, multi-line structured blocks and out-of-order partial
//! information.
//!
//! Layout: `text` scans characters, `event` turns one line into at most
//! one typed event, `state` holds the snapshot and its transition,
//! `laws` proves the global properties of runs of events, `catalog`
//! holds the static display data, and `session` drives scans, resets
//! and snapshots. File and terminal I/O live outside the library.
pub mod catalog;
pub mod event;
pub mod laws;
pub mod session;
pub mod state;
pub mod text;

use vstd::prelude::*;

verus! {

/// True when `iid` carries the item-instance prefix `itm_`; only such
/// instances are tracked for hand/stash membership.
pub open spec fn spec_is_item(s: Seq<char>) -> bool {
    s.len() >= 4 && s[0] == 'i' && s[1] == 't' && s[2] == 'm' && s[3] == '_'
}

pub fn is_item_instance(s: &str) -> (r: bool)
    ensures
        r == spec_is_item(s@),
{
    if s.unicode_len() < 4 {
        return false;
    }
    s.get_char(0) == 'i' && s.get_char(1) == 't' && s.get_char(2) == 'm' && s.get_char(3) == '_'
}

} // verus!
