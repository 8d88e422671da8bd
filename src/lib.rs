//! Reliable, ordered per-source delivery over a best-effort publish/subscribe
//! substrate.
//!
//! - `parameters`: the flat `key=value;...` text format of query selectors.
//! - `sample`: the samples that flow end to end.
//! - `sequencer`: per-publisher sequence numbers.
//! - `history`: the bounded ring of recent samples of one resource.
//! - `selector`: what a recovery query asks for.
//! - `cache`: the publisher-side cache that answers recovery queries.
//! - `gap`: the per-source tracker that delivers in order and asks for repairs.
//! - `subscriber`: the decisions of a reliable subscriber.
//! - `publisher`: a publisher that stamps and caches what it writes.
use vstd::prelude::*;

pub mod parameters;
pub mod sample;
pub mod sequencer;
pub mod history;
pub mod selector;
pub mod cache;
pub mod gap;
pub mod subscriber;
pub mod publisher;

verus! {

} // verus!
