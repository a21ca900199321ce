//! A verified note/association graph engine.
//!
//! Authors publish short immutable notes and link them with typed directed
//! edges ("associations") to form chains of segments, supersede notes with
//! new versions, and cross-reference notes.  This crate holds the verified
//! core of that engine: the typed-edge store with its single-version-edge
//! invariant, the terminating chain walker, the related-notes aggregator
//! with its cross-author visibility rules, and the transactional chain and
//! version creation protocol.

use vstd::prelude::*;

pub mod builder;
pub mod domain;
pub mod http;
pub mod ids;
pub mod policy;
pub mod query;
pub mod related;
pub mod segment;
pub mod store;
pub mod text;
pub mod walker;
pub mod web;

verus! {

/// The side of a note on which a chain walk proceeds.
#[derive(Clone, Copy, PartialEq, Eq, Structural, Debug)]
pub enum Direction {
    Prev,
    Next,
}

} // verus!
