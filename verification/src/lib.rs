//! A directed multigraph store together with a pattern-matching engine.
//!
//! A graph is a set of points (nodes identified by consecutive integer ids)
//! with directed relations between them; parallel relations between the same
//! ordered pair of points are allowed.  A query pattern is a list of chains of
//! placeholder variables; the engine enumerates every way of binding the
//! distinct variables of the pattern to distinct points so that consecutive
//! variables of every chain are bound to adjacent points.

#![allow(bindings_with_variant_name)]

pub mod graph;
pub mod resolve;
pub mod rule;
