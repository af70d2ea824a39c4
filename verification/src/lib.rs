//! A roster-composition search library for a synergy-based autobattler.
//!
//! A catalog holds units ("champions"), each with a cost and a set of named
//! traits; every trait has count breakpoints at which a tiered bonus becomes
//! active. The library computes which traits a team activates, grows teams
//! greedily by local score maximisation, and exhaustively enumerates the ways
//! to satisfy hard trait-count requirements before delegating the remaining
//! slots to the greedy builder.

pub mod app;
pub mod champions;
pub mod constrained_finder;
pub mod greedy;
pub mod input;
pub mod selector;
pub mod state;
pub mod text;
pub mod trait_activation;
