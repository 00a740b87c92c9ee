//! Relative positioning from distances alone.
//!
//! Nodes that can measure how far they are from each other, and nothing else,
//! are given places in a plane: repeated, noisy measurements of each pair are
//! logged ([`location`]), consolidated into one distance per pair
//! ([`filter`]) and resolved into polar coordinates round one of the nodes
//! ([`resolver`], [`polar`]). An [`agent`] moves at constant velocity from
//! waypoint to waypoint among them.
//!
//! The library holds numbers as binary64 bit patterns ([`scalar`]), which it
//! orders and classifies but never computes with: all arithmetic is asked of
//! an [`arithmetic`] unit that the caller brings. Every contract says exactly
//! which requests are put to that unit and what is done with its answers.

pub mod agent;
pub mod arithmetic;
pub mod error;
pub mod filter;
pub mod identity;
pub mod location;
pub mod matrix;
pub mod polar;
pub mod resolver;
pub mod scalar;
pub mod signal;
