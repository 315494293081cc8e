//! Planning of ability investments for a series of skill challenges.
//!
//! Each challenge is a check against a target: every level bought in an
//! ability adds a roll to the total, and a cap limits the levels used. The
//! planner looks for the cheapest ways to pass all challenges with a given
//! chance, over every order in which the challenges can be attempted.
//!
//! This crate holds the exact side of the planner: the catalog of abilities
//! ([`abilities`]), the rewards ([`rewards`]) and what they do to a roll
//! ([`dice`]), the text format of a list of challenges ([`parser`], over
//! [`text`]), the walk over all configurations and the table of the best
//! ones ([`search`]), the sweep that builds a convex hull ([`hull`]), the
//! store of hulls by rewards ([`solver`]), the merge of several hulls
//! ([`merge`]) and the walk over the orders of the challenges ([`order`]).
//!
//! Chances, their logarithms and slopes enter as [`ord_sub::OrdSub`]
//! values, which are compared here and never computed with: where the
//! crate needs a number, it asks its caller for it.

pub mod abilities;
pub mod challenges;
pub mod dice;
pub mod hull;
pub mod merge;
pub mod ord_sub;
pub mod order;
pub mod parser;
pub mod rewards;
pub mod search;
pub mod solver;
pub mod text;
