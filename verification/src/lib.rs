//! A state-space search engine.
//!
//! A problem is given by its states, by the actions that take one state to
//! another and by a goal test. The engine explores the states that can be
//! reached from an initial state and returns the actions that lead to a goal:
//! breadth first, depth first, depth first under a growing depth limit, or
//! best first by cost and estimate.
//!
//! [`openlist`] holds the frontiers that order the states still to be
//! explored, [`search`] the engine and what is proved of it.

pub mod openlist;
pub mod search;
