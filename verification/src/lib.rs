//! Verified core of a Petri net editor: the net model and its incidence
//! tables, reachability graphs, the discrete part of the token-game
//! simulation, the legacy NetStar `.gpn` and `GPN2` file formats, the
//! dump tool's byte inspection, and what the editor's windows compute.
//!
//! Floating-point quantities of the model (positions, delays, distribution
//! parameters) are carried as their IEEE-754 bit patterns; the `ieee` module
//! states what those patterns denote.

pub mod ieee;
pub mod text;
pub mod model;
pub mod legacy;
pub mod io;
pub mod atf;
pub mod markov;
pub mod dump;
pub mod settings;
pub mod sim;
pub mod editor;
