//! Gameplay core of a rhythm-combat action game: a quest registry with a
//! proposal flow and an on-screen quest log that is kept in sync with it, and
//! a beat-synchronized melee combat state machine with damage resolution.
//!
//! The surrounding engine (rendering, physics queries, input devices, audio)
//! is treated as an external collaborator: it feeds plain values into the
//! functions here and carries out the UI commands they return.

pub mod assoc;
pub mod combat;
pub mod questing;
pub mod rng;
pub mod screen;
pub mod text;
pub mod util;
