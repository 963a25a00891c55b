//! Picks the next guess in a five-letter word game with coloured feedback: constraints
//! that record what feedback revealed, and a search that scores every legal guess by how
//! many candidates it would leave.
pub mod word;
pub mod config;
pub mod search;
pub mod laws;
pub mod feedback;
