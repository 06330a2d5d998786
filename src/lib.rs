//! A growable sequence whose elements never move once placed: it grows by
//! adding fixed-capacity fragments instead of reallocating one buffer.

pub mod error;
pub mod fragment;
pub mod growth;
pub mod lemmas;
pub mod resolve;
pub mod split_vec;
