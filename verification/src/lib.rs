//! A next-token predictor that reads likelihood off compressed sizes: the
//! cheaper a candidate token is to append, in compressed bytes, the likelier
//! the model takes it to be.

pub mod backend;
pub mod chat;
pub mod model;
