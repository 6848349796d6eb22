//! Reading OpenStreetMap XML into an in-memory data set.
//!
//! A document is read in two steps. The tokenizer in [`source`] turns the text into lexical
//! events; the readers in [`read`] follow the events and build the nodes, ways and relations
//! of [`elements`], or stop at the first failure, which [`error`] describes. What a sequence
//! of events means is written down in [`grammar`], and every reader is proved to compute just
//! that; [`laws`] holds what follows from it for every sequence of events.

pub mod coordinate;
pub mod elements;
pub mod error;
pub mod event;
pub mod grammar;
pub mod laws;
pub mod read;
pub mod source;
pub mod text;
