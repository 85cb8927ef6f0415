//! A verified storage engine for a small collection of tagged records
//! ("knock-knock jokes"), offering CRUD plus random-sample access.
//!
//! The store owns two tables: one row per record, and one row per
//! (record id, tag label) association. Every operation carries a contract
//! that pins down its result and its effect on the store's abstract state,
//! a map from record ids to record content.

pub mod errors;
pub mod joke;
pub mod jokebase;
pub mod laws;
pub mod tags;
