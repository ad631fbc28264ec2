//! A tree database of text values with a replayable change log, and a small set of text
//! tools, with their behaviour proved against mathematical models.

pub mod data;
pub mod database;
pub mod laws;
pub mod text;
pub mod tools;
