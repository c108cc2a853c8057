//! A personal expense tracker: validated records, an in-memory record store,
//! and the editing and selection state of its interactive front end.

pub mod text;
pub mod amount;
pub mod date;
pub mod expense;
pub mod db;
pub mod app;
