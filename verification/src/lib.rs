//! A small library for a community climbing-route site: route records,
//! lenient day/month/year date parsing, and grouping of routes into
//! date-keyed sets for display.

pub mod date;
pub mod digits;
pub mod problem;
pub mod sets;
pub mod store;

pub use date::Date;
pub use problem::ProblemData;
pub use sets::SetData;
