//! Word frequency library: tokenize text into alphabetic runs, aggregate
//! occurrence counts, filter, order and truncate the entries, and render
//! the result as a table, JSON or CSV.

pub mod freq;
pub mod json;
pub mod limit;
pub mod output;
pub mod sort;
pub mod tokenize;
pub mod unicode;

pub use freq::count;
pub use limit::limit_entries;
pub use sort::{sort_alpha, sort_by_count_then_alpha};
pub use tokenize::tokenize;
