//! String finding in ropes.
//!
//! A [`Rope`] holds text in leaves, and a [`Cursor`] is a position in it. [`find`] moves a
//! cursor to the next match of a string or a regular expression, and [`find_progress`]
//! does so a bounded number of steps at a time.
//!
//! Module `search` says what a match is and what the steps of a search do, `find` holds
//! the searches themselves, and `laws` what holds of them as a whole. What cursors, matches,
//! steps and expressions over several lines come down to is in `leaf_laws`, `match_laws`,
//! `step_laws` and `multiline_laws`.

pub mod find;
pub mod laws;
pub mod leaf_laws;
pub mod lowercase;
pub mod match_laws;
pub mod multiline_laws;
pub mod regex_search;
pub mod rope;
pub mod scan;
pub mod search;
pub mod step_laws;
pub mod text;

pub use find::{
    compare_cursor_regex, compare_cursor_str, compare_cursor_str_casei, find, find_progress,
};
pub use rope::{Cursor, Rope};
pub use search::{CaseMatching, FindResult};
