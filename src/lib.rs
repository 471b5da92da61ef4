pub mod entries;
pub mod lines;
pub mod parsing;
pub mod reconcile;
pub mod store;
pub mod text;

pub use entries::{render_connoted, Connotation, Entry, EntryId, WordForm};
pub use lines::{needs_line_ending, parse_connoted_lines, parse_lines, split_lines, ParseError};
pub use parsing::connoted_entry;
pub use reconcile::{load_prior, Reconciliation};
pub use store::ConnotationMap;
