//! A dictionary of marked-up entry lines: a line grammar, a sorted index of
//! headwords over groups of fields, a binary snapshot of the whole, and lookup
//! of headwords within a bounded edit distance.

pub mod dict;
pub mod distance;
pub mod error;
pub mod field;
pub mod format;
pub mod grammar;
pub mod group;
pub mod index;
pub mod line;
pub mod order;
pub mod parser;
pub mod render;
pub mod search;
pub mod snapshot;
pub mod sort;
pub mod text;

pub use dict::{build, build_index, parse, Dict};
pub use error::DictError;
pub use field::{Complement, Entry, Example, Explanation, Field};
pub use parser::{parse_complements, parse_examples, parse_field};
pub use render::printer;
pub use search::{lookup, print_found, search};
pub use snapshot::{load, save};
