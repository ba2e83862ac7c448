//! Recursive inclusion of remote text into documents: directive scanning,
//! span parsing, line and anchor selection, and the substitution driver.

pub mod expand;
pub mod lines;
pub mod links;
pub mod span;
pub mod text;

pub use expand::{Action, Expansion, MAX_LINK_NESTED_DEPTH};
pub use lines::{take_anchored_lines, take_lines, LineRange};
pub use links::{find_links, Link};
pub use span::{parse_include_path, parse_range_or_anchor, Directive, Selection};
