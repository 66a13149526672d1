//! A small line-oriented text search library: the matching rules, the
//! splitting of file contents into lines, and the order in which a
//! directory's entries are visited.
pub mod order;
pub mod path;
pub mod search;
pub mod text;
pub mod walk;

pub use order::join_matches;
pub use path::same_path;
pub use search::{search_content, search_lines, SearchMatch, SearchOptions};
pub use text::{contains_chars, split_lines};
pub use walk::{plan_directory, root_action, Action, DirEntryInfo, EntryKind, SearchError, Step};
