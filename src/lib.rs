//! Parsing, editing and rewriting of apt source lists.
//!
//! A source list is a sequence of lines, each blank, a comment, or a repository
//! entry (possibly disabled by a leading `#`). Entries are exposed as structured
//! values; comments are kept verbatim so that files can be written back.
pub mod errors;
pub mod source_entry;
pub mod source_line;
pub mod sources_iter;
pub mod sources_list;
pub mod sources_lists;
pub mod text;
pub mod upgrade;

pub use errors::{SourceError, SourceResult, SourcesListError};
pub use source_entry::SourceEntry;
pub use source_line::SourceLine;
pub use sources_iter::{SourceEvent, SourcesIter};
pub use sources_list::SourcesList;
pub use sources_lists::SourcesLists;
pub use upgrade::{DistUpgrade, UpgradeAction, UpgradeEvent, UpgradePhase};
