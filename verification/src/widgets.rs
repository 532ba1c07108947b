//! Small helpers for renderers: a spinner, a progress bar, and tree
//! drawing prefixes.
pub mod progress_bar;
pub mod spinner;
pub mod tree_indent;

pub use self::progress_bar::ProgressBar;
pub use self::spinner::Spinner;
pub use self::tree_indent::TreeIndent;
