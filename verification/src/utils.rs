//! The names most callers need, gathered in one place.
pub use crate::items::{FileInfo, ProcessInfo};
pub use crate::scan::{find_largest_files, processes};
pub use crate::sort::quicksort;
