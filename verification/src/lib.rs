//! Rendering core for a directory-listing tool: styled buffered output,
//! permission/size/time field formatting, name comparators, and a
//! column-fitting grid layout.

pub mod buffer;
pub mod compare;
pub mod digits;
pub mod entry;
pub mod fields;
pub mod grid;
pub mod render;
pub mod style;

pub use buffer::{BufferedStdout, Writable};
pub use compare::{compare_by, compare_case_insensitive, compare_natural, sort_entries, NameOrder};
pub use digits::{format_i64, format_u64};
pub use entry::{DisplayEntry, EntryMeta, OwnerNames};
pub use fields::{month_abbr, LocalTime};
pub use grid::{compute_layout, len_utf8, write_grid};
pub use render::{open_error_message, write_details, write_single_column};
pub use style::Style;
