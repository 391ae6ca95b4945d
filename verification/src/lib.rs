//! Batch renaming of the files one level below a chosen directory, driven by a
//! two-column mapping table, with a ledger that allows the renames to be undone.

pub mod clock;
pub mod excel;
pub mod ledger;
pub mod names;
pub mod order;
pub mod paths;
pub mod rename;
pub mod rename_laws;
pub mod scan;
pub mod size_text;
pub mod strs;
pub mod text;
pub mod validate;
pub mod xlsx;

pub use excel::{export_mapping, import_mapping};
pub use ledger::Ledger;
pub use rename::apply_renames;
pub use scan::format_bytes;
pub use validate::{build_preview, validate_filename, Preview, RowAction};
