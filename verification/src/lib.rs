//! A verified parser for the UNIX shadow password database.
//!
//! One line of the database holds nine colon-separated fields; `parse_line`
//! turns such a line into a typed [`entry::ShadowEntry`], and the functions in
//! [`stream`] enumerate or search a sequence of such lines in file order.

pub mod entry;
pub mod stream;
pub mod text;

pub use entry::ParseError;
pub use entry::ShadowEntry;
pub use entry::parse_line;
pub use stream::collect_all;
pub use stream::default_shadow_path;
pub use stream::find_by_name;
pub use stream::find_in_line;
