//! TOML configuration: the value model, deep merging, the wizard
//! serializer and the decisions of configuration loading.

pub mod convert;
pub mod expand;
pub mod load;
pub mod merge;
pub mod render;
pub mod value;

pub use expand::shell_expanded;
pub use merge::merge_toml;
pub use render::{bare_or_quoted, emit, to_string};
