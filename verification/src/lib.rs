//! Language-target validation and post-generation patching for a binding
//! generator front end.

pub mod dispatch;
pub mod error;
pub mod language;
pub mod patcher;
pub mod text;

pub use error::Error;
pub use language::Language;
