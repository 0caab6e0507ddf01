//! Translation catalogs for an application: messages are extracted from
//! source text, per-language catalogs are parsed, and both are merged into a
//! dispatch table that maps a (language, message) pair to its translation.

mod chars;
mod common;
mod error;
mod extractor;
mod lang;
mod localizer;
mod macrogen;
mod message;
mod order;
mod pattern;
mod template;

pub use crate::common::{escape_string, find_literal, find_string, unescape_quoted_string};
pub use crate::error::{Error, ErrorType, Result};
pub use crate::extractor::{Extractor, POT_HEADER};
pub use crate::lang::{Lang, Translations};
pub use crate::localizer::{set_lang, CurrentLang, Localizer};
pub use crate::macrogen::{
    build_table, generate_lformat, generate_macro_file, has_arguments, DispatchRow, DispatchTable,
    RUNTIME_PRELUDE,
};
pub use crate::message::{Comment, Message};
