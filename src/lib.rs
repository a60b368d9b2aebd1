//! Expansion of textual inclusion directives (`#include <name>`, `#include "name"`,
//! `#pragma include "name"`) in shader sources, against sources registered by name.
//! Each directive is replaced by the expansion of the named source, once per
//! expansion; a line-reset marker follows it so that later lines keep their numbers;
//! a source map tells, for each line of text in the result, where it came from.

pub mod context;
pub mod error;
pub mod expand;
pub mod lines;
pub mod scan;
pub mod source_map;
pub mod text;

pub use crate::context::Context;
pub use crate::error::Error;
pub use crate::scan::{Directive, Directives};
pub use crate::source_map::{FileLine, SourceMap};
