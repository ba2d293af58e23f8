//! Parser for the literal-expression language of JSON selections: JSON-like
//! literals that may embed path selections, with byte-offset locations on
//! every node, and extraction of the paths an expression depends on. Also the
//! decision of how a telemetry event is logged.
//!
//! - `location`: located values and span merging.
//! - `lexer`: whitespace and comments, identifiers, digits, quoted strings.
//! - `path`: keys and path selections.
//! - `json_number`: numbers, read by serde_json.
//! - `lit_expr`: the literal grammar, its parser, path extraction and
//!   location stripping.
//! - `relocation`, `padding`: whitespace before and after a literal does not
//!   change it.
//! - `events`: event levels and `log_event`.

pub mod events;
pub mod json_number;
pub mod lexer;
pub mod lit_expr;
pub mod location;
pub mod padding;
pub mod path;
pub mod relocation;
