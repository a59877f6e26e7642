//! A compiler for a small widget-description language. Each line binds a cell
//! to a widget and a value: a literal, an expression over other cells, or a
//! choice among literals. The compiler turns the statements into a markup tree
//! holding the widgets and the event listeners that carry edits from source
//! cells to the cells derived from them, and serializes that tree to markup.
pub mod block;
pub mod dcl;
pub mod dom;
pub mod parse;
pub mod text;

pub use dcl::{
    dcl_to_html, parse_dcl, ComponentKind, DeclarativeComponentLanguage, ParseError, Statement,
    Value,
};
pub use dom::{copy_button, Dom, DomElement};
