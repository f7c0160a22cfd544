//! A lossless codec for the line-oriented showfile format of a lighting
//! console: a parser into a structured model that keeps every piece of
//! formatting metadata, and a serializer proved to be its exact inverse.

pub mod digits;
pub mod model;
pub mod render;
pub mod grammar;
pub mod parser;
pub mod laws;

pub use model::{
    bytes_to_vec, get_float, get_hex, get_string, Eol, FloatLit, Header, ParseError, ParseRule, Row, Section,
    SectionIdentifier, Showfile, Value, ValueError,
};
pub use parser::{parse_row, parse_section, parse_value, showfile_parser};
pub use render::{render_value, showfile_writer};
