//! A recursive-descent parsing toolkit: a parser-combinator engine over
//! character buffers, a set of terminal matchers, and a JSON grammar built
//! from those pieces.

pub mod base_parsers;
pub mod json_ast;
pub mod json_parser;
pub mod parsers;
pub mod source_range;
