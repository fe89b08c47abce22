//! A JSON text engine, verified with Verus.
//!
//! The engine parses a character buffer into a [`Value`] tree and serializes
//! a tree back into text. It is built from a scanner that turns text into a
//! token sequence while collecting every lexical fault, a recursive-descent
//! parser that builds the tree and stops at the first syntax or semantic
//! fault, and a serializer that renders a tree as canonical text. Each piece
//! carries a contract that pins its result to a mathematical description of
//! the grammar.

use vstd::prelude::*;

pub mod errors;
pub mod laws;
pub mod parser;
pub mod scanner;
pub mod serializer;
pub mod token;
pub mod value;

pub use serializer::serialize_value;
pub use value::Value;

verus! {

/// Whether a buffer deserializes, and to what: the scan must produce no
/// lexical fault, and the parse of its tokens must produce a value with no
/// syntax or semantic fault. There is no partial result: the whole document
/// deserializes or the whole call fails.
pub open spec fn spec_deserialize(s: Seq<char>) -> Option<value::SpecValue> {
    let scanned = scanner::spec_scan(s, 0, 1);
    if scanned.errs.len() > 0 {
        None
    } else {
        let out = parser::spec_parse_tokens(scanned.toks);
        if out.errs.len() > 0 {
            None
        } else {
            out.val
        }
    }
}

/// Deserializes a buffer: scans it whole, collecting every lexical fault,
/// and if any was found fails without parsing. Otherwise the tokens are
/// parsed into one value followed by end of input, and the first syntax or
/// semantic fault fails the call. The result is exactly
/// [`spec_deserialize`] of the buffer; malformed input is a normal path,
/// never a panic.
pub fn deserialize_value(buffer: &str) -> (res: Option<Value>)
    ensures
        res.deep_view() == spec_deserialize(buffer@),
{
    let mut scanner = scanner::Scanner::new(buffer);
    scanner.scan_tokens();
    if !scanner.errors.is_empty() {
        return None;
    }
    let mut parser = parser::Parser::new(scanner.tokens);
    let maybe_value = parser.parse_tokens();
    if !parser.errors.is_empty() {
        return None;
    }
    maybe_value
}

} // verus!
