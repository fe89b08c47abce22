use vstd::prelude::*;

verus! {

/// The kind of a lexical fault found while scanning raw text.
///
/// Scanning never aborts: every fault is recorded and the scan of the
/// offending lexeme still completes, so one pass collects them all.
#[derive(Clone, Copy, Debug, PartialEq, Eq, Structural)]
pub enum LexicalErrorKind {
    /// A character that cannot begin any token.
    UnexpectedCharacter,
    /// A string literal whose closing quote is missing.
    UnterminatedString,
    /// A number literal that breaks the number grammar: no integer digit,
    /// a leading zero followed by another digit, a fraction or exponent
    /// without digits.
    MalformedNumber,
    /// A letter that begins `true`, `false` or `null` but does not spell
    /// the keyword out.
    MalformedKeyword,
}

/// A lexical fault together with the 1-based source line it was found on.
#[derive(Clone, Copy, Debug, PartialEq, Eq, Structural)]
pub struct LexicalError {
    pub kind: LexicalErrorKind,
    pub line: usize,
}

/// The kind of a fault found while parsing the token sequence.
///
/// All kinds but `DuplicateKey` are syntax faults; `DuplicateKey` is the one
/// semantic fault. Parsing stops at the first syntax or semantic fault, with
/// one exception: a missing colon is recorded and parsing continues into the
/// member's value, to report a better-placed fault if one follows.
#[derive(Clone, Copy, Debug, PartialEq, Eq, Structural)]
pub enum ParseErrorKind {
    /// A token that cannot begin a value.
    UnexpectedToken,
    /// The input ended where a value, key or closing brace was required:
    /// the end-of-input token, or no token at all, stood in its place.
    UnexpectedEof,
    /// A token remained after the top-level value.
    TrailingContent,
    /// Two members or elements without a comma between them.
    MissingComma,
    /// A member key without a colon after it.
    MissingColon,
    /// An object member that does not begin with a string key.
    ExpectedKey,
    /// Two members of one object with the same key.
    DuplicateKey,
}

/// A parse fault together with the 1-based line of the offending token.
/// The line is 0 only where no token was left to take it from.
#[derive(Clone, Copy, Debug, PartialEq, Eq, Structural)]
pub struct ParseError {
    pub kind: ParseErrorKind,
    pub line: usize,
}

impl ParseErrorKind {
    /// The one semantic fault; every other kind is a syntax fault.
    pub open spec fn is_semantic(self) -> bool {
        self is DuplicateKey
    }
}

} // verus!
