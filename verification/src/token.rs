use vstd::prelude::*;

verus! {

/// One lexical unit of JSON text: a structural character, a string literal
/// carrying its raw content, a number literal carrying its raw source text,
/// one of the three keyword literals, or end of input.
#[derive(Debug)]
pub enum TokenKind {
    LeftSquaredBrace,
    RightSquaredBrace,
    LeftCurlyBrace,
    RightCurlyBrace,
    Comma,
    Colon,
    Str(String),
    Num(String),
    True,
    False,
    Null,
    Eof,
}

/// The mathematical image of a token kind: string payloads become
/// character sequences.
pub enum SpecTokenKind {
    LeftSquaredBrace,
    RightSquaredBrace,
    LeftCurlyBrace,
    RightCurlyBrace,
    Comma,
    Colon,
    Str(Seq<char>),
    Num(Seq<char>),
    True,
    False,
    Null,
    Eof,
}

/// A token annotated with the 1-based source line it was produced on.
#[derive(Debug)]
pub struct Token {
    pub kind: TokenKind,
    pub line: usize,
}

/// The mathematical image of a [`Token`].
pub struct SpecToken {
    pub kind: SpecTokenKind,
    pub line: usize,
}

impl View for TokenKind {
    type V = SpecTokenKind;

    open spec fn view(&self) -> SpecTokenKind {
        match self {
            TokenKind::LeftSquaredBrace => SpecTokenKind::LeftSquaredBrace,
            TokenKind::RightSquaredBrace => SpecTokenKind::RightSquaredBrace,
            TokenKind::LeftCurlyBrace => SpecTokenKind::LeftCurlyBrace,
            TokenKind::RightCurlyBrace => SpecTokenKind::RightCurlyBrace,
            TokenKind::Comma => SpecTokenKind::Comma,
            TokenKind::Colon => SpecTokenKind::Colon,
            TokenKind::Str(s) => SpecTokenKind::Str(s@),
            TokenKind::Num(s) => SpecTokenKind::Num(s@),
            TokenKind::True => SpecTokenKind::True,
            TokenKind::False => SpecTokenKind::False,
            TokenKind::Null => SpecTokenKind::Null,
            TokenKind::Eof => SpecTokenKind::Eof,
        }
    }
}

impl View for Token {
    type V = SpecToken;

    open spec fn view(&self) -> SpecToken {
        SpecToken { kind: self.kind@, line: self.line }
    }
}

impl DeepView for Token {
    type V = SpecToken;

    open spec fn deep_view(&self) -> SpecToken {
        self@
    }
}

/// A decimal digit.
pub open spec fn is_json_digit(c: char) -> bool {
    '0' <= c && c <= '9'
}

/// The length of the run of decimal digits starting at position `j` of `s`.
pub open spec fn digit_run(s: Seq<char>, j: int) -> nat
    decreases s.len() - j,
{
    if j < 0 || j >= s.len() || !is_json_digit(s[j]) {
        0
    } else {
        (1 + digit_run(s, j + 1)) as nat
    }
}

/// The decomposition of a number lexeme read from position `start` of `s`:
/// `end` is one past its last character, and the three flags say whether the
/// integer part, the fraction and the exponent obey the number grammar.
pub struct NumberShape {
    pub end: int,
    pub int_ok: bool,
    pub frac_ok: bool,
    pub exp_ok: bool,
}

/// Reads a number lexeme from position `start` of `s` by maximal munch:
/// an optional minus, the run of integer digits, an optional fraction
/// (`.` and its digit run), an optional exponent (`e`/`E`, an optional
/// sign, and its digit run). The integer part is valid when it has at
/// least one digit and a leading `0` is the only integer digit; fraction
/// and exponent are valid when absent or non-empty.
pub open spec fn number_shape(s: Seq<char>, start: int) -> NumberShape {
    let ip = if 0 <= start < s.len() && s[start] == '-' {
        start + 1
    } else {
        start
    };
    let int_n = digit_run(s, ip);
    let int_end = ip + int_n;
    let int_ok = int_n > 0 && !(int_n > 1 && s[ip] == '0');
    let has_frac = int_end < s.len() && s[int_end] == '.';
    let frac_n = digit_run(s, int_end + 1);
    let frac_end = if has_frac {
        int_end + 1 + frac_n
    } else {
        int_end
    };
    let frac_ok = !has_frac || frac_n > 0;
    let has_exp = frac_end < s.len() && (s[frac_end] == 'e' || s[frac_end] == 'E');
    if has_exp {
        let sp = if frac_end + 1 < s.len() && (s[frac_end + 1] == '+' || s[frac_end + 1] == '-') {
            frac_end + 2
        } else {
            frac_end + 1
        };
        let exp_n = digit_run(s, sp);
        NumberShape { end: sp + exp_n, int_ok: int_ok, frac_ok: frac_ok, exp_ok: exp_n > 0 }
    } else {
        NumberShape { end: frac_end, int_ok: int_ok, frac_ok: frac_ok, exp_ok: true }
    }
}

/// The JSON number grammar over a whole lexeme: the maximal-munch read
/// starting at its first character consumes all of it, every part obeys
/// its sub-rule, and the lexeme begins with a minus or a digit.
pub open spec fn is_valid_number_literal(t: Seq<char>) -> bool {
    let sh = number_shape(t, 0);
    &&& t.len() > 0
    &&& (t[0] == '-' || is_json_digit(t[0]))
    &&& sh.end == t.len()
    &&& sh.int_ok
    &&& sh.frac_ok
    &&& sh.exp_ok
}

} // verus!
