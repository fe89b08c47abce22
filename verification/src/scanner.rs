use vstd::prelude::*;
use vstd::string::{StrSliceExecFns, StringExecFns};
use crate::errors::{LexicalError, LexicalErrorKind};
use crate::token::{
    Token, TokenKind, SpecToken, SpecTokenKind, is_json_digit, digit_run, number_shape,
};

verus! {

/// A line counter that sticks at the largest representable value instead of
/// wrapping.
pub open spec fn sat_inc(line: usize) -> usize {
    if line < usize::MAX {
        (line + 1) as usize
    } else {
        line
    }
}

/// Adds `k` to a line counter, sticking at the largest representable value.
pub open spec fn sat_add(line: usize, k: nat) -> usize {
    if line + k <= usize::MAX {
        (line + k) as usize
    } else {
        usize::MAX
    }
}

/// The number of characters from position `j` (inclusive) to the first
/// occurrence of `c`, or to the end of `s` if `c` does not occur again.
pub open spec fn dist_to(s: Seq<char>, j: int, c: char) -> nat
    decreases s.len() - j,
{
    if j < 0 || j >= s.len() || s[j] == c {
        0
    } else {
        (1 + dist_to(s, j + 1, c)) as nat
    }
}

/// The number of newline characters in `s` at positions `from <= k < to`.
pub open spec fn count_newlines(s: Seq<char>, from: int, to: int) -> nat
    decreases to - from,
{
    if from >= to {
        0
    } else {
        (if 0 <= from < s.len() && s[from] == '\n' {
            1nat
        } else {
            0nat
        }) + count_newlines(s, from + 1, to)
    }
}

/// The length of the longest common prefix of `s` from position `j` and the
/// word `w` from position `k`.
pub open spec fn match_run(s: Seq<char>, j: int, w: Seq<char>, k: int) -> nat
    decreases w.len() - k,
{
    if k < 0 || k >= w.len() || j < 0 || j >= s.len() || s[j] != w[k] {
        0
    } else {
        (1 + match_run(s, j + 1, w, k + 1)) as nat
    }
}

/// What one call of the scanner's step does from position `i` on line
/// `line`: where the scan continues, the line it continues on, and the
/// tokens and faults it produced.
pub struct ScanStep {
    pub next: int,
    pub line: usize,
    pub toks: Seq<SpecToken>,
    pub errs: Seq<LexicalError>,
}

/// A single token at the current line, nothing else.
pub open spec fn single_token_step(i: int, line: usize, kind: SpecTokenKind) -> ScanStep {
    ScanStep {
        next: i + 1,
        line: line,
        toks: seq![SpecToken { kind: kind, line: line }],
        errs: Seq::empty(),
    }
}

/// A string literal opened by the quote at position `i`: the scan runs to
/// the next quote, counting newlines into the line counter. If the end of
/// input comes first the literal is unterminated: no token, one fault. The
/// token carries the raw content between the quotes, uninterpreted, and the
/// line of its closing quote.
pub open spec fn scan_string_step(s: Seq<char>, i: int, line: usize) -> ScanStep {
    let q = i + 1 + dist_to(s, i + 1, '"');
    if q >= s.len() {
        let l2 = sat_add(line, count_newlines(s, i + 1, s.len() as int));
        ScanStep {
            next: s.len() as int,
            line: l2,
            toks: Seq::empty(),
            errs: seq![LexicalError { kind: LexicalErrorKind::UnterminatedString, line: l2 }],
        }
    } else {
        let l2 = sat_add(line, count_newlines(s, i + 1, q));
        ScanStep {
            next: q + 1,
            line: l2,
            toks: seq![
                SpecToken { kind: SpecTokenKind::Str(s.subrange(i + 1, q)), line: l2 },
            ],
            errs: Seq::empty(),
        }
    }
}

/// A number literal starting at position `i`: the lexeme is read by maximal
/// munch, a token carrying its raw text is always produced, and one fault is
/// recorded for each broken sub-rule, in the order integer part, fraction,
/// exponent.
pub open spec fn scan_number_step(s: Seq<char>, i: int, line: usize) -> ScanStep {
    let sh = number_shape(s, i);
    let e = LexicalError { kind: LexicalErrorKind::MalformedNumber, line: line };
    ScanStep {
        next: sh.end,
        line: line,
        toks: seq![SpecToken { kind: SpecTokenKind::Num(s.subrange(i, sh.end)), line: line }],
        errs: (if sh.int_ok {
            Seq::empty()
        } else {
            seq![e]
        }) + (if sh.frac_ok {
            Seq::empty()
        } else {
            seq![e]
        }) + (if sh.exp_ok {
            Seq::empty()
        } else {
            seq![e]
        }),
    }
}

/// A keyword literal begun by the letter at position `i`: the scan consumes
/// the longest matching prefix of the keyword's remaining letters, records a
/// fault unless all of them matched, and emits the keyword token either way.
pub open spec fn scan_keyword_step(
    s: Seq<char>,
    i: int,
    line: usize,
    tail: Seq<char>,
    kind: SpecTokenKind,
) -> ScanStep {
    let m = match_run(s, i + 1, tail, 0);
    ScanStep {
        next: i + 1 + m,
        line: line,
        toks: seq![SpecToken { kind: kind, line: line }],
        errs: if m == tail.len() {
            Seq::empty()
        } else {
            seq![LexicalError { kind: LexicalErrorKind::MalformedKeyword, line: line }]
        },
    }
}

/// One step of the scan from position `i` of `s` on line `line`, by the
/// class of the character there: whitespace is skipped, a newline bumps the
/// line counter, the six structural characters each yield their token, a
/// quote opens a string literal, a minus or digit opens a number literal,
/// `t`, `f` and `n` open the keyword literals, and anything else is an
/// unexpected character.
pub open spec fn scan_step(s: Seq<char>, i: int, line: usize) -> ScanStep {
    let c = s[i];
    if c == ' ' || c == '\r' || c == '\t' {
        ScanStep { next: i + 1, line: line, toks: Seq::empty(), errs: Seq::empty() }
    } else if c == '\n' {
        ScanStep { next: i + 1, line: sat_inc(line), toks: Seq::empty(), errs: Seq::empty() }
    } else if c == '[' {
        single_token_step(i, line, SpecTokenKind::LeftSquaredBrace)
    } else if c == ']' {
        single_token_step(i, line, SpecTokenKind::RightSquaredBrace)
    } else if c == '{' {
        single_token_step(i, line, SpecTokenKind::LeftCurlyBrace)
    } else if c == '}' {
        single_token_step(i, line, SpecTokenKind::RightCurlyBrace)
    } else if c == ',' {
        single_token_step(i, line, SpecTokenKind::Comma)
    } else if c == ':' {
        single_token_step(i, line, SpecTokenKind::Colon)
    } else if c == '"' {
        scan_string_step(s, i, line)
    } else if c == '-' || is_json_digit(c) {
        scan_number_step(s, i, line)
    } else if c == 't' {
        scan_keyword_step(s, i, line, seq!['r', 'u', 'e'], SpecTokenKind::True)
    } else if c == 'f' {
        scan_keyword_step(s, i, line, seq!['a', 'l', 's', 'e'], SpecTokenKind::False)
    } else if c == 'n' {
        scan_keyword_step(s, i, line, seq!['u', 'l', 'l'], SpecTokenKind::Null)
    } else {
        ScanStep {
            next: i + 1,
            line: line,
            toks: Seq::empty(),
            errs: seq![
                LexicalError { kind: LexicalErrorKind::UnexpectedCharacter, line: line },
            ],
        }
    }
}

/// Everything a scan produces: the token sequence, ending in the
/// end-of-input token, and the lexical faults in the order they were found.
pub struct Scanned {
    pub toks: Seq<SpecToken>,
    pub errs: Seq<LexicalError>,
}

/// The full scan of `s` from position `i` on line `line`: step after step
/// to the end of input, then the end-of-input token. The scan never stops
/// at a fault; it collects every fault of the whole buffer.
pub open spec fn spec_scan(s: Seq<char>, i: int, line: usize) -> Scanned
    decreases s.len() - i,
{
    if !(0 <= i < s.len()) {
        Scanned {
            toks: seq![SpecToken { kind: SpecTokenKind::Eof, line: line }],
            errs: Seq::empty(),
        }
    } else {
        let st = scan_step(s, i, line);
        let next = if i + 1 <= st.next <= s.len() {
            st.next
        } else {
            i + 1
        };
        let rest = spec_scan(s, next, st.line);
        Scanned { toks: st.toks + rest.toks, errs: st.errs + rest.errs }
    }
}

/// The tokens of a whole buffer, scanned from its start on line 1.
pub open spec fn spec_tokens(s: Seq<char>) -> Seq<SpecToken> {
    spec_scan(s, 0, 1).toks
}

/// The lexical faults of a whole buffer, scanned from its start on line 1.
pub open spec fn spec_lex_errors(s: Seq<char>) -> Seq<LexicalError> {
    spec_scan(s, 0, 1).errs
}

/// `dist_to` runs at most to the end of the buffer, stops on the sought
/// character, and skips no occurrence of it.
pub proof fn lemma_dist_to(s: Seq<char>, j: int, c: char)
    requires
        0 <= j <= s.len(),
    ensures
        j + dist_to(s, j, c) <= s.len(),
        j + dist_to(s, j, c) < s.len() ==> s[j + dist_to(s, j, c)] == c,
        forall|k: int| j <= k < j + dist_to(s, j, c) ==> s[k] != c,
    decreases s.len() - j,
{
    if j < s.len() && s[j] != c {
        lemma_dist_to(s, j + 1, c);
    }
}

/// A digit run is made of digits, ends at the buffer's end or at a
/// non-digit, and stays inside the buffer.
pub proof fn lemma_digit_run(s: Seq<char>, j: int)
    requires
        0 <= j <= s.len(),
    ensures
        j + digit_run(s, j) <= s.len(),
        j + digit_run(s, j) < s.len() ==> !is_json_digit(s[j + digit_run(s, j)]),
        forall|k: int| j <= k < j + digit_run(s, j) ==> is_json_digit(s[k]),
    decreases s.len() - j,
{
    if j < s.len() && is_json_digit(s[j]) {
        lemma_digit_run(s, j + 1);
    }
}

/// A match run is no longer than the word's remainder, matches it character
/// by character, stays inside the buffer, and is maximal.
pub proof fn lemma_match_run(s: Seq<char>, j: int, w: Seq<char>, k: int)
    requires
        0 <= j <= s.len(),
        0 <= k <= w.len(),
    ensures
        match_run(s, j, w, k) <= w.len() - k,
        j + match_run(s, j, w, k) <= s.len(),
        forall|t: int| 0 <= t < match_run(s, j, w, k) ==> #[trigger] s[j + t] == w[k + t],
        match_run(s, j, w, k) < w.len() - k ==> (j + match_run(s, j, w, k) == s.len() || s[j
            + match_run(s, j, w, k)] != w[k + match_run(s, j, w, k)]),
    decreases w.len() - k,
{
    if k < w.len() && j < s.len() && s[j] == w[k] {
        lemma_match_run(s, j + 1, w, k + 1);
        assert forall|t: int| 0 <= t < match_run(s, j, w, k) implies #[trigger] s[j + t] == w[k
            + t] by {
            if t > 0 {
                assert(s[(j + 1) + (t - 1)] == w[(k + 1) + (t - 1)]);
            }
        }
    }
}

/// Counting newlines over two adjacent ranges adds up.
pub proof fn lemma_count_newlines_snoc(s: Seq<char>, from: int, to: int)
    requires
        from <= to,
    ensures
        count_newlines(s, from, to + 1) == count_newlines(s, from, to) + (if 0 <= to < s.len()
            && s[to] == '\n' {
            1nat
        } else {
            0nat
        }),
    decreases to - from,
{
    if from < to {
        lemma_count_newlines_snoc(s, from + 1, to);
    } else {
        assert(count_newlines(s, from + 1, to + 1) == 0);
    }
}

/// Sticking addition of line counts composes.
pub proof fn lemma_sat_add_assoc(line: usize, a: nat, b: nat)
    ensures
        sat_add(sat_add(line, a), b) == sat_add(line, a + b),
{
}

/// From a position inside the buffer, one scan step always moves forward
/// and never runs past the end of the buffer.
pub proof fn lemma_scan_step_bounds(s: Seq<char>, i: int, line: usize)
    requires
        0 <= i < s.len(),
    ensures
        i < scan_step(s, i, line).next <= s.len(),
{
    let c = s[i];
    if c == '"' {
        lemma_dist_to(s, i + 1, '"');
    } else if c == '-' || is_json_digit(c) {
        let sh = number_shape(s, i);
        let ip = if s[i] == '-' {
            i + 1
        } else {
            i
        };
        lemma_digit_run(s, ip);
        let int_end = ip + digit_run(s, ip);
        if int_end < s.len() && s[int_end] == '.' {
            lemma_digit_run(s, int_end + 1);
        }
        let frac_end = if int_end < s.len() && s[int_end] == '.' {
            int_end + 1 + digit_run(s, int_end + 1)
        } else {
            int_end
        };
        if frac_end < s.len() && (s[frac_end] == 'e' || s[frac_end] == 'E') {
            let sp = if frac_end + 1 < s.len() && (s[frac_end + 1] == '+' || s[frac_end + 1]
                == '-') {
                frac_end + 2
            } else {
                frac_end + 1
            };
            lemma_digit_run(s, sp);
        }
    } else if c == 't' {
        lemma_match_run(s, i + 1, seq!['r', 'u', 'e'], 0);
    } else if c == 'f' {
        lemma_match_run(s, i + 1, seq!['a', 'l', 's', 'e'], 0);
    } else if c == 'n' {
        lemma_match_run(s, i + 1, seq!['u', 'l', 'l'], 0);
    }
}

/// Decides [`is_json_digit`] on a concrete character.
fn digit_char(c: char) -> (r: bool)
    ensures
        r == is_json_digit(c),
{
    match c {
        '0' | '1' | '2' | '3' | '4' | '5' | '6' | '7' | '8' | '9' => true,
        _ => false,
    }
}

/// The scanner: one full left-to-right pass over a character buffer that
/// produces the token sequence, ending in an end-of-input token, and the
/// list of every lexical fault found on the way. `start` marks where the
/// lexeme being scanned begins, `current` the next character to read, and
/// `line` the 1-based line the scan is on.
pub struct Scanner {
    pub buffer: String,
    pub tokens: Vec<Token>,
    pub start: usize,
    pub current: usize,
    pub line: usize,
    pub errors: Vec<LexicalError>,
}

impl Scanner {
    /// The reading position never runs past the end of the buffer, and the
    /// buffer's character count fits the machine's word.
    pub open spec fn wf(self) -> bool {
        self.current <= self.buffer@.len() && self.buffer@.len() <= usize::MAX
    }

    /// A fresh scanner over a copy of the given text, at its first
    /// character, on line 1, with no tokens and no faults yet.
    pub fn new(buffer: &str) -> (sc: Scanner)
        ensures
            sc.buffer@ == buffer@,
            sc.tokens@.len() == 0,
            sc.start == 0,
            sc.current == 0,
            sc.line == 1,
            sc.errors@.len() == 0,
            sc.wf(),
    {
        let owned = buffer.to_owned();
        // learns that the character count fits the machine's word
        let _chars = owned.as_str().unicode_len();
        Scanner {
            buffer: owned,
            tokens: Vec::new(),
            start: 0,
            current: 0,
            line: 1,
            errors: Vec::new(),
        }
    }

    /// Whether the whole buffer has been read.
    pub fn is_at_end(&self) -> (r: bool)
        ensures
            r == (self.current >= self.buffer@.len()),
    {
        self.current >= self.buffer.as_str().unicode_len()
    }

    /// The character at the reading position, or the null character at the
    /// end of the buffer; the position does not move.
    pub fn peek(&self) -> (c: char)
        requires
            self.wf(),
        ensures
            c == (if self.current < self.buffer@.len() {
                self.buffer@[self.current as int]
            } else {
                '\0'
            }),
    {
        if self.is_at_end() {
            '\0'
        } else {
            self.buffer.as_str().get_char(self.current)
        }
    }

    /// Reads the character at the reading position and moves past it.
    pub fn advance(&mut self) -> (c: char)
        requires
            old(self).wf(),
            old(self).current < old(self).buffer@.len(),
        ensures
            final(self).wf(),
            c == old(self).buffer@[old(self).current as int],
            final(self).current == old(self).current + 1,
            final(self).buffer == old(self).buffer,
            final(self).tokens == old(self).tokens,
            final(self).start == old(self).start,
            final(self).line == old(self).line,
            final(self).errors == old(self).errors,
    {
        let result = self.peek();
        self.current = self.current + 1;
        result
    }

    /// Consumes the character at the reading position exactly when it is
    /// `expected`, and says whether it did.
    pub fn try_match(&mut self, expected: char) -> (r: bool)
        requires
            old(self).wf(),
        ensures
            final(self).wf(),
            r == (old(self).current < old(self).buffer@.len() && old(self).buffer@[old(self).current as int]
                == expected),
            final(self).current == if r {
                old(self).current + 1
            } else {
                old(self).current as int
            },
            final(self).buffer == old(self).buffer,
            final(self).tokens == old(self).tokens,
            final(self).start == old(self).start,
            final(self).line == old(self).line,
            final(self).errors == old(self).errors,
    {
        if self.is_at_end() || self.peek() != expected {
            return false;
        }
        self.advance();
        true
    }

    /// Consumes the longest prefix of the buffer matching `expected` from
    /// the reading position, and says whether all of `expected` matched.
    #[verifier::loop_isolation(false)]
    pub fn try_match_str(&mut self, expected: &str) -> (r: bool)
        requires
            old(self).wf(),
        ensures
            final(self).wf(),
            final(self).current == old(self).current + match_run(
                old(self).buffer@,
                old(self).current as int,
                expected@,
                0,
            ),
            r == (match_run(old(self).buffer@, old(self).current as int, expected@, 0)
                == expected@.len()),
            final(self).buffer == old(self).buffer,
            final(self).tokens == old(self).tokens,
            final(self).start == old(self).start,
            final(self).line == old(self).line,
            final(self).errors == old(self).errors,
    {
        let ghost s = old(self).buffer@;
        let ghost e = expected@;
        let n = expected.unicode_len();
        let mut k: usize = 0;
        while k < n
            invariant
                k <= n,
                self.wf(),
                self.current == old(self).current + k,
                match_run(s, old(self).current as int, e, 0) == k + match_run(
                    s,
                    self.current as int,
                    e,
                    k as int,
                ),
                self.buffer == old(self).buffer,
                self.tokens == old(self).tokens,
                self.start == old(self).start,
                self.line == old(self).line,
                self.errors == old(self).errors,
            decreases n - k,
        {
            let c = expected.get_char(k);
            if !self.try_match(c) {
                proof {
                    assert(match_run(s, self.current as int, e, k as int) == 0);
                }
                return false;
            }
            k = k + 1;
        }
        proof {
            assert(match_run(s, self.current as int, e, n as int) == 0);
        }
        true
    }

    /// Records a lexical fault at the scan's current line.
    pub fn report_error(&mut self, kind: LexicalErrorKind)
        ensures
            final(self).errors@ == old(self).errors@.push(
                (LexicalError { kind: kind, line: old(self).line }),
            ),
            final(self).buffer == old(self).buffer,
            final(self).tokens == old(self).tokens,
            final(self).start == old(self).start,
            final(self).current == old(self).current,
            final(self).line == old(self).line,
    {
        let line = self.line;
        self.errors.push(LexicalError { kind, line });
    }

    /// Appends a token of the given kind, annotated with the scan's current
    /// line.
    pub fn add_token(&mut self, token_kind: TokenKind)
        ensures
            final(self).tokens.deep_view() == old(self).tokens.deep_view().push(
                (SpecToken { kind: token_kind@, line: old(self).line }),
            ),
            final(self).buffer == old(self).buffer,
            final(self).start == old(self).start,
            final(self).current == old(self).current,
            final(self).line == old(self).line,
            final(self).errors == old(self).errors,
    {
        let ghost t = SpecToken { kind: token_kind@, line: self.line };
        let line = self.line;
        self.tokens.push(Token { kind: token_kind, line });
        proof {
            assert(self.tokens.deep_view() =~= old(self).tokens.deep_view().push(t));
        }
    }

    /// Consumes the run of decimal digits at the reading position.
    #[verifier::loop_isolation(false)]
    fn consume_digits(&mut self)
        requires
            old(self).wf(),
        ensures
            final(self).wf(),
            final(self).current == old(self).current + digit_run(
                old(self).buffer@,
                old(self).current as int,
            ),
            final(self).buffer == old(self).buffer,
            final(self).tokens == old(self).tokens,
            final(self).start == old(self).start,
            final(self).line == old(self).line,
            final(self).errors == old(self).errors,
    {
        let ghost s = old(self).buffer@;
        while digit_char(self.peek())
            invariant
                self.wf(),
                old(self).current <= self.current,
                digit_run(s, old(self).current as int) == (self.current - old(self).current)
                    + digit_run(s, self.current as int),
                self.buffer == old(self).buffer,
                self.tokens == old(self).tokens,
                self.start == old(self).start,
                self.line == old(self).line,
                self.errors == old(self).errors,
            decreases s.len() - self.current,
        {
            self.advance();
        }
        proof {
            assert(digit_run(s, self.current as int) == 0);
        }
    }

    /// Scans the rest of a string literal whose opening quote, at `start`,
    /// has just been consumed: runs to the next quote, bumping the line
    /// counter at each newline inside the literal. Reaching the end of input
    /// first records an unterminated-string fault and emits no token;
    /// otherwise the token carries the raw content between the quotes.
    #[verifier::loop_isolation(false)]
    pub fn add_string_token(&mut self)
        requires
            old(self).wf(),
            old(self).current == old(self).start + 1,
            old(self).start < old(self).buffer@.len(),
            old(self).buffer@[old(self).start as int] == '"',
        ensures
            final(self).wf(),
            final(self).buffer == old(self).buffer,
            final(self).start == old(self).start,
            ({
                let st = scan_string_step(
                    old(self).buffer@,
                    old(self).start as int,
                    old(self).line,
                );
                &&& final(self).current == st.next
                &&& final(self).line == st.line
                &&& final(self).tokens.deep_view() == old(self).tokens.deep_view() + st.toks
                &&& final(self).errors@ == old(self).errors@ + st.errs
            }),
    {
        let ghost s = old(self).buffer@;
        let ghost i = old(self).start as int;
        let ghost q = i + 1 + dist_to(s, i + 1, '"');
        proof {
            lemma_dist_to(s, i + 1, '"');
        }
        while !self.is_at_end() && self.peek() != '"'
            invariant
                self.wf(),
                old(self).current <= self.current,
                dist_to(s, i + 1, '"') == (self.current - (i + 1)) + dist_to(
                    s,
                    self.current as int,
                    '"',
                ),
                self.line == sat_add(
                    old(self).line,
                    count_newlines(s, i + 1, self.current as int),
                ),
                self.buffer == old(self).buffer,
                self.tokens == old(self).tokens,
                self.start == old(self).start,
                self.errors == old(self).errors,
            decreases s.len() - self.current,
        {
            proof {
                lemma_count_newlines_snoc(s, i + 1, self.current as int);
                lemma_sat_add_assoc(
                    old(self).line,
                    count_newlines(s, i + 1, self.current as int),
                    1,
                );
            }
            if self.peek() == '\n' {
                self.line = if self.line < usize::MAX {
                    self.line + 1
                } else {
                    self.line
                };
            }
            self.advance();
        }
        proof {
            assert(dist_to(s, self.current as int, '"') == 0);
            assert(self.current == q);
        }
        if self.is_at_end() {
            self.report_error(LexicalErrorKind::UnterminatedString);
            proof {
                let st = scan_string_step(s, i, old(self).line);
                assert(self.tokens.deep_view() =~= old(self).tokens.deep_view() + st.toks);
                assert(self.errors@ =~= old(self).errors@ + st.errs);
            }
            return ;
        }
        let qpos = self.current;
        self.advance();
        let content = self.buffer.as_str().substring_char(self.start + 1, qpos).to_owned();
        self.add_token(TokenKind::Str(content));
        proof {
            let st = scan_string_step(s, i, old(self).line);
            assert(content@ =~= s.subrange(i + 1, q));
            assert(self.tokens.deep_view() =~= old(self).tokens.deep_view() + st.toks);
            assert(self.errors@ =~= old(self).errors@ + st.errs);
        }
    }

    /// Scans the rest of a number literal whose first character `first_c`,
    /// at `start`, has just been consumed: maximal munch over integer part,
    /// fraction and exponent. The raw lexeme always becomes a token; each
    /// broken sub-rule records one malformed-number fault, integer part
    /// first, then fraction, then exponent.
    #[verifier::rlimit(80)]
    pub fn add_number_token(&mut self, first_c: char)
        requires
            old(self).wf(),
            old(self).current == old(self).start + 1,
            old(self).start < old(self).buffer@.len(),
            old(self).buffer@[old(self).start as int] == first_c,
            first_c == '-' || is_json_digit(first_c),
        ensures
            final(self).wf(),
            final(self).buffer == old(self).buffer,
            final(self).start == old(self).start,
            ({
                let st = scan_number_step(
                    old(self).buffer@,
                    old(self).start as int,
                    old(self).line,
                );
                &&& final(self).current == st.next
                &&& final(self).line == st.line
                &&& final(self).tokens.deep_view() == old(self).tokens.deep_view() + st.toks
                &&& final(self).errors@ == old(self).errors@ + st.errs
            }),
    {
        let ghost s = old(self).buffer@;
        let ghost i = old(self).start as int;
        let ghost sh = number_shape(s, i);
        let ghost ip_s: int = if s[i] == '-' { i + 1 } else { i };
        let ghost int_end_s: int = ip_s + digit_run(s, ip_s);

        // the integer part
        let ip: usize = if first_c == '-' {
            self.current
        } else {
            self.start
        };
        proof {
            assert(ip == ip_s);
            if first_c != '-' {
                assert(digit_run(s, i) == 1 + digit_run(s, i + 1));
            }
        }
        self.consume_digits();
        proof {
            assert(self.current == int_end_s);
        }
        let int_n: usize = self.current - ip;
        let first_digit_zero = if first_c == '-' {
            int_n > 0 && self.buffer.as_str().get_char(ip) == '0'
        } else {
            first_c == '0'
        };
        let int_ok = int_n > 0 && !(int_n > 1 && first_digit_zero);
        if !int_ok {
            self.report_error(LexicalErrorKind::MalformedNumber);
        }
        proof {
            assert(int_ok == sh.int_ok);
        }

        // the fraction
        let ghost frac_end_s: int = if int_end_s < s.len() && s[int_end_s] == '.' {
            int_end_s + 1 + digit_run(s, int_end_s + 1)
        } else {
            int_end_s
        };
        if self.peek() == '.' {
            self.advance();
            let fs = self.current;
            self.consume_digits();
            if self.current == fs {
                self.report_error(LexicalErrorKind::MalformedNumber);
            }
        }
        proof {
            assert(self.current == frac_end_s);
        }

        // the exponent
        let ec = self.peek();
        if ec == 'e' || ec == 'E' {
            self.advance();
            let pc = self.peek();
            if pc == '+' || pc == '-' {
                self.advance();
            }
            let es = self.current;
            self.consume_digits();
            if self.current == es {
                self.report_error(LexicalErrorKind::MalformedNumber);
            }
        }
        proof {
            assert(self.current == sh.end);
        }
        let lex = self.buffer.as_str().substring_char(self.start, self.current).to_owned();
        self.add_token(TokenKind::Num(lex));
        proof {
            let st = scan_number_step(s, i, old(self).line);
            assert(lex@ =~= s.subrange(i, sh.end));
            assert(self.tokens.deep_view() =~= old(self).tokens.deep_view() + st.toks);
            assert(self.errors@ =~= old(self).errors@ + st.errs);
        }
    }

    /// Scans one lexeme from the reading position, which the caller has
    /// aligned with `start`: skips one whitespace character, bumps the line
    /// counter at a newline, or produces the token of the character class
    /// found there, recording the lexical faults the lexeme shows.
    pub fn scan_token(&mut self)
        requires
            old(self).wf(),
            old(self).start == old(self).current,
            old(self).current < old(self).buffer@.len(),
        ensures
            final(self).wf(),
            final(self).buffer == old(self).buffer,
            final(self).start == old(self).start,
            ({
                let st = scan_step(old(self).buffer@, old(self).current as int, old(self).line);
                &&& final(self).current == st.next
                &&& final(self).line == st.line
                &&& final(self).tokens.deep_view() == old(self).tokens.deep_view() + st.toks
                &&& final(self).errors@ == old(self).errors@ + st.errs
            }),
    {
        let ghost s = old(self).buffer@;
        let ghost i = old(self).current as int;
        let ghost st = scan_step(s, i, old(self).line);
        let c = self.advance();
        match c {
            ' ' | '\r' | '\t' => {
                proof {
                    assert(self.tokens.deep_view() =~= old(self).tokens.deep_view() + st.toks);
                    assert(self.errors@ =~= old(self).errors@ + st.errs);
                }
            },
            '\n' => {
                self.line = if self.line < usize::MAX {
                    self.line + 1
                } else {
                    self.line
                };
                proof {
                    assert(self.tokens.deep_view() =~= old(self).tokens.deep_view() + st.toks);
                    assert(self.errors@ =~= old(self).errors@ + st.errs);
                }
            },
            '[' => {
                self.add_token(TokenKind::LeftSquaredBrace);
                proof {
                    assert(self.tokens.deep_view() =~= old(self).tokens.deep_view() + st.toks);
                    assert(self.errors@ =~= old(self).errors@ + st.errs);
                }
            },
            ']' => {
                self.add_token(TokenKind::RightSquaredBrace);
                proof {
                    assert(self.tokens.deep_view() =~= old(self).tokens.deep_view() + st.toks);
                    assert(self.errors@ =~= old(self).errors@ + st.errs);
                }
            },
            '{' => {
                self.add_token(TokenKind::LeftCurlyBrace);
                proof {
                    assert(self.tokens.deep_view() =~= old(self).tokens.deep_view() + st.toks);
                    assert(self.errors@ =~= old(self).errors@ + st.errs);
                }
            },
            '}' => {
                self.add_token(TokenKind::RightCurlyBrace);
                proof {
                    assert(self.tokens.deep_view() =~= old(self).tokens.deep_view() + st.toks);
                    assert(self.errors@ =~= old(self).errors@ + st.errs);
                }
            },
            ',' => {
                self.add_token(TokenKind::Comma);
                proof {
                    assert(self.tokens.deep_view() =~= old(self).tokens.deep_view() + st.toks);
                    assert(self.errors@ =~= old(self).errors@ + st.errs);
                }
            },
            ':' => {
                self.add_token(TokenKind::Colon);
                proof {
                    assert(self.tokens.deep_view() =~= old(self).tokens.deep_view() + st.toks);
                    assert(self.errors@ =~= old(self).errors@ + st.errs);
                }
            },
            '"' => {
                self.add_string_token();
            },
            '-' | '0' | '1' | '2' | '3' | '4' | '5' | '6' | '7' | '8' | '9' => {
                self.add_number_token(c);
            },
            't' => {
                if !self.try_match_str("rue") {
                    self.report_error(LexicalErrorKind::MalformedKeyword);
                }
                self.add_token(TokenKind::True);
                proof {
                    reveal_strlit("rue");
                    assert("rue"@ =~= seq!['r', 'u', 'e']);
                    assert(self.tokens.deep_view() =~= old(self).tokens.deep_view() + st.toks);
                    assert(self.errors@ =~= old(self).errors@ + st.errs);
                }
            },
            'f' => {
                if !self.try_match_str("alse") {
                    self.report_error(LexicalErrorKind::MalformedKeyword);
                }
                self.add_token(TokenKind::False);
                proof {
                    reveal_strlit("alse");
                    assert("alse"@ =~= seq!['a', 'l', 's', 'e']);
                    assert(self.tokens.deep_view() =~= old(self).tokens.deep_view() + st.toks);
                    assert(self.errors@ =~= old(self).errors@ + st.errs);
                }
            },
            'n' => {
                if !self.try_match_str("ull") {
                    self.report_error(LexicalErrorKind::MalformedKeyword);
                }
                self.add_token(TokenKind::Null);
                proof {
                    reveal_strlit("ull");
                    assert("ull"@ =~= seq!['u', 'l', 'l']);
                    assert(self.tokens.deep_view() =~= old(self).tokens.deep_view() + st.toks);
                    assert(self.errors@ =~= old(self).errors@ + st.errs);
                }
            },
            _ => {
                self.report_error(LexicalErrorKind::UnexpectedCharacter);
                proof {
                    assert(self.tokens.deep_view() =~= old(self).tokens.deep_view() + st.toks);
                    assert(self.errors@ =~= old(self).errors@ + st.errs);
                }
            },
        }
    }

    /// Runs the scan over the whole buffer, lexeme by lexeme to the end of
    /// input, then appends the end-of-input token. The tokens and the
    /// faults are exactly those of the mathematical scan of the buffer from
    /// its first character on line 1; the scan never stops early.
    #[verifier::loop_isolation(false)]
    pub fn scan_tokens(&mut self)
        requires
            old(self).wf(),
            old(self).current == 0,
            old(self).line == 1,
            old(self).tokens@.len() == 0,
            old(self).errors@.len() == 0,
        ensures
            final(self).wf(),
            final(self).buffer == old(self).buffer,
            final(self).tokens.deep_view() == spec_tokens(old(self).buffer@),
            final(self).errors@ == spec_lex_errors(old(self).buffer@),
    {
        let ghost s = old(self).buffer@;
        proof {
            assert(self.tokens.deep_view() =~= Seq::<SpecToken>::empty());
            assert(Seq::<SpecToken>::empty() + spec_scan(s, 0, 1).toks =~= spec_scan(
                s,
                0,
                1,
            ).toks);
            assert(Seq::<LexicalError>::empty() + spec_scan(s, 0, 1).errs =~= spec_scan(
                s,
                0,
                1,
            ).errs);
        }
        while !self.is_at_end()
            invariant
                self.wf(),
                self.buffer == old(self).buffer,
                spec_scan(s, 0, 1).toks == self.tokens.deep_view() + spec_scan(
                    s,
                    self.current as int,
                    self.line,
                ).toks,
                spec_scan(s, 0, 1).errs == self.errors@ + spec_scan(
                    s,
                    self.current as int,
                    self.line,
                ).errs,
            decreases s.len() - self.current,
        {
            self.start = self.current;
            let ghost pre = *self;
            self.scan_token();
            proof {
                let st = scan_step(s, pre.current as int, pre.line);
                lemma_scan_step_bounds(s, pre.current as int, pre.line);
                assert(spec_scan(s, pre.current as int, pre.line).toks =~= st.toks + spec_scan(
                    s,
                    st.next,
                    st.line,
                ).toks);
                assert(spec_scan(s, pre.current as int, pre.line).errs =~= st.errs + spec_scan(
                    s,
                    st.next,
                    st.line,
                ).errs);
                assert(spec_scan(s, 0, 1).toks =~= self.tokens.deep_view() + spec_scan(
                    s,
                    self.current as int,
                    self.line,
                ).toks);
                assert(spec_scan(s, 0, 1).errs =~= self.errors@ + spec_scan(
                    s,
                    self.current as int,
                    self.line,
                ).errs);
            }
        }
        self.add_token(TokenKind::Eof);
        proof {
            assert(self.tokens.deep_view() =~= spec_tokens(s));
            assert(self.errors@ =~= spec_lex_errors(s));
        }
    }
}

} // verus!
