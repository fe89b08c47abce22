use vstd::prelude::*;
use crate::errors::{ParseError, ParseErrorKind};
use crate::token::{Token, TokenKind, SpecToken, SpecTokenKind};
use crate::value::{
    Value, SpecValue, view_value, view_items, view_members, lemma_view_members,
};

verus! {

/// What a parsing production did: the value it built, if any, the position
/// of the first token it did not consume, and the faults it recorded, in
/// order. A missing value always comes with at least one fault; a value may
/// come with faults too (a missing colon is recorded and parsing goes on),
/// and then the whole parse still counts as failed.
#[verifier::ext_equal]
pub struct ParseOut {
    pub val: Option<SpecValue>,
    pub next: int,
    pub errs: Seq<ParseError>,
}

/// What parsing one object member did: the key and value, the line of the
/// key token (0 when there was none), the next position, and the faults.
#[verifier::ext_equal]
pub struct MemberOut {
    pub res: Option<(Seq<char>, SpecValue)>,
    pub key_line: usize,
    pub next: int,
    pub errs: Seq<ParseError>,
}

/// Parses one value at `pos`: a string, number or keyword token becomes the
/// leaf it denotes and is consumed; an opening brace hands over to the
/// object or array production; any other token is a fault and nothing is
/// consumed. Past the end of the sequence the fault is an unexpected end of
/// input, reported without a line.
pub open spec fn spec_parse_value(toks: Seq<SpecToken>, pos: int) -> ParseOut
    decreases toks.len() - pos, 3int,
{
    if pos < 0 || pos >= toks.len() {
        ParseOut {
            val: None,
            next: pos,
            errs: seq![ParseError { kind: ParseErrorKind::UnexpectedEof, line: 0 }],
        }
    } else {
        match toks[pos].kind {
            SpecTokenKind::Str(sv) => ParseOut {
                val: Some(SpecValue::Str(sv)),
                next: pos + 1,
                errs: Seq::empty(),
            },
            SpecTokenKind::Num(nv) => ParseOut {
                val: Some(SpecValue::Num(nv)),
                next: pos + 1,
                errs: Seq::empty(),
            },
            SpecTokenKind::True => ParseOut {
                val: Some(SpecValue::Bool(true)),
                next: pos + 1,
                errs: Seq::empty(),
            },
            SpecTokenKind::False => ParseOut {
                val: Some(SpecValue::Bool(false)),
                next: pos + 1,
                errs: Seq::empty(),
            },
            SpecTokenKind::Null => ParseOut {
                val: Some(SpecValue::Null),
                next: pos + 1,
                errs: Seq::empty(),
            },
            SpecTokenKind::LeftCurlyBrace => spec_parse_object(toks, pos),
            SpecTokenKind::LeftSquaredBrace => spec_parse_array(toks, pos),
            _ => ParseOut {
                val: None,
                next: pos,
                errs: seq![
                    ParseError {
                        kind: if toks[pos].kind is Eof {
                            ParseErrorKind::UnexpectedEof
                        } else {
                            ParseErrorKind::UnexpectedToken
                        },
                        line: toks[pos].line,
                    },
                ],
            },
        }
    }
}

/// Parses an object at `pos`: the opening curly brace, then the members.
pub open spec fn spec_parse_object(toks: Seq<SpecToken>, pos: int) -> ParseOut
    decreases toks.len() - pos, 2int,
{
    if pos < 0 || pos >= toks.len() {
        ParseOut {
            val: None,
            next: pos,
            errs: seq![ParseError { kind: ParseErrorKind::UnexpectedEof, line: 0 }],
        }
    } else if !(toks[pos].kind is LeftCurlyBrace) {
        ParseOut {
            val: None,
            next: pos,
            errs: seq![
                ParseError { kind: ParseErrorKind::UnexpectedToken, line: toks[pos].line },
            ],
        }
    } else {
        spec_parse_obj_items(toks, pos + 1, Seq::empty(), false)
    }
}

/// Parses the members of an object from `pos` onward, `acc` holding the
/// members already read and `prev` saying whether there is one. A closing
/// curly brace ends the object; members after the first must be preceded by
/// a comma, and a comma directly before the closing brace is a fault, since
/// a member is then required and its key is missing. A member whose key
/// equals an earlier member's key is the one semantic fault and ends the
/// parse; members are otherwise kept in the order they were read.
pub open spec fn spec_parse_obj_items(
    toks: Seq<SpecToken>,
    pos: int,
    acc: Seq<(Seq<char>, SpecValue)>,
    prev: bool,
) -> ParseOut
    decreases toks.len() - pos, 4int,
{
    if pos < 0 || pos >= toks.len() {
        ParseOut {
            val: None,
            next: pos,
            errs: seq![ParseError { kind: ParseErrorKind::UnexpectedEof, line: 0 }],
        }
    } else if toks[pos].kind is RightCurlyBrace {
        ParseOut { val: Some(SpecValue::Obj(acc)), next: pos + 1, errs: Seq::empty() }
    } else if prev && !(toks[pos].kind is Comma) {
        ParseOut {
            val: None,
            next: pos,
            errs: seq![
                ParseError { kind: ParseErrorKind::MissingComma, line: toks[pos].line },
            ],
        }
    } else {
        let mpos = if prev {
            pos + 1
        } else {
            pos
        };
        let m = spec_parse_member(toks, mpos);
        match m.res {
            None => ParseOut { val: None, next: m.next, errs: m.errs },
            Some(kv) => {
                if exists|t: int| 0 <= t < acc.len() && acc[t].0 == kv.0 {
                    ParseOut {
                        val: None,
                        next: m.next,
                        errs: m.errs + seq![
                            ParseError { kind: ParseErrorKind::DuplicateKey, line: m.key_line },
                        ],
                    }
                } else {
                    let adv = if mpos + 1 <= m.next && m.next <= toks.len() {
                        m.next
                    } else if mpos + 1 <= toks.len() {
                        mpos + 1
                    } else {
                        toks.len() as int
                    };
                    let rest = spec_parse_obj_items(toks, adv, acc.push(kv), true);
                    ParseOut { val: rest.val, next: rest.next, errs: m.errs + rest.errs }
                }
            },
        }
    }
}

/// Parses one object member at `pos`: a string key, a colon, a value. A
/// missing colon is recorded as a fault but parsing continues into the
/// value, which the member must still yield; the member then carries both
/// that fault and the value.
pub open spec fn spec_parse_member(toks: Seq<SpecToken>, pos: int) -> MemberOut
    decreases toks.len() - pos, 1int,
{
    if pos < 0 || pos >= toks.len() {
        MemberOut {
            res: None,
            key_line: 0,
            next: pos,
            errs: seq![ParseError { kind: ParseErrorKind::UnexpectedEof, line: 0 }],
        }
    } else {
        match toks[pos].kind {
            SpecTokenKind::Str(k) => {
                let kl = toks[pos].line;
                if pos + 1 >= toks.len() {
                    MemberOut {
                        res: None,
                        key_line: kl,
                        next: pos + 1,
                        errs: seq![
                            ParseError { kind: ParseErrorKind::UnexpectedEof, line: 0 },
                        ],
                    }
                } else {
                    let has_colon = toks[pos + 1].kind is Colon;
                    let vpos = if has_colon {
                        pos + 2
                    } else {
                        pos + 1
                    };
                    let colon_errs: Seq<ParseError> = if has_colon {
                        Seq::empty()
                    } else {
                        seq![
                            ParseError {
                                kind: ParseErrorKind::MissingColon,
                                line: toks[pos + 1].line,
                            },
                        ]
                    };
                    let v = spec_parse_value(toks, vpos);
                    match v.val {
                        None => MemberOut {
                            res: None,
                            key_line: kl,
                            next: v.next,
                            errs: colon_errs + v.errs,
                        },
                        Some(val) => MemberOut {
                            res: Some((k, val)),
                            key_line: kl,
                            next: v.next,
                            errs: colon_errs + v.errs,
                        },
                    }
                }
            },
            _ => MemberOut {
                res: None,
                key_line: 0,
                next: pos,
                errs: seq![
                    ParseError {
                        kind: if toks[pos].kind is Eof {
                            ParseErrorKind::UnexpectedEof
                        } else {
                            ParseErrorKind::ExpectedKey
                        },
                        line: toks[pos].line,
                    },
                ],
            },
        }
    }
}

/// Parses an array at `pos`: the opening square brace, then the elements.
pub open spec fn spec_parse_array(toks: Seq<SpecToken>, pos: int) -> ParseOut
    decreases toks.len() - pos, 2int,
{
    if pos < 0 || pos >= toks.len() {
        ParseOut {
            val: None,
            next: pos,
            errs: seq![ParseError { kind: ParseErrorKind::UnexpectedEof, line: 0 }],
        }
    } else if !(toks[pos].kind is LeftSquaredBrace) {
        ParseOut {
            val: None,
            next: pos,
            errs: seq![
                ParseError { kind: ParseErrorKind::UnexpectedToken, line: toks[pos].line },
            ],
        }
    } else {
        spec_parse_arr_items(toks, pos + 1, Seq::empty(), false)
    }
}

/// Parses the elements of an array from `pos` onward, `acc` holding the
/// elements already read and `prev` saying whether there is one. A closing
/// square brace ends the array; elements after the first must be preceded
/// by a comma, and a comma directly before the closing brace is a fault,
/// since an element is then required; elements keep their order.
pub open spec fn spec_parse_arr_items(
    toks: Seq<SpecToken>,
    pos: int,
    acc: Seq<SpecValue>,
    prev: bool,
) -> ParseOut
    decreases toks.len() - pos, 4int,
{
    if pos < 0 || pos >= toks.len() {
        ParseOut {
            val: None,
            next: pos,
            errs: seq![ParseError { kind: ParseErrorKind::UnexpectedEof, line: 0 }],
        }
    } else if toks[pos].kind is RightSquaredBrace {
        ParseOut { val: Some(SpecValue::Arr(acc)), next: pos + 1, errs: Seq::empty() }
    } else if prev && !(toks[pos].kind is Comma) {
        ParseOut {
            val: None,
            next: pos,
            errs: seq![
                ParseError { kind: ParseErrorKind::MissingComma, line: toks[pos].line },
            ],
        }
    } else {
        let epos = if prev {
            pos + 1
        } else {
            pos
        };
        let v = spec_parse_value(toks, epos);
        match v.val {
            None => ParseOut { val: None, next: v.next, errs: v.errs },
            Some(x) => {
                let adv = if epos + 1 <= v.next && v.next <= toks.len() {
                    v.next
                } else if epos + 1 <= toks.len() {
                    epos + 1
                } else {
                    toks.len() as int
                };
                let rest = spec_parse_arr_items(toks, adv, acc.push(x), true);
                ParseOut { val: rest.val, next: rest.next, errs: v.errs + rest.errs }
            },
        }
    }
}

/// Parses a whole document: one value from the first token, after which the
/// next token must be the end-of-input token; any other remaining token is
/// trailing content and fails the parse.
pub open spec fn spec_parse_tokens(toks: Seq<SpecToken>) -> ParseOut {
    let out = spec_parse_value(toks, 0);
    let eof_ok = 0 <= out.next < toks.len() && toks[out.next].kind is Eof;
    if eof_ok {
        out
    } else {
        ParseOut {
            val: None,
            next: out.next,
            errs: out.errs + seq![
                ParseError {
                    kind: ParseErrorKind::TrailingContent,
                    line: if 0 <= out.next < toks.len() {
                        toks[out.next].line
                    } else {
                        0
                    },
                },
            ],
        }
    }
}

/// A copy of a token kind whose image equals the original's.
fn clone_token_kind(kind: &TokenKind) -> (r: TokenKind)
    ensures
        r@ == kind@,
{
    match kind {
        TokenKind::LeftSquaredBrace => TokenKind::LeftSquaredBrace,
        TokenKind::RightSquaredBrace => TokenKind::RightSquaredBrace,
        TokenKind::LeftCurlyBrace => TokenKind::LeftCurlyBrace,
        TokenKind::RightCurlyBrace => TokenKind::RightCurlyBrace,
        TokenKind::Comma => TokenKind::Comma,
        TokenKind::Colon => TokenKind::Colon,
        TokenKind::Str(s) => TokenKind::Str(s.clone()),
        TokenKind::Num(s) => TokenKind::Num(s.clone()),
        TokenKind::True => TokenKind::True,
        TokenKind::False => TokenKind::False,
        TokenKind::Null => TokenKind::Null,
        TokenKind::Eof => TokenKind::Eof,
    }
}

/// Whether two token kinds have the same image: the same variant, and for
/// string and number tokens the same payload.
fn kind_matches(a: &TokenKind, b: &TokenKind) -> (r: bool)
    ensures
        r == (a@ == b@),
{
    match a {
        TokenKind::LeftSquaredBrace => match b {
            TokenKind::LeftSquaredBrace => true,
            _ => false,
        },
        TokenKind::RightSquaredBrace => match b {
            TokenKind::RightSquaredBrace => true,
            _ => false,
        },
        TokenKind::LeftCurlyBrace => match b {
            TokenKind::LeftCurlyBrace => true,
            _ => false,
        },
        TokenKind::RightCurlyBrace => match b {
            TokenKind::RightCurlyBrace => true,
            _ => false,
        },
        TokenKind::Comma => match b {
            TokenKind::Comma => true,
            _ => false,
        },
        TokenKind::Colon => match b {
            TokenKind::Colon => true,
            _ => false,
        },
        TokenKind::Str(x) => match b {
            TokenKind::Str(y) => *x == *y,
            _ => false,
        },
        TokenKind::Num(x) => match b {
            TokenKind::Num(y) => *x == *y,
            _ => false,
        },
        TokenKind::True => match b {
            TokenKind::True => true,
            _ => false,
        },
        TokenKind::False => match b {
            TokenKind::False => true,
            _ => false,
        },
        TokenKind::Null => match b {
            TokenKind::Null => true,
            _ => false,
        },
        TokenKind::Eof => match b {
            TokenKind::Eof => true,
            _ => false,
        },
    }
}

/// Whether some member of `members` already has `key` as its key.
#[verifier::loop_isolation(false)]
fn contains_key(members: &Vec<(String, Value)>, key: &String) -> (r: bool)
    ensures
        r == (exists|t: int| 0 <= t < members@.len() && members@[t].0@ == key@),
{
    let n = members.len();
    let mut j: usize = 0;
    while j < n
        invariant
            j <= n,
            forall|t: int| 0 <= t < j ==> members@[t].0@ != key@,
        decreases n - j,
    {
        let m = &members[j];
        if m.0 == *key {
            return true;
        }
        j = j + 1;
    }
    false
}

/// The recursive-descent parser: consumes an owned token sequence left to
/// right, builds the value tree bottom-up, and stops at the first syntax or
/// semantic fault, with one exception: a missing colon between a key and
/// its value is recorded and parsing continues into the value.
pub struct Parser {
    pub tokens: Vec<Token>,
    pub current: usize,
    pub errors: Vec<ParseError>,
}

impl Parser {
    /// The reading position never runs past the end of the token sequence.
    pub open spec fn wf(self) -> bool {
        self.current <= self.tokens@.len()
    }

    /// The image of the token sequence.
    pub open spec fn toks(self) -> Seq<SpecToken> {
        self.tokens.deep_view()
    }

    /// A fresh parser over the given tokens, at the first one, with no
    /// faults yet.
    pub fn new(tokens: Vec<Token>) -> (p: Parser)
        ensures
            p.tokens == tokens,
            p.current == 0,
            p.errors@.len() == 0,
            p.wf(),
    {
        Parser { tokens, current: 0, errors: Vec::new() }
    }

    /// Whether every token has been consumed.
    pub fn is_at_end(&self) -> (r: bool)
        ensures
            r == (self.current >= self.tokens@.len()),
    {
        self.current >= self.tokens.len()
    }

    /// The token at the reading position, which must exist.
    pub fn peek(&self) -> (t: &Token)
        requires
            self.current < self.tokens@.len(),
        ensures
            *t == self.tokens@[self.current as int],
    {
        &self.tokens[self.current]
    }

    /// Moves past the token at the reading position.
    pub fn advance(&mut self)
        requires
            old(self).wf(),
            old(self).current < old(self).tokens@.len(),
        ensures
            final(self).wf(),
            final(self).current == old(self).current + 1,
            final(self).tokens == old(self).tokens,
            final(self).errors == old(self).errors,
    {
        // learns that the token count fits the machine's word
        let _n = self.tokens.len();
        self.current = self.current + 1;
    }

    /// Consumes the token at the reading position exactly when its kind's
    /// image equals `expected`'s, and says whether it did.
    pub fn try_match(&mut self, expected: TokenKind) -> (r: bool)
        requires
            old(self).wf(),
        ensures
            final(self).wf(),
            final(self).tokens == old(self).tokens,
            final(self).errors == old(self).errors,
            r == (old(self).current < old(self).tokens@.len() && old(self).toks()[old(
                self,
            ).current as int].kind == expected@),
            final(self).current == if r {
                old(self).current + 1
            } else {
                old(self).current as int
            },
    {
        if self.is_at_end() {
            return false;
        }
        let m = kind_matches(&self.peek().kind, &expected);
        if !m {
            return false;
        }
        self.advance();
        true
    }

    /// Records a parse fault at the line of the offending token, which the
    /// caller has read off that token.
    pub fn report_error_with_token(&mut self, token_line: usize, kind: ParseErrorKind)
        ensures
            final(self).errors@ == old(self).errors@.push(
                (ParseError { kind: kind, line: token_line }),
            ),
            final(self).tokens == old(self).tokens,
            final(self).current == old(self).current,
    {
        self.errors.push(ParseError { kind, line: token_line });
    }

    /// Records a parse fault found where no token was left to name a line.
    pub fn report_error(&mut self, kind: ParseErrorKind)
        ensures
            final(self).errors@ == old(self).errors@.push((ParseError { kind: kind, line: 0 })),
            final(self).tokens == old(self).tokens,
            final(self).current == old(self).current,
    {
        self.errors.push(ParseError { kind, line: 0 });
    }

    /// Parses one value at the reading position, exactly as
    /// [`spec_parse_value`] says: the faults it records are appended to
    /// `errors` and the position moves to the first unconsumed token.
    pub fn parse_value(&mut self) -> (res: Option<Value>)
        requires
            old(self).wf(),
        ensures
            final(self).wf(),
            final(self).tokens == old(self).tokens,
            final(self).current >= old(self).current,
            res.is_some() ==> final(self).current > old(self).current,
            ({
                let out = spec_parse_value(old(self).toks(), old(self).current as int);
                &&& final(self).current == out.next
                &&& res.deep_view() == out.val
                &&& final(self).errors@ == old(self).errors@ + out.errs
            }),
        decreases self.tokens@.len() - self.current, 3int,
    {
        let ghost toks = old(self).toks();
        let ghost pos = old(self).current as int;
        let ghost out = spec_parse_value(toks, pos);
        if self.is_at_end() {
            self.report_error(ParseErrorKind::UnexpectedEof);
            proof {
                assert(self.errors@ =~= old(self).errors@ + out.errs);
            }
            return None;
        }
        let kind = clone_token_kind(&self.peek().kind);
        match kind {
            TokenKind::Str(sv) => {
                self.advance();
                let r = Some(Value::Str(sv));
                proof {
                    assert(r.deep_view() == out.val);
                    assert(self.errors@ =~= old(self).errors@ + out.errs);
                }
                r
            },
            TokenKind::Num(nv) => {
                self.advance();
                let r = Some(Value::Num(nv));
                proof {
                    assert(r.deep_view() == out.val);
                    assert(self.errors@ =~= old(self).errors@ + out.errs);
                }
                r
            },
            TokenKind::True => {
                self.advance();
                proof {
                    assert(self.errors@ =~= old(self).errors@ + out.errs);
                }
                Some(Value::Bool(true))
            },
            TokenKind::False => {
                self.advance();
                proof {
                    assert(self.errors@ =~= old(self).errors@ + out.errs);
                }
                Some(Value::Bool(false))
            },
            TokenKind::Null => {
                self.advance();
                proof {
                    assert(self.errors@ =~= old(self).errors@ + out.errs);
                }
                Some(Value::Null)
            },
            TokenKind::LeftCurlyBrace => self.parse_object(),
            TokenKind::LeftSquaredBrace => self.parse_array(),
            _ => {
                let line = self.peek().line;
                let fault = if matches!(kind, TokenKind::Eof) {
                    ParseErrorKind::UnexpectedEof
                } else {
                    ParseErrorKind::UnexpectedToken
                };
                self.report_error_with_token(line, fault);
                proof {
                    assert(self.errors@ =~= old(self).errors@ + out.errs);
                }
                None
            },
        }
    }

    /// Parses an object at the reading position, exactly as
    /// [`spec_parse_object`] says: members in the order read, a comma
    /// between members, no comma before the closing brace, and a duplicate
    /// key fails the parse with the key token's line.
    #[verifier::loop_isolation(false)]
    #[verifier::rlimit(80)]
    pub fn parse_object(&mut self) -> (res: Option<Value>)
        requires
            old(self).wf(),
        ensures
            final(self).wf(),
            final(self).tokens == old(self).tokens,
            final(self).current >= old(self).current,
            res.is_some() ==> final(self).current > old(self).current,
            ({
                let out = spec_parse_object(old(self).toks(), old(self).current as int);
                &&& final(self).current == out.next
                &&& res.deep_view() == out.val
                &&& final(self).errors@ == old(self).errors@ + out.errs
            }),
        decreases self.tokens@.len() - self.current, 2int,
    {
        let ghost toks = old(self).toks();
        let ghost pos = old(self).current as int;
        if self.is_at_end() {
            self.report_error(ParseErrorKind::UnexpectedEof);
            proof {
                assert(self.errors@ =~= old(self).errors@ + spec_parse_object(toks, pos).errs);
            }
            return None;
        }
        if !self.try_match(TokenKind::LeftCurlyBrace) {
            let line = self.peek().line;
            self.report_error_with_token(line, ParseErrorKind::UnexpectedToken);
            proof {
                assert(self.errors@ =~= old(self).errors@ + spec_parse_object(toks, pos).errs);
            }
            return None;
        }
        let mut result_obj: Vec<(String, Value)> = Vec::new();
        let mut previous_match_is_member = false;
        let ghost mut acc_errs: Seq<ParseError> = Seq::empty();
        proof {
            assert(self.errors@ =~= old(self).errors@ + acc_errs);
            assert(view_members(result_obj@) =~= Seq::<(Seq<char>, SpecValue)>::empty());
            let top = spec_parse_obj_items(toks, pos + 1, Seq::empty(), false);
            assert(top.errs =~= acc_errs + top.errs);
        }
        loop
            invariant
                self.wf(),
                self.tokens == old(self).tokens,
                pos + 1 <= self.current,
                self.errors@ == old(self).errors@ + acc_errs,
                ({
                    let top = spec_parse_obj_items(toks, pos + 1, Seq::empty(), false);
                    let cur = spec_parse_obj_items(
                        toks,
                        self.current as int,
                        view_members(result_obj@),
                        previous_match_is_member,
                    );
                    &&& top.val == cur.val
                    &&& top.next == cur.next
                    &&& top.errs == acc_errs + cur.errs
                }),
            decreases self.tokens@.len() - self.current,
        {
            let ghost it_cur = self.current as int;
            let ghost it_acc = view_members(result_obj@);
            let ghost it_prev = previous_match_is_member;
            let ghost cur_out = spec_parse_obj_items(toks, it_cur, it_acc, it_prev);
            if self.is_at_end() {
                self.report_error(ParseErrorKind::UnexpectedEof);
                proof {
                    assert(self.errors@ =~= old(self).errors@ + spec_parse_object(
                        toks,
                        pos,
                    ).errs);
                }
                return None;
            }
            let next_line = self.peek().line;
            if self.try_match(TokenKind::RightCurlyBrace) {
                let ghost members_v = view_members(result_obj@);
                let r = Some(Value::Obj(result_obj));
                proof {
                    assert(r.deep_view() == Some(SpecValue::Obj(members_v)));
                    assert(r.deep_view() == spec_parse_object(toks, pos).val);
                    assert(self.errors@ =~= old(self).errors@ + spec_parse_object(
                        toks,
                        pos,
                    ).errs);
                }
                return r;
            }
            if previous_match_is_member {
                if !self.try_match(TokenKind::Comma) {
                    self.report_error_with_token(next_line, ParseErrorKind::MissingComma);
                    proof {
                        assert(self.errors@ =~= old(self).errors@ + spec_parse_object(
                            toks,
                            pos,
                        ).errs);
                    }
                    return None;
                }
            }
            let ghost mpos = self.current as int;
            let mpos_exec = self.current;
            let ghost m = spec_parse_member(toks, mpos);
            let maybe_member = self.parse_object_member();
            match maybe_member {
                None => {
                    proof {
                        assert(spec_parse_object(toks, pos).errs =~= acc_errs + m.errs);
                        assert(self.errors@ =~= old(self).errors@ + spec_parse_object(
                            toks,
                            pos,
                        ).errs);
                    }
                    return None;
                },
                Some(member) => {
                    proof {
                        assert(mpos < toks.len());
                        assert(m.res == Some((member.0@, view_value(member.1))));
                        assert(mpos + 1 <= m.next <= toks.len());
                    }
                    let is_dup = contains_key(&result_obj, &member.0);
                    proof {
                        lemma_view_members(result_obj@);
                        if is_dup {
                            let t = choose|t: int|
                                0 <= t < result_obj@.len() && result_obj@[t].0@ == member.0@;
                            assert(0 <= t < it_acc.len() && it_acc[t].0 == member.0@);
                        }
                        if exists|t: int| 0 <= t < it_acc.len() && it_acc[t].0 == member.0@ {
                            let t = choose|t: int|
                                0 <= t < it_acc.len() && it_acc[t].0 == member.0@;
                            assert(result_obj@[t].0@ == member.0@);
                        }
                        assert(is_dup == (exists|t: int|
                            0 <= t < it_acc.len() && it_acc[t].0 == member.0@));
                    }
                    if is_dup {
                        let kl = self.tokens[mpos_exec].line;
                        self.report_error_with_token(kl, ParseErrorKind::DuplicateKey);
                        proof {
                            assert(spec_parse_object(toks, pos).errs =~= acc_errs + m.errs
                                + seq![
                                (ParseError {
                                    kind: ParseErrorKind::DuplicateKey,
                                    line: m.key_line,
                                }),
                            ]);
                            assert(self.errors@ =~= old(self).errors@ + spec_parse_object(
                                toks,
                                pos,
                            ).errs);
                        }
                        return None;
                    }
                    let ghost prev_obj = result_obj@;
                    let ghost mem_v = (member.0@, view_value(member.1));
                    result_obj.push(member);
                    previous_match_is_member = true;
                    proof {
                        acc_errs = acc_errs + m.errs;
                        assert(result_obj@.drop_last() =~= prev_obj);
                        assert(view_members(result_obj@) =~= it_acc.push(mem_v));
                        assert(self.errors@ =~= old(self).errors@ + acc_errs);
                        let top = spec_parse_obj_items(toks, pos + 1, Seq::empty(), false);
                        let cur = spec_parse_obj_items(
                            toks,
                            self.current as int,
                            view_members(result_obj@),
                            previous_match_is_member,
                        );
                        assert(top.errs =~= acc_errs + cur.errs);
                    }
                },
            }
        }
    }

    /// Parses one object member at the reading position, exactly as
    /// [`spec_parse_member`] says: a string key, a colon, a value; a
    /// missing colon is recorded and parsing continues into the value.
    pub fn parse_object_member(&mut self) -> (res: Option<(String, Value)>)
        requires
            old(self).wf(),
        ensures
            final(self).wf(),
            final(self).tokens == old(self).tokens,
            final(self).current >= old(self).current,
            res.is_some() ==> final(self).current > old(self).current,
            ({
                let m = spec_parse_member(old(self).toks(), old(self).current as int);
                &&& final(self).current == m.next
                &&& res.deep_view() == m.res
                &&& final(self).errors@ == old(self).errors@ + m.errs
            }),
        decreases self.tokens@.len() - self.current, 1int,
    {
        let ghost toks = old(self).toks();
        let ghost pos = old(self).current as int;
        let ghost m = spec_parse_member(toks, pos);
        if self.is_at_end() {
            self.report_error(ParseErrorKind::UnexpectedEof);
            proof {
                assert(self.errors@ =~= old(self).errors@ + m.errs);
            }
            return None;
        }
        let kind = clone_token_kind(&self.peek().kind);
        let result_key: String;
        match kind {
            TokenKind::Str(sv) => {
                result_key = sv;
                self.advance();
            },
            _ => {
                let line = self.peek().line;
                let fault = if matches!(kind, TokenKind::Eof) {
                    ParseErrorKind::UnexpectedEof
                } else {
                    ParseErrorKind::ExpectedKey
                };
                self.report_error_with_token(line, fault);
                proof {
                    assert(self.errors@ =~= old(self).errors@ + m.errs);
                }
                return None;
            },
        }
        if self.is_at_end() {
            self.report_error(ParseErrorKind::UnexpectedEof);
            proof {
                assert(self.errors@ =~= old(self).errors@ + m.errs);
            }
            return None;
        }
        let ghost colon_errs: Seq<ParseError> = if toks[pos + 1].kind is Colon {
            Seq::empty()
        } else {
            seq![
                (ParseError { kind: ParseErrorKind::MissingColon, line: toks[pos + 1].line }),
            ]
        };
        if !self.try_match(TokenKind::Colon) {
            let line = self.peek().line;
            self.report_error_with_token(line, ParseErrorKind::MissingColon);
        }
        let ghost vpos = self.current as int;
        let ghost v = spec_parse_value(toks, vpos);
        let maybe_value = self.parse_value();
        match maybe_value {
            None => {
                proof {
                    assert(m.errs =~= colon_errs + v.errs);
                    assert(self.errors@ =~= old(self).errors@ + m.errs);
                }
                None
            },
            Some(val) => {
                let r = Some((result_key, val));
                proof {
                    assert(m.errs =~= colon_errs + v.errs);
                    assert(r.deep_view() == m.res);
                    assert(self.errors@ =~= old(self).errors@ + m.errs);
                }
                r
            },
        }
    }

    /// Parses an array at the reading position, exactly as
    /// [`spec_parse_array`] says: elements in the order read, a comma
    /// between elements and no comma before the closing brace.
    #[verifier::loop_isolation(false)]
    #[verifier::rlimit(80)]
    pub fn parse_array(&mut self) -> (res: Option<Value>)
        requires
            old(self).wf(),
        ensures
            final(self).wf(),
            final(self).tokens == old(self).tokens,
            final(self).current >= old(self).current,
            res.is_some() ==> final(self).current > old(self).current,
            ({
                let out = spec_parse_array(old(self).toks(), old(self).current as int);
                &&& final(self).current == out.next
                &&& res.deep_view() == out.val
                &&& final(self).errors@ == old(self).errors@ + out.errs
            }),
        decreases self.tokens@.len() - self.current, 2int,
    {
        let ghost toks = old(self).toks();
        let ghost pos = old(self).current as int;
        if self.is_at_end() {
            self.report_error(ParseErrorKind::UnexpectedEof);
            proof {
                assert(self.errors@ =~= old(self).errors@ + spec_parse_array(toks, pos).errs);
            }
            return None;
        }
        if !self.try_match(TokenKind::LeftSquaredBrace) {
            let line = self.peek().line;
            self.report_error_with_token(line, ParseErrorKind::UnexpectedToken);
            proof {
                assert(self.errors@ =~= old(self).errors@ + spec_parse_array(toks, pos).errs);
            }
            return None;
        }
        let mut result_arr: Vec<Value> = Vec::new();
        let mut previous_match_is_element = false;
        let ghost mut acc_errs: Seq<ParseError> = Seq::empty();
        proof {
            assert(self.errors@ =~= old(self).errors@ + acc_errs);
            assert(view_items(result_arr@) =~= Seq::<SpecValue>::empty());
            let top = spec_parse_arr_items(toks, pos + 1, Seq::empty(), false);
            assert(top.errs =~= acc_errs + top.errs);
        }
        loop
            invariant
                self.wf(),
                self.tokens == old(self).tokens,
                pos + 1 <= self.current,
                self.errors@ == old(self).errors@ + acc_errs,
                ({
                    let top = spec_parse_arr_items(toks, pos + 1, Seq::empty(), false);
                    let cur = spec_parse_arr_items(
                        toks,
                        self.current as int,
                        view_items(result_arr@),
                        previous_match_is_element,
                    );
                    &&& top.val == cur.val
                    &&& top.next == cur.next
                    &&& top.errs == acc_errs + cur.errs
                }),
            decreases self.tokens@.len() - self.current,
        {
            let ghost it_cur = self.current as int;
            let ghost it_acc = view_items(result_arr@);
            let ghost it_prev = previous_match_is_element;
            if self.is_at_end() {
                self.report_error(ParseErrorKind::UnexpectedEof);
                proof {
                    assert(self.errors@ =~= old(self).errors@ + spec_parse_array(
                        toks,
                        pos,
                    ).errs);
                }
                return None;
            }
            let next_line = self.peek().line;
            if self.try_match(TokenKind::RightSquaredBrace) {
                let ghost items_v = view_items(result_arr@);
                let r = Some(Value::Arr(result_arr));
                proof {
                    assert(r.deep_view() == Some(SpecValue::Arr(items_v)));
                    assert(r.deep_view() == spec_parse_array(toks, pos).val);
                    assert(self.errors@ =~= old(self).errors@ + spec_parse_array(
                        toks,
                        pos,
                    ).errs);
                }
                return r;
            }
            if previous_match_is_element {
                if !self.try_match(TokenKind::Comma) {
                    self.report_error_with_token(next_line, ParseErrorKind::MissingComma);
                    proof {
                        assert(self.errors@ =~= old(self).errors@ + spec_parse_array(
                            toks,
                            pos,
                        ).errs);
                    }
                    return None;
                }
            }
            let ghost epos = self.current as int;
            let ghost v = spec_parse_value(toks, epos);
            let maybe_element = self.parse_value();
            match maybe_element {
                None => {
                    proof {
                        assert(spec_parse_array(toks, pos).errs =~= acc_errs + v.errs);
                        assert(self.errors@ =~= old(self).errors@ + spec_parse_array(
                            toks,
                            pos,
                        ).errs);
                    }
                    return None;
                },
                Some(element) => {
                    proof {
                        assert(v.val == Some(view_value(element)));
                        assert(epos + 1 <= v.next <= toks.len());
                    }
                    let ghost prev_arr = result_arr@;
                    let ghost elem_v = view_value(element);
                    result_arr.push(element);
                    previous_match_is_element = true;
                    proof {
                        acc_errs = acc_errs + v.errs;
                        assert(result_arr@.drop_last() =~= prev_arr);
                        assert(view_items(result_arr@) =~= it_acc.push(elem_v));
                        assert(self.errors@ =~= old(self).errors@ + acc_errs);
                        let top = spec_parse_arr_items(toks, pos + 1, Seq::empty(), false);
                        let cur = spec_parse_arr_items(
                            toks,
                            self.current as int,
                            view_items(result_arr@),
                            previous_match_is_element,
                        );
                        assert(top.errs =~= acc_errs + cur.errs);
                    }
                },
            }
        }
    }

    /// Parses the whole token sequence as one document, exactly as
    /// [`spec_parse_tokens`] says: one value, then the end-of-input token;
    /// anything else after the value is trailing content.
    pub fn parse_tokens(&mut self) -> (res: Option<Value>)
        requires
            old(self).wf(),
            old(self).current == 0,
        ensures
            final(self).wf(),
            final(self).tokens == old(self).tokens,
            ({
                let out = spec_parse_tokens(old(self).toks());
                &&& final(self).current == out.next
                &&& res.deep_view() == out.val
                &&& final(self).errors@ == old(self).errors@ + out.errs
            }),
    {
        let ghost toks = old(self).toks();
        let ghost out = spec_parse_tokens(toks);
        let maybe_value = self.parse_value();
        if self.is_at_end() {
            self.report_error(ParseErrorKind::TrailingContent);
            proof {
                assert(self.errors@ =~= old(self).errors@ + out.errs);
            }
            return None;
        }
        let is_eof = matches!(&self.peek().kind, TokenKind::Eof);
        if !is_eof {
            let line = self.peek().line;
            self.report_error_with_token(line, ParseErrorKind::TrailingContent);
            proof {
                assert(self.errors@ =~= old(self).errors@ + out.errs);
            }
            return None;
        }
        maybe_value
    }
}

} // verus!
