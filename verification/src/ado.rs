//! The ADO.net connection string dialect: a semicolon-delimited list of
//! `key=value` pairs with quote- and brace-based escaping.

use vstd::prelude::*;

use crate::error::Error;
use crate::props::{self, Props};
use crate::text::{self, Location};

verus! {

// ---------------------------------------------------------------------------
// Tokens
// ---------------------------------------------------------------------------

/// The mathematical form of a token: escaped runs carry their resolved
/// content as a sequence of characters.
pub enum Tok {
    Semi,
    Eq,
    Atom(char),
    Escaped(Seq<char>),
    Newline,
    Whitespace,
    Eof,
}

/// The kind of token the lexer produced.
pub enum TokenKind {
    Semi,
    Eq,
    /// One raw character of an unquoted run.
    Atom(char),
    /// The fully-resolved content of a quoted or brace-delimited run.
    Escaped(Vec<char>),
    Newline,
    Whitespace,
    Eof,
}

impl View for TokenKind {
    type V = Tok;

    open spec fn view(&self) -> Tok {
        match self {
            TokenKind::Semi => Tok::Semi,
            TokenKind::Eq => Tok::Eq,
            TokenKind::Atom(c) => Tok::Atom(*c),
            TokenKind::Escaped(v) => Tok::Escaped(v@),
            TokenKind::Newline => Tok::Newline,
            TokenKind::Whitespace => Tok::Whitespace,
            TokenKind::Eof => Tok::Eof,
        }
    }
}

impl Clone for TokenKind {
    fn clone(&self) -> (r: TokenKind)
        ensures
            r@ == self@,
    {
        match self {
            TokenKind::Semi => TokenKind::Semi,
            TokenKind::Eq => TokenKind::Eq,
            TokenKind::Atom(c) => TokenKind::Atom(*c),
            TokenKind::Escaped(v) => {
                let w = v.clone();
                proof {
                    assert forall|j: int| 0 <= j < w@.len() implies w@[j] == v@[j] by {
                        assert(cloned::<char>(v@[j], w@[j]));
                    }
                    assert(w@ =~= v@);
                }
                TokenKind::Escaped(w)
            },
            TokenKind::Newline => TokenKind::Newline,
            TokenKind::Whitespace => TokenKind::Whitespace,
            TokenKind::Eof => TokenKind::Eof,
        }
    }
}

/// A token kind together with the column it started at.
pub struct Token {
    kind: TokenKind,
    loc: Location,
}

impl View for Token {
    type V = Tok;

    closed spec fn view(&self) -> Tok {
        self.kind@
    }
}

impl Clone for Token {
    fn clone(&self) -> (r: Token)
        ensures
            r@ == self@,
    {
        Token { kind: self.kind.clone(), loc: self.loc }
    }
}

impl Token {
    /// Create a new instance.
    pub fn new(kind: TokenKind, loc: Location) -> (t: Token)
        ensures
            t@ == kind@,
    {
        Token { kind, loc }
    }

    /// What kind of token is this?
    pub fn kind(&self) -> (k: &TokenKind)
        ensures
            k@ == self@,
    {
        &self.kind
    }
}

// ---------------------------------------------------------------------------
// Lexing faults
// ---------------------------------------------------------------------------

/// Everything that can make an ADO.net parse fail, paired with its exact
/// message by [`fault_msg`].
pub enum Fault {
    /// Input ended inside a double-quoted run.
    UnclosedDouble,
    /// Input ended inside a single-quoted run.
    UnclosedSingle,
    /// Input ended inside a brace-delimited run.
    UnclosedBrace,
    /// A non-ASCII character inside a double-quoted run.
    QuoteChar,
    /// A non-ASCII character inside a single-quoted or braced run.
    BadChar(char),
    /// A non-ASCII character in an unquoted position.
    TopChar(char),
    /// A pair did not start with a `;` separator.
    SemiExpected,
    /// A pair's key was empty.
    EmptyKey,
    /// A pair's key was not followed by `=`.
    EqExpected,
}

/// The message carried by the error each fault raises.
pub open spec fn fault_msg(f: Fault) -> Seq<char> {
    match f {
        Fault::UnclosedDouble => "unclosed double quote"@,
        Fault::UnclosedSingle => "unclosed single quote"@,
        Fault::UnclosedBrace => "unclosed escape literal"@,
        Fault::QuoteChar => "Invalid ado.net token"@,
        Fault::BadChar(c) => "Invalid ado.net token `"@ + seq![c] + "`"@,
        Fault::TopChar(c) => "Invalid character found: "@ + seq![c],
        Fault::SemiExpected => "Key-value pairs must be separated by a `;`"@,
        Fault::EmptyKey => "Key must not be empty"@,
        Fault::EqExpected => "key-value pairs must be joined by a `=`"@,
    }
}

// ---------------------------------------------------------------------------
// The lexer, specified
// ---------------------------------------------------------------------------

/// The lexer's state: scanning at the top level, inside a quoted run with
/// the quote character and the content so far, or inside a braced run.
pub enum Scan {
    Top,
    Quoted(char, Seq<char>),
    Braced(Seq<char>),
}

/// Prepend a token to a lexing result.
pub open spec fn cons_tok(t: Tok, r: Result<Seq<Tok>, Fault>) -> Result<Seq<Tok>, Fault> {
    match r {
        Ok(ts) => Ok(seq![t] + ts),
        Err(f) => Err(f),
    }
}

/// The token a single unquoted character lexes to, given that it is ASCII.
pub open spec fn char_tok(c: char) -> Tok {
    if c == ';' {
        Tok::Semi
    } else if c == '=' {
        Tok::Eq
    } else if c == '\n' {
        Tok::Newline
    } else if c == ' ' {
        Tok::Whitespace
    } else {
        Tok::Atom(c)
    }
}

/// The tokens of the remaining input `s`, scanned in state `m`. A quote
/// character opens a run closed by the same character; a doubled closing
/// quote is an embedded literal quote. A brace opens a run closed by the
/// next `}` with no doubling rule. Non-ASCII characters are faults
/// everywhere.
pub open spec fn lex_rec(s: Seq<char>, m: Scan) -> Result<Seq<Tok>, Fault>
    decreases s.len(), 1int,
{
    match m {
        Scan::Top => {
            if s.len() == 0 {
                Ok(Seq::empty())
            } else {
                let c = s[0];
                if c == '"' {
                    lex_rec(s.drop_first(), Scan::Quoted('"', Seq::empty()))
                } else if c == '\'' {
                    lex_rec(s.drop_first(), Scan::Quoted('\'', Seq::empty()))
                } else if c == '{' {
                    lex_rec(s.drop_first(), Scan::Braced(Seq::empty()))
                } else if text::is_ascii_char(c) {
                    cons_tok(char_tok(c), lex_rec(s.drop_first(), Scan::Top))
                } else {
                    Err(Fault::TopChar(c))
                }
            }
        },
        Scan::Quoted(q, acc) => {
            if s.len() == 0 {
                Err(if q == '"' {
                    Fault::UnclosedDouble
                } else {
                    Fault::UnclosedSingle
                })
            } else if s[0] == q {
                if s.len() >= 2 && s[1] == q {
                    lex_rec(s.skip(2), Scan::Quoted(q, acc.push(q)))
                } else {
                    cons_tok(Tok::Escaped(acc), lex_rec(s.drop_first(), Scan::Top))
                }
            } else if text::is_ascii_char(s[0]) {
                lex_rec(s.drop_first(), Scan::Quoted(q, acc.push(s[0])))
            } else {
                if q == '"' {
                    Err(Fault::QuoteChar)
                } else {
                    Err(Fault::BadChar(s[0]))
                }
            }
        },
        Scan::Braced(acc) => {
            if s.len() == 0 {
                Err(Fault::UnclosedBrace)
            } else if s[0] == '}' {
                cons_tok(Tok::Escaped(acc), lex_rec(s.drop_first(), Scan::Top))
            } else if text::is_ascii_char(s[0]) {
                lex_rec(s.drop_first(), Scan::Braced(acc.push(s[0])))
            } else {
                Err(Fault::BadChar(s[0]))
            }
        },
    }
}

/// The token sequence of a whole input, or the first lexing fault.
pub open spec fn lex(s: Seq<char>) -> Result<Seq<Tok>, Fault> {
    lex_rec(s, Scan::Top)
}

/// The views of a vector of tokens, in the same order.
pub open spec fn toks_of(v: Seq<Token>) -> Seq<Tok> {
    v.map_values(|t: Token| t@)
}

/// Tokens already emitted, joined with the result of lexing the rest.
pub open spec fn emit(ts: Seq<Tok>, r: Result<Seq<Tok>, Fault>) -> Result<Seq<Tok>, Fault> {
    match r {
        Ok(rest) => Ok(ts + rest),
        Err(f) => Err(f),
    }
}

/// Emitting a token then the rest is the same as consing it inside.
proof fn lemma_emit_cons(ts: Seq<Tok>, t: Tok, r: Result<Seq<Tok>, Fault>)
    ensures
        emit(ts, cons_tok(t, r)) == emit(ts.push(t), r),
{
    match r {
        Ok(rest) => {
            assert(ts + (seq![t] + rest) =~= ts.push(t) + rest);
        },
        Err(_) => {},
    }
}

// ---------------------------------------------------------------------------
// The lexer, executed
// ---------------------------------------------------------------------------

/// A reversed stack of tokens: the next token to consume sits at the end
/// of the vector.
pub struct Lexer {
    tokens: Vec<Token>,
}

impl Lexer {
    /// The tokens still in the stream, in consumption order.
    pub closed spec fn toks(&self) -> Seq<Tok> {
        toks_of(self.tokens@).reverse()
    }

    /// Parse a string into a sequence of tokens.
    pub fn tokenize(input: &str) -> (r: Result<Lexer, Error>)
        ensures
            (match lex(input@) {
                Ok(ts) => r matches Ok(lx) && lx.toks() == ts,
                Err(f) => r matches Err(e) && e@ == fault_msg(f),
            }),
    {
        let cs = text::str_chars(input);
        let n = cs.len();
        let mut tokens: Vec<Token> = Vec::new();
        let mut loc = Location::new();
        let mut i: usize = 0;
        proof {
            assert(cs@.skip(0) =~= cs@);
            assert(toks_of(tokens@) =~= Seq::<Tok>::empty());
        }
        while i < n
            invariant
                i <= n,
                n == cs@.len(),
                cs@ == input@,
                loc.column == i,
                lex(input@) == emit(toks_of(tokens@), lex_rec(cs@.skip(i as int), Scan::Top)),
            decreases n - i,
        {
            proof {
                text::lemma_skip_step(cs@, i as int);
            }
            let c = cs[i];
            if c == '"' || c == '\'' {
                match lex_quoted_run(&cs, i + 1, c) {
                    Ok((buf, end)) => {
                        proof {
                            lemma_emit_cons(
                                toks_of(tokens@),
                                Tok::Escaped(buf@),
                                lex_rec(cs@.skip(end as int), Scan::Top),
                            );
                        }
                        let tok = Token::new(TokenKind::Escaped(buf), loc);
                        let ghost tv = tokens@;
                        tokens.push(tok);
                        proof {
                            assert(toks_of(tv.push(tok)) =~= toks_of(tv).push(tok@));
                        }
                        loc.advance(end - i);
                        i = end;
                    },
                    Err(e) => {
                        return Err(e);
                    },
                }
            } else if c == '{' {
                match lex_braced_run(&cs, i + 1) {
                    Ok((buf, end)) => {
                        proof {
                            lemma_emit_cons(
                                toks_of(tokens@),
                                Tok::Escaped(buf@),
                                lex_rec(cs@.skip(end as int), Scan::Top),
                            );
                        }
                        let tok = Token::new(TokenKind::Escaped(buf), loc);
                        let ghost tv = tokens@;
                        tokens.push(tok);
                        proof {
                            assert(toks_of(tv.push(tok)) =~= toks_of(tv).push(tok@));
                        }
                        loc.advance(end - i);
                        i = end;
                    },
                    Err(e) => {
                        return Err(e);
                    },
                }
            } else if text::ascii_char(c) {
                let kind = if c == ';' {
                    TokenKind::Semi
                } else if c == '=' {
                    TokenKind::Eq
                } else if c == '\n' {
                    TokenKind::Newline
                } else if c == ' ' {
                    TokenKind::Whitespace
                } else {
                    TokenKind::Atom(c)
                };
                proof {
                    lemma_emit_cons(
                        toks_of(tokens@),
                        char_tok(c),
                        lex_rec(cs@.skip(i + 1), Scan::Top),
                    );
                }
                let tok = Token::new(kind, loc);
                let ghost tv = tokens@;
                tokens.push(tok);
                proof {
                    assert(toks_of(tv.push(tok)) =~= toks_of(tv).push(tok@));
                }
                loc.advance(1);
                i += 1;
            } else {
                let mut m = String::from_str("Invalid character found: ");
                text::push_char(&mut m, c);
                return Err(Error::new(m.as_str()));
            }
        }
        proof {
            assert(cs@.skip(n as int) =~= Seq::<char>::empty());
            assert(toks_of(tokens@) + Seq::<Tok>::empty() =~= toks_of(tokens@));
        }
        let ghost built = tokens@;
        let mut rev: Vec<Token> = Vec::new();
        proof {
            assert(tokens@ =~= built.take(tokens@.len() as int));
            assert(rev@ =~= built.skip(tokens@.len() as int).reverse());
        }
        while tokens.len() > 0
            invariant
                tokens@.len() <= built.len(),
                tokens@ =~= built.take(tokens@.len() as int),
                rev@ =~= built.skip(tokens@.len() as int).reverse(),
            decreases tokens@.len(),
        {
            let ghost m = tokens@.len() as int;
            let t = tokens.pop().unwrap();
            rev.push(t);
            proof {
                assert(tokens@ =~= built.take(m - 1));
                assert(rev@ =~= built.skip(m - 1).reverse());
            }
        }
        let lx = Lexer { tokens: rev };
        proof {
            assert(built.skip(0) =~= built);
            assert(rev@ =~= built.reverse());
            if built.len() > 0 {
                assert forall|k: int| 0 <= k < built.len() implies toks_of(rev@).reverse()[k]
                    == toks_of(built)[k] by {
                    assert(toks_of(rev@)[built.len() - 1 - k] == rev@[built.len() - 1 - k]@);
                    assert(rev@[built.len() - 1 - k] == built[k]);
                }
            }
            assert(lx.toks() =~= toks_of(built));
        }
        Ok(lx)
    }

    /// Get the next token from the queue; the end of input is reported as
    /// an end-of-input token.
    pub fn next(&mut self) -> (t: Token)
        ensures
            (if old(self).toks().len() > 0 {
                t@ == old(self).toks()[0] && final(self).toks() == old(self).toks().drop_first()
            } else {
                t@ == Tok::Eof && final(self).toks() == old(self).toks()
            }),
    {
        let ghost ts0 = old(self).toks();
        match self.tokens.pop() {
            Some(t) => {
                proof {
                    assert(toks_of(self.tokens@) =~= toks_of(old(self).tokens@).drop_last());
                    assert(toks_of(old(self).tokens@).drop_last().reverse() =~= ts0.drop_first());
                    assert(t@ == toks_of(old(self).tokens@).last());
                }
                t
            },
            None => {
                proof {
                    assert(self.tokens@ =~= old(self).tokens@);
                }
                Token::new(TokenKind::Eof, Location::new())
            },
        }
    }

    /// Peek at the next token in the queue without consuming it.
    pub fn peek(&self) -> (t: Token)
        ensures
            (if self.toks().len() > 0 {
                t@ == self.toks()[0]
            } else {
                t@ == Tok::Eof
            }),
    {
        let n = self.tokens.len();
        if n > 0 {
            let t = self.tokens[n - 1].clone();
            proof {
                assert(self.toks()[0] == toks_of(self.tokens@)[n - 1]);
            }
            t
        } else {
            Token::new(TokenKind::Eof, Location::new())
        }
    }
}

/// Scan the remainder of a quoted run that began with quote `q` at
/// `start - 1`; returns the resolved content and the index just past the
/// closing quote.
fn lex_quoted_run(cs: &Vec<char>, start: usize, q: char) -> (r: Result<(Vec<char>, usize), Error>)
    requires
        start <= cs@.len(),
        q == '"' || q == '\'',
    ensures
        (match r {
            Ok((buf, end)) => start < end <= cs@.len() && lex_rec(
                cs@.skip(start as int),
                Scan::Quoted(q, Seq::empty()),
            ) == cons_tok(Tok::Escaped(buf@), lex_rec(cs@.skip(end as int), Scan::Top)),
            Err(e) => lex_rec(cs@.skip(start as int), Scan::Quoted(q, Seq::empty())) matches Err(f)
                && e@ == fault_msg(f),
        }),
{
    let n = cs.len();
    let mut buf: Vec<char> = Vec::new();
    let mut j = start;
    proof {
        assert(buf@ =~= Seq::<char>::empty());
    }
    while j < n
        invariant
            start <= j <= n,
            n == cs@.len(),
            q == '"' || q == '\'',
            lex_rec(cs@.skip(start as int), Scan::Quoted(q, Seq::empty())) == lex_rec(
                cs@.skip(j as int),
                Scan::Quoted(q, buf@),
            ),
        decreases n - j,
    {
        proof {
            text::lemma_skip_step(cs@, j as int);
        }
        let d = cs[j];
        if d == q {
            if j + 1 < n && cs[j + 1] == q {
                proof {
                    text::lemma_skip_step(cs@, j + 1);
                    assert(cs@.skip(j as int).skip(2) =~= cs@.skip(j + 2));
                }
                buf.push(q);
                j += 2;
            } else {
                return Ok((buf, j + 1));
            }
        } else if text::ascii_char(d) {
            buf.push(d);
            j += 1;
        } else {
            if q == '"' {
                return Err(Error::new("Invalid ado.net token"));
            } else {
                let mut m = String::from_str("Invalid ado.net token `");
                text::push_char(&mut m, d);
                m.append("`");
                return Err(Error::new(m.as_str()));
            }
        }
    }
    proof {
        assert(cs@.skip(n as int) =~= Seq::<char>::empty());
    }
    if q == '"' {
        Err(Error::new("unclosed double quote"))
    } else {
        Err(Error::new("unclosed single quote"))
    }
}

/// Scan the remainder of a brace-delimited run that began at `start - 1`;
/// returns the content and the index just past the closing brace.
fn lex_braced_run(cs: &Vec<char>, start: usize) -> (r: Result<(Vec<char>, usize), Error>)
    requires
        start <= cs@.len(),
    ensures
        (match r {
            Ok((buf, end)) => start < end <= cs@.len() && lex_rec(
                cs@.skip(start as int),
                Scan::Braced(Seq::empty()),
            ) == cons_tok(Tok::Escaped(buf@), lex_rec(cs@.skip(end as int), Scan::Top)),
            Err(e) => lex_rec(cs@.skip(start as int), Scan::Braced(Seq::empty())) matches Err(f)
                && e@ == fault_msg(f),
        }),
{
    let n = cs.len();
    let mut buf: Vec<char> = Vec::new();
    let mut j = start;
    proof {
        assert(buf@ =~= Seq::<char>::empty());
    }
    while j < n
        invariant
            start <= j <= n,
            n == cs@.len(),
            lex_rec(cs@.skip(start as int), Scan::Braced(Seq::empty())) == lex_rec(
                cs@.skip(j as int),
                Scan::Braced(buf@),
            ),
        decreases n - j,
    {
        proof {
            text::lemma_skip_step(cs@, j as int);
        }
        let d = cs[j];
        if d == '}' {
            return Ok((buf, j + 1));
        } else if text::ascii_char(d) {
            buf.push(d);
            j += 1;
        } else {
            let mut m = String::from_str("Invalid ado.net token `");
            text::push_char(&mut m, d);
            m.append("`");
            return Err(Error::new(m.as_str()));
        }
    }
    proof {
        assert(cs@.skip(n as int) =~= Seq::<char>::empty());
    }
    Err(Error::new("unclosed escape literal"))
}

// ---------------------------------------------------------------------------
// The parser, specified
// ---------------------------------------------------------------------------

/// The next token of a stream; an exhausted stream reads as end of input.
pub open spec fn peek_tok(ts: Seq<Tok>) -> Tok {
    if ts.len() > 0 {
        ts[0]
    } else {
        Tok::Eof
    }
}

/// The stream with its next token consumed.
pub open spec fn tail_toks(ts: Seq<Tok>) -> Seq<Tok> {
    if ts.len() > 0 {
        ts.drop_first()
    } else {
        ts
    }
}

/// Accumulate an identifier: atoms and escaped runs append their content,
/// newlines are skipped, each whitespace token becomes a single space
/// unless the identifier is still empty; `;`, `=` and end of input stop
/// the read without being consumed.
pub open spec fn read_ident_rec(ts: Seq<Tok>, acc: Seq<char>) -> (Seq<char>, Seq<Tok>)
    decreases ts.len(),
{
    if ts.len() == 0 {
        (acc, ts)
    } else {
        match ts[0] {
            Tok::Atom(c) => read_ident_rec(ts.drop_first(), acc.push(c)),
            Tok::Escaped(sq) => read_ident_rec(ts.drop_first(), acc + sq),
            Tok::Newline => read_ident_rec(ts.drop_first(), acc),
            Tok::Whitespace => read_ident_rec(
                ts.drop_first(),
                if acc.len() == 0 {
                    acc
                } else {
                    acc.push(' ')
                },
            ),
            _ => (acc, ts),
        }
    }
}

/// What `read_ident` returns: the accumulated identifier with trailing
/// whitespace removed, and the remaining stream.
pub open spec fn read_ident_spec(ts: Seq<Tok>) -> (Seq<char>, Seq<Tok>) {
    let r = read_ident_rec(ts, Seq::empty());
    (text::trim_end_spec(r.0), r.1)
}

/// Reading an identifier never lengthens the stream.
pub proof fn lemma_read_ident_rec_len(ts: Seq<Tok>, acc: Seq<char>)
    ensures
        read_ident_rec(ts, acc).1.len() <= ts.len(),
    decreases ts.len(),
{
    if ts.len() > 0 {
        match ts[0] {
            Tok::Atom(c) => lemma_read_ident_rec_len(ts.drop_first(), acc.push(c)),
            Tok::Escaped(sq) => lemma_read_ident_rec_len(ts.drop_first(), acc + sq),
            Tok::Newline => lemma_read_ident_rec_len(ts.drop_first(), acc),
            Tok::Whitespace => lemma_read_ident_rec_len(
                ts.drop_first(),
                if acc.len() == 0 {
                    acc
                } else {
                    acc.push(' ')
                },
            ),
            _ => {},
        }
    }
}

/// The pair list a token stream parses to: `[pair][;pair]*[;]?` with
/// `pair := key "=" value`, keys non-empty and case-folded, later keys
/// overwriting earlier ones.
pub open spec fn parse_pairs_rec(
    ts: Seq<Tok>,
    acc: Seq<(Seq<char>, Seq<char>)>,
    first: bool,
) -> Result<Seq<(Seq<char>, Seq<char>)>, Fault>
    decreases ts.len(),
    via parse_pairs_rec_decreases
{
    if peek_tok(ts) is Eof {
        Ok(acc)
    } else {
        let ts1 = if first {
            ts
        } else {
            tail_toks(ts)
        };
        if !first && !(peek_tok(ts) is Semi) {
            Err(Fault::SemiExpected)
        } else if !first && peek_tok(ts1) is Eof {
            Ok(acc)
        } else {
            let (k, ts2) = read_ident_spec(ts1);
            if k.len() == 0 {
                Err(Fault::EmptyKey)
            } else if !(peek_tok(ts2) is Eq) {
                Err(Fault::EqExpected)
            } else {
                let (v, ts3) = read_ident_spec(tail_toks(ts2));
                parse_pairs_rec(ts3, props::upsert(acc, text::lower(k), v), false)
            }
        }
    }
}

#[via_fn]
proof fn parse_pairs_rec_decreases(ts: Seq<Tok>, acc: Seq<(Seq<char>, Seq<char>)>, first: bool) {
    if !(peek_tok(ts) is Eof) {
        let ts1 = if first {
            ts
        } else {
            tail_toks(ts)
        };
        lemma_read_ident_rec_len(ts1, Seq::empty());
        let (k, ts2) = read_ident_spec(ts1);
        lemma_read_ident_rec_len(tail_toks(ts2), Seq::empty());
    }
}

/// The model an input string parses to, or the fault that stops it.
pub open spec fn parse_spec(s: Seq<char>) -> Result<Seq<(Seq<char>, Seq<char>)>, Fault> {
    match lex(s) {
        Ok(ts) => parse_pairs_rec(ts, Seq::empty(), true),
        Err(f) => Err(f),
    }
}

/// A key as the parser produces it: non-empty, with no upper-case ASCII.
pub open spec fn key_ok(k: Seq<char>) -> bool {
    k.len() > 0 && forall|i: int| 0 <= i < k.len() ==> !('A' <= k[i] && k[i] <= 'Z')
}

/// Case folding yields a key without upper-case ASCII.
pub proof fn lemma_lower_key_ok(k: Seq<char>)
    requires
        k.len() > 0,
    ensures
        key_ok(text::lower(k)),
{
    assert forall|i: int| 0 <= i < text::lower(k).len() implies !('A' <= text::lower(k)[i]
        && text::lower(k)[i] <= 'Z') by {
        assert(text::lower(k)[i] == text::lower_char(k[i]));
    }
}

/// Whatever the parser returns has unique, well-formed keys.
pub proof fn lemma_parse_pairs_wf(ts: Seq<Tok>, acc: Seq<(Seq<char>, Seq<char>)>, first: bool)
    requires
        props::keys_unique(acc),
        forall|i: int| 0 <= i < acc.len() ==> #[trigger] key_ok(acc[i].0),
    ensures
        parse_pairs_rec(ts, acc, first) matches Ok(ps) ==> props::keys_unique(ps) && forall|i: int|
            0 <= i < ps.len() ==> #[trigger] key_ok(ps[i].0),
    decreases ts.len(),
{
    if !(peek_tok(ts) is Eof) {
        let ts1 = if first {
            ts
        } else {
            tail_toks(ts)
        };
        if (first || peek_tok(ts) is Semi) && !(!first && peek_tok(ts1) is Eof) {
            let (k, ts2) = read_ident_spec(ts1);
            if k.len() > 0 && peek_tok(ts2) is Eq {
                let (v, ts3) = read_ident_spec(tail_toks(ts2));
                let acc2 = props::upsert(acc, text::lower(k), v);
                props::lemma_upsert_unique(acc, text::lower(k), v);
                lemma_lower_key_ok(k);
                assert forall|i: int| 0 <= i < acc2.len() implies #[trigger] key_ok(acc2[i].0) by {
                    if acc2[i].0 != text::lower(k) {
                        assert(props::has_key(acc, acc2[i].0));
                        props::lemma_has_key_index(acc, acc2[i].0);
                        let w = choose|w: int| props::has_key_at(acc, acc2[i].0, w);
                        assert(key_ok(acc[w].0));
                    }
                }
                lemma_read_ident_rec_len(ts1, Seq::empty());
                lemma_read_ident_rec_len(tail_toks(ts2), Seq::empty());
                lemma_parse_pairs_wf(ts3, acc2, false);
            }
        }
    }
}

// ---------------------------------------------------------------------------
// The parser, executed
// ---------------------------------------------------------------------------

/// Read either a valid key or value from the lexer.
pub fn read_ident(lexer: &mut Lexer) -> (r: Result<String, Error>)
    ensures
        r matches Ok(s) && s@ == read_ident_spec(old(lexer).toks()).0,
        final(lexer).toks() == read_ident_spec(old(lexer).toks()).1,
{
    let mut buf: Vec<char> = Vec::new();
    let ghost ts0 = old(lexer).toks();
    proof {
        assert(buf@ =~= Seq::<char>::empty());
    }
    loop
        invariant_except_break
            read_ident_rec(ts0, Seq::empty()) == read_ident_rec(lexer.toks(), buf@),
        ensures
            read_ident_rec(ts0, Seq::empty()) == (buf@, lexer.toks()),
        decreases lexer.toks().len(),
    {
        let t = lexer.peek();
        match t.kind() {
            TokenKind::Semi => {
                break;
            },
            TokenKind::Eq => {
                break;
            },
            TokenKind::Eof => {
                break;
            },
            _ => {},
        }
        let tok = lexer.next();
        let Token { kind, loc: _ } = tok;
        match kind {
            TokenKind::Atom(c) => {
                buf.push(c);
            },
            TokenKind::Escaped(mut v) => {
                buf.append(&mut v);
            },
            TokenKind::Newline => {},
            TokenKind::Whitespace => {
                if buf.len() > 0 {
                    buf.push(' ');
                }
            },
            _ => {
                proof {
                    assert(false);
                }
            },
        }
    }
    // remove trailing whitespace
    let ghost raw = buf@;
    while buf.len() > 0 && text::is_ws_char(buf[buf.len() - 1])
        invariant
            text::trim_end_spec(buf@) == text::trim_end_spec(raw),
        decreases buf@.len(),
    {
        proof {
            assert(buf@.drop_last() =~= buf@.take(buf@.len() - 1));
        }
        buf.pop();
    }
    proof {
        assert(buf@ == text::trim_end_spec(raw));
    }
    Ok(text::chars_to_string(&buf))
}

// ---------------------------------------------------------------------------
// The model
// ---------------------------------------------------------------------------

/// An ADO.net connection string: a case-folded key/value map.
///
/// Keywords are not case-sensitive. Values may be case-sensitive, depending
/// on the data source. Both keywords and values may contain whitespace.
#[derive(Debug)]
pub struct AdoNetString {
    pairs: Props,
}

impl View for AdoNetString {
    type V = Seq<(Seq<char>, Seq<char>)>;

    closed spec fn view(&self) -> Seq<(Seq<char>, Seq<char>)> {
        self.pairs@
    }
}

impl AdoNetString {
    /// Parse an input string, yielding exactly the model of [`parse_spec`]
    /// or the error message of the fault that stops it. Keys come out
    /// non-empty, case-folded and unique.
    pub fn parse(input: &str) -> (r: Result<AdoNetString, Error>)
        ensures
            (match parse_spec(input@) {
                Ok(ps) => r matches Ok(a) && a@ == ps,
                Err(f) => r matches Err(e) && e@ == fault_msg(f),
            }),
            r matches Ok(a) ==> props::keys_unique(a@) && forall|i: int|
                0 <= i < a@.len() ==> #[trigger] key_ok(a@[i].0),
    {
        let mut lexer = match Lexer::tokenize(input) {
            Ok(lx) => lx,
            Err(e) => {
                return Err(e);
            },
        };
        let ghost ts_all = lexer.toks();
        let mut pairs = Props::new();
        let mut first = true;
        proof {
            lemma_parse_pairs_wf(ts_all, Seq::empty(), true);
        }
        loop
            invariant_except_break
                lex(input@) == Ok::<Seq<Tok>, Fault>(ts_all),
                parse_pairs_rec(ts_all, Seq::empty(), true) == parse_pairs_rec(
                    lexer.toks(),
                    pairs@,
                    first,
                ),
            ensures
                parse_pairs_rec(ts_all, Seq::empty(), true) == Ok::<
                    Seq<(Seq<char>, Seq<char>)>,
                    Fault,
                >(pairs@),
            decreases lexer.toks().len() + 1,
        {
            let t = lexer.peek();
            match t.kind() {
                TokenKind::Eof => {
                    break;
                },
                _ => {},
            }
            if !first {
                let tok = lexer.next();
                match tok.kind() {
                    TokenKind::Semi => {},
                    _ => {
                        return Err(Error::new("Key-value pairs must be separated by a `;`"));
                    },
                }
                let t2 = lexer.peek();
                match t2.kind() {
                    TokenKind::Eof => {
                        break;
                    },
                    _ => {},
                }
            }
            let ghost ts_iter = lexer.toks();
            let key = match read_ident(&mut lexer) {
                Ok(s) => s,
                Err(e) => {
                    return Err(e);
                },
            };
            if key.as_str().is_empty() {
                return Err(Error::new("Key must not be empty"));
            }
            let tok = lexer.next();
            match tok.kind() {
                TokenKind::Eq => {},
                _ => {
                    return Err(Error::new("key-value pairs must be joined by a `=`"));
                },
            }
            let ghost ts_val = lexer.toks();
            let value = match read_ident(&mut lexer) {
                Ok(s) => s,
                Err(e) => {
                    return Err(e);
                },
            };
            let key_lc = text::lowercase(key.as_str());
            pairs.insert(key_lc, value);
            first = false;
            proof {
                lemma_read_ident_rec_len(ts_iter, Seq::empty());
                lemma_read_ident_rec_len(ts_val, Seq::empty());
            }
        }
        Ok(AdoNetString { pairs })
    }

    /// Look up the value stored under `key`.
    pub fn get(&self, key: &str) -> (r: Option<&String>)
        ensures
            (match r {
                Some(v) => props::has_key(self@, key@) && v@ == props::val_of(self@, key@),
                None => !props::has_key(self@, key@),
            }),
    {
        self.pairs.get(key)
    }

    /// Insert `value` under `key`, returning the previous value if any.
    /// No validation or case folding is performed here; that is the
    /// caller's responsibility.
    pub fn insert(&mut self, key: String, value: String) -> (r: Option<String>)
        ensures
            final(self)@ == props::upsert(old(self)@, key@, value@),
            (match r {
                Some(v) => props::has_key(old(self)@, key@) && v@ == props::val_of(
                    old(self)@,
                    key@,
                ),
                None => !props::has_key(old(self)@, key@),
            }),
    {
        self.pairs.insert(key, value)
    }

    /// The number of key/value pairs.
    pub fn len(&self) -> (n: usize)
        ensures
            n == self@.len(),
    {
        self.pairs.len()
    }

    /// All keys, in insertion order.
    pub fn keys(&self) -> (r: Vec<String>)
        ensures
            r@.len() == self@.len(),
            forall|i: int| 0 <= i < r@.len() ==> r@[i]@ == self@[i].0,
    {
        self.pairs.keys()
    }
}

// ---------------------------------------------------------------------------
// The serializer
// ---------------------------------------------------------------------------

/// The rendered form of a whole pair list, `;`-separated with no trailing
/// separator.
pub open spec fn render_pairs(ps: Seq<(Seq<char>, Seq<char>)>) -> Seq<char> {
    if ps.len() == 0 {
        Seq::empty()
    } else {
        props::pair_text(ps[0]) + props::render_tail(ps.drop_first())
    }
}

impl AdoNetString {
    /// Render the connection string: `key=value` pairs joined by `;`, keys
    /// and values trimmed and re-escaped.
    pub fn to_string(&self) -> (r: String)
        ensures
            r@ == render_pairs(self@),
    {
        let mut out: Vec<char> = Vec::new();
        let n = self.pairs.len();
        let mut i: usize = 0;
        proof {
            assert(self@.skip(0) =~= self@);
        }
        while i < n
            invariant
                i <= n,
                n == self@.len(),
                (if i == 0 {
                    out@.len() == 0 && render_pairs(self@) == render_pairs(self@.skip(0))
                } else {
                    render_pairs(self@) == out@ + props::render_tail(self@.skip(i as int))
                }),
            decreases n - i,
        {
            proof {
                text::lemma_skip_step(self@, i as int);
            }
            if i > 0 {
                out.push(';');
            }
            let (k, v) = self.pairs.entry_at(i);
            let tk = text::trim_chars(text::str_chars(k.as_str()));
            text::escape_append(&mut out, &tk);
            out.push('=');
            let tv = text::trim_chars(text::str_chars(v.as_str()));
            text::escape_append(&mut out, &tv);
            proof {
                assert(props::pair_text(self@[i as int]) =~= text::escape_text(
                    text::trim_spec(self@[i as int].0),
                ) + seq!['='] + text::escape_text(text::trim_spec(self@[i as int].1)));
            }
            i += 1;
        }
        proof {
            if n > 0 {
                assert(self@.skip(n as int) =~= Seq::<(Seq<char>, Seq<char>)>::empty());
            }
        }
        text::chars_to_string(&out)
    }
}

// ---------------------------------------------------------------------------
// Round trip
// ---------------------------------------------------------------------------

/// A character that survives a serialize-and-reparse cycle: ASCII, and
/// none of the characters whose lexing depends on context the serializer
/// does not re-create (quotes, newlines, closing braces).
pub open spec fn safe_char(c: char) -> bool {
    text::is_ascii_char(c) && c != '"' && c != '\'' && c != '\n' && c != '}'
}

/// A string that survives a serialize-and-reparse cycle: safe characters
/// only, and no whitespace at either end, which trimming would drop.
pub open spec fn safe_text(s: Seq<char>) -> bool {
    (forall|i: int| 0 <= i < s.len() ==> safe_char(s[i])) && (s.len() > 0 ==> !text::is_ws(s[0])
        && !text::is_ws(s.last()))
}

/// The tokens the escaped form of `s` lexes back to: each maximal special
/// run as one escaped token, every other character as its own token.
pub open spec fn esc_toks(s: Seq<char>) -> Seq<Tok>
    decreases s.len(),
    via esc_toks_decreases
{
    if s.len() == 0 {
        Seq::empty()
    } else if text::is_special(s[0]) {
        seq![Tok::Escaped(s.take(text::special_run(s)))] + esc_toks(s.skip(text::special_run(s)))
    } else {
        seq![char_tok(s[0])] + esc_toks(s.drop_first())
    }
}

#[via_fn]
proof fn esc_toks_decreases(s: Seq<char>) {
    if s.len() > 0 && text::is_special(s[0]) {
        text::lemma_special_run(s);
    }
}

/// Emitting nothing changes nothing.
proof fn lemma_emit_empty(r: Result<Seq<Tok>, Fault>)
    ensures
        emit(Seq::empty(), r) == r,
{
    match r {
        Ok(rest) => {
            assert(Seq::<Tok>::empty() + rest =~= rest);
        },
        Err(_) => {},
    }
}

/// Emissions concatenate.
proof fn lemma_emit_nest(a: Seq<Tok>, b: Seq<Tok>, r: Result<Seq<Tok>, Fault>)
    ensures
        emit(a, emit(b, r)) == emit(a + b, r),
{
    match r {
        Ok(rest) => {
            assert(a + (b + rest) =~= (a + b) + rest);
        },
        Err(_) => {},
    }
}

/// A cons in front of an emission is one longer emission.
proof fn lemma_cons_emit(t: Tok, a: Seq<Tok>, r: Result<Seq<Tok>, Fault>)
    ensures
        cons_tok(t, emit(a, r)) == emit(seq![t] + a, r),
{
    match r {
        Ok(rest) => {
            assert(seq![t] + (a + rest) =~= (seq![t] + a) + rest);
        },
        Err(_) => {},
    }
}

/// A braced run whose content has no closing brace lexes to one escaped
/// token holding exactly that content.
proof fn lemma_lex_braced_content(u: Seq<char>, acc: Seq<char>, rest: Seq<char>)
    requires
        forall|i: int| 0 <= i < u.len() ==> text::is_ascii_char(u[i]) && u[i] != '}',
    ensures
        lex_rec(u + seq!['}'] + rest, Scan::Braced(acc)) == cons_tok(
            Tok::Escaped(acc + u),
            lex_rec(rest, Scan::Top),
        ),
    decreases u.len(),
{
    let w = u + seq!['}'] + rest;
    if u.len() == 0 {
        assert(w[0] == '}');
        assert(w.drop_first() =~= rest);
        assert(acc + u =~= acc);
    } else {
        assert(w[0] == u[0]);
        assert(w.drop_first() =~= u.drop_first() + seq!['}'] + rest);
        lemma_lex_braced_content(u.drop_first(), acc.push(u[0]), rest);
        assert(acc.push(u[0]) + u.drop_first() =~= acc + u);
    }
}

/// Lexing the escaped form of a safe string, followed by anything, yields
/// its tokens followed by the lexing of the rest.
proof fn lemma_lex_escape(s: Seq<char>, t: Seq<char>)
    requires
        forall|i: int| 0 <= i < s.len() ==> safe_char(s[i]),
    ensures
        lex_rec(text::escape_text(s) + t, Scan::Top) == emit(esc_toks(s), lex_rec(t, Scan::Top)),
    decreases s.len(),
{
    if s.len() == 0 {
        assert(text::escape_text(s) + t =~= t);
        lemma_emit_empty(lex_rec(t, Scan::Top));
    } else if text::is_special(s[0]) {
        let r = text::special_run(s);
        text::lemma_special_run(s);
        text::lemma_escape_group(s);
        let w = text::escape_text(s) + t;
        assert(w[0] == '{');
        assert(w.drop_first() =~= s.take(r) + seq!['}'] + (text::escape_rec(s.skip(r), false)
            + t));
        assert forall|i: int| 0 <= i < s.take(r).len() implies text::is_ascii_char(s.take(r)[i])
            && s.take(r)[i] != '}' by {
            assert(safe_char(s[i]));
        }
        lemma_lex_braced_content(
            s.take(r),
            Seq::empty(),
            text::escape_rec(s.skip(r), false) + t,
        );
        assert(Seq::<char>::empty() + s.take(r) =~= s.take(r));
        lemma_lex_escape(s.skip(r), t);
        lemma_cons_emit(
            Tok::Escaped(s.take(r)),
            esc_toks(s.skip(r)),
            lex_rec(t, Scan::Top),
        );
    } else {
        let w = text::escape_text(s) + t;
        assert(text::escape_text(s) =~= seq![s[0]] + text::escape_rec(s.drop_first(), false));
        assert(w[0] == s[0]);
        assert(w.drop_first() =~= text::escape_rec(s.drop_first(), false) + t);
        lemma_lex_escape(s.drop_first(), t);
        lemma_cons_emit(char_tok(s[0]), esc_toks(s.drop_first()), lex_rec(t, Scan::Top));
    }
}

/// The first token of a safe, non-empty, non-space-headed string is an
/// atom or an escaped run.
proof fn lemma_esc_toks_head(s: Seq<char>)
    requires
        s.len() > 0,
        forall|i: int| 0 <= i < s.len() ==> safe_char(s[i]),
        !text::is_ws(s[0]),
    ensures
        esc_toks(s).len() > 0,
        esc_toks(s)[0] is Atom || esc_toks(s)[0] is Escaped,
{
    if text::is_special(s[0]) {
    } else {
        assert(safe_char(s[0]));
        assert(char_tok(s[0]) is Atom);
    }
}

/// Reading an identifier over the tokens of a safe escaped string puts
/// the string back into the buffer.
proof fn lemma_read_esc(s: Seq<char>, ts: Seq<Tok>, acc: Seq<char>)
    requires
        forall|i: int| 0 <= i < s.len() ==> safe_char(s[i]),
        acc.len() > 0 || s.len() == 0 || s[0] != ' ',
    ensures
        read_ident_rec(esc_toks(s) + ts, acc) == read_ident_rec(ts, acc + s),
    decreases s.len(),
{
    if s.len() == 0 {
        assert(esc_toks(s) + ts =~= ts);
        assert(acc + s =~= acc);
    } else if text::is_special(s[0]) {
        let r = text::special_run(s);
        text::lemma_special_run(s);
        assert((esc_toks(s) + ts)[0] == Tok::Escaped(s.take(r)));
        assert((esc_toks(s) + ts).drop_first() =~= esc_toks(s.skip(r)) + ts);
        lemma_read_esc(s.skip(r), ts, acc + s.take(r));
        assert((acc + s.take(r)) + s.skip(r) =~= acc + s);
    } else {
        assert((esc_toks(s) + ts)[0] == char_tok(s[0]));
        assert((esc_toks(s) + ts).drop_first() =~= esc_toks(s.drop_first()) + ts);
        if s[0] == ' ' {
            lemma_read_esc(s.drop_first(), ts, acc.push(' '));
            assert(acc.push(' ') + s.drop_first() =~= acc + s);
        } else {
            lemma_read_esc(s.drop_first(), ts, acc.push(s[0]));
            assert(acc.push(s[0]) + s.drop_first() =~= acc + s);
        }
    }
}

/// The tokens the rendered tail of a pair list lexes back to.
pub open spec fn rt_toks(ps: Seq<(Seq<char>, Seq<char>)>) -> Seq<Tok>
    decreases ps.len(),
{
    if ps.len() == 0 {
        Seq::empty()
    } else {
        seq![Tok::Semi] + esc_toks(ps[0].0) + seq![Tok::Eq] + esc_toks(ps[0].1) + rt_toks(
            ps.drop_first(),
        )
    }
}

/// A pair that survives a serialize-and-reparse cycle, its key as the
/// parser would produce it.
pub open spec fn pair_safe(p: (Seq<char>, Seq<char>)) -> bool {
    safe_text(p.0) && safe_text(p.1) && key_ok(p.0)
}

/// Every pair of the list is [`pair_safe`].
pub open spec fn pairs_safe(ps: Seq<(Seq<char>, Seq<char>)>) -> bool {
    forall|i: int| 0 <= i < ps.len() ==> #[trigger] pair_safe(ps[i])
}

/// A rendered pair, under safety, is its escaped key, `=`, and its
/// escaped value.
proof fn lemma_pair_text_safe(p: (Seq<char>, Seq<char>))
    requires
        safe_text(p.0),
        safe_text(p.1),
    ensures
        props::pair_text(p) == text::escape_text(p.0) + seq!['='] + text::escape_text(p.1),
{
    text::lemma_trim_noop(p.0);
    text::lemma_trim_noop(p.1);
}

/// Lexing a rendered tail, followed by anything, yields its tokens
/// followed by the lexing of the rest.
proof fn lemma_lex_render_tail(ps: Seq<(Seq<char>, Seq<char>)>, t: Seq<char>)
    requires
        pairs_safe(ps),
    ensures
        lex_rec(props::render_tail(ps) + t, Scan::Top) == emit(rt_toks(ps), lex_rec(t, Scan::Top)),
    decreases ps.len(),
{
    if ps.len() == 0 {
        assert(props::render_tail(ps) + t =~= t);
        lemma_emit_empty(lex_rec(t, Scan::Top));
    } else {
        let k = ps[0].0;
        let v = ps[0].1;
        assert(pair_safe(ps[0]));
        lemma_pair_text_safe(ps[0]);
        let tv = props::render_tail(ps.drop_first()) + t;
        let te = seq!['='] + text::escape_text(v) + tv;
        let w = props::render_tail(ps) + t;
        assert(w[0] == ';');
        assert(w.drop_first() =~= text::escape_text(k) + te);
        lemma_lex_escape(k, te);
        assert(te[0] == '=');
        assert(te.drop_first() =~= text::escape_text(v) + tv);
        lemma_lex_escape(v, tv);
        lemma_lex_render_tail(ps.drop_first(), t);
        // reassemble: ; k = v rest
        let lt = lex_rec(t, Scan::Top);
        lemma_cons_emit(Tok::Eq, esc_toks(v) + rt_toks(ps.drop_first()), lt);
        lemma_emit_nest(esc_toks(v), rt_toks(ps.drop_first()), lt);
        lemma_emit_nest(esc_toks(k), seq![Tok::Eq] + (esc_toks(v) + rt_toks(ps.drop_first())), lt);
        lemma_cons_emit(
            Tok::Semi,
            esc_toks(k) + (seq![Tok::Eq] + (esc_toks(v) + rt_toks(ps.drop_first()))),
            lt,
        );
        assert(seq![Tok::Semi] + (esc_toks(k) + (seq![Tok::Eq] + (esc_toks(v) + rt_toks(
            ps.drop_first(),
        )))) =~= rt_toks(ps));
    }
}

/// Reading one rendered pair back: the key, the `=`, the value, leaving
/// the rest of the token stream.
proof fn lemma_read_pair(k: Seq<char>, v: Seq<char>, rest: Seq<Tok>)
    requires
        safe_text(k),
        safe_text(v),
        k.len() > 0,
        rest.len() > 0 ==> rest[0] is Semi,
    ensures
        read_ident_spec(esc_toks(k) + seq![Tok::Eq] + esc_toks(v) + rest) == (
            k,
            seq![Tok::Eq] + esc_toks(v) + rest,
        ),
        read_ident_spec(esc_toks(v) + rest) == (v, rest),
{
    let after_k = seq![Tok::Eq] + esc_toks(v) + rest;
    assert(esc_toks(k) + seq![Tok::Eq] + esc_toks(v) + rest =~= esc_toks(k) + after_k);
    lemma_read_esc(k, after_k, Seq::empty());
    assert(Seq::<char>::empty() + k =~= k);
    assert(after_k[0] is Eq);
    assert(read_ident_rec(after_k, k) == (k, after_k));
    assert(text::trim_end_spec(k) == k);

    lemma_read_esc(v, rest, Seq::empty());
    assert(Seq::<char>::empty() + v =~= v);
    if rest.len() > 0 {
        assert(read_ident_rec(rest, v) == (v, rest));
    }
    assert(text::trim_end_spec(v) == v);
}

/// Parsing the rendered tail of a safe pair list appends exactly those
/// pairs to the accumulator.
proof fn lemma_parse_rt(ps: Seq<(Seq<char>, Seq<char>)>, acc: Seq<(Seq<char>, Seq<char>)>)
    requires
        pairs_safe(ps),
        props::keys_unique(acc + ps),
    ensures
        parse_pairs_rec(rt_toks(ps), acc, false) == Ok::<Seq<(Seq<char>, Seq<char>)>, Fault>(
            acc + ps,
        ),
    decreases ps.len(),
{
    if ps.len() == 0 {
        assert(acc + ps =~= acc);
    } else {
        let k = ps[0].0;
        let v = ps[0].1;
        let drop = ps.drop_first();
        let ts = rt_toks(ps);
        assert(pair_safe(ps[0]));
        assert(ts[0] is Semi);
        let ts1 = esc_toks(k) + seq![Tok::Eq] + esc_toks(v) + rt_toks(drop);
        assert(tail_toks(ts) =~= ts1);
        lemma_esc_toks_head(k);
        assert(ts1[0] == esc_toks(k)[0]);
        assert(!(peek_tok(ts1) is Eof));
        assert(rt_toks(drop).len() > 0 ==> rt_toks(drop)[0] is Semi);
        lemma_read_pair(k, v, rt_toks(drop));
        let ts2 = seq![Tok::Eq] + esc_toks(v) + rt_toks(drop);
        assert(peek_tok(ts2) is Eq);
        assert(tail_toks(ts2) =~= esc_toks(v) + rt_toks(drop));
        text::lemma_lower_noop(k);
        // the key is new, so the upsert appends
        assert(!props::has_key(acc, k)) by {
            props::lemma_has_key_index(acc, k);
            if props::has_key(acc, k) {
                let w = choose|w: int| props::has_key_at(acc, k, w);
                assert((acc + ps)[w].0 == (acc + ps)[acc.len() as int].0);
            }
        }
        props::lemma_upsert_absent(acc, k, v);
        assert(props::upsert(acc, k, v) =~= acc.push(ps[0]));
        assert forall|i: int| 0 <= i < drop.len() implies #[trigger] pair_safe(drop[i]) by {
            assert(pair_safe(ps[i + 1]));
        }
        assert(acc.push(ps[0]) + drop =~= acc + ps);
        lemma_parse_rt(drop, acc.push(ps[0]));
    }
}

/// Serializing a well-formed, safe pair list and parsing the result gives
/// back exactly the same pairs. Keys must be unique, non-empty and
/// case-folded, as `parse` produces them; all text must be [`safe_text`].
#[verifier::rlimit(80)]
pub proof fn lemma_render_parse(ps: Seq<(Seq<char>, Seq<char>)>)
    requires
        props::keys_unique(ps),
        pairs_safe(ps),
    ensures
        parse_spec(render_pairs(ps)) == Ok::<Seq<(Seq<char>, Seq<char>)>, Fault>(ps),
{
    if ps.len() == 0 {
        assert(render_pairs(ps) =~= Seq::<char>::empty());
        assert(ps =~= Seq::<(Seq<char>, Seq<char>)>::empty());
        assert(lex(render_pairs(ps)) == Ok::<Seq<Tok>, Fault>(Seq::empty()));
        assert(parse_pairs_rec(Seq::empty(), Seq::empty(), true) == Ok::<
            Seq<(Seq<char>, Seq<char>)>,
            Fault,
        >(Seq::empty()));
    } else {
        let k = ps[0].0;
        let v = ps[0].1;
        let drop = ps.drop_first();
        assert(pair_safe(ps[0]));
        lemma_pair_text_safe(ps[0]);
        // lex the rendered text
        let tv = props::render_tail(drop);
        let te = seq!['='] + text::escape_text(v) + tv;
        let w = render_pairs(ps);
        assert(w =~= text::escape_text(k) + te);
        lemma_lex_escape(k, te);
        assert(te[0] == '=');
        assert(te.drop_first() =~= text::escape_text(v) + tv);
        lemma_lex_escape(v, tv);
        assert(tv =~= props::render_tail(drop) + Seq::<char>::empty());
        lemma_lex_render_tail(drop, Seq::empty());
        assert(lex_rec(Seq::<char>::empty(), Scan::Top) == Ok::<Seq<Tok>, Fault>(Seq::empty()));
        let lt = Ok::<Seq<Tok>, Fault>(Seq::<Tok>::empty());
        lemma_cons_emit(Tok::Eq, esc_toks(v) + rt_toks(drop), lt);
        lemma_emit_nest(esc_toks(v), rt_toks(drop), lt);
        lemma_emit_nest(esc_toks(k), seq![Tok::Eq] + (esc_toks(v) + rt_toks(drop)), lt);
        let ts = esc_toks(k) + seq![Tok::Eq] + esc_toks(v) + rt_toks(drop);
        assert(esc_toks(k) + (seq![Tok::Eq] + (esc_toks(v) + rt_toks(drop))) + Seq::<
            Tok,
        >::empty() =~= ts);
        assert(lex(w) == Ok::<Seq<Tok>, Fault>(ts));
        // parse the tokens
        lemma_esc_toks_head(k);
        assert(ts[0] == esc_toks(k)[0]);
        assert(!(peek_tok(ts) is Eof));
        assert(rt_toks(drop).len() > 0 ==> rt_toks(drop)[0] is Semi);
        lemma_read_pair(k, v, rt_toks(drop));
        let ts2 = seq![Tok::Eq] + esc_toks(v) + rt_toks(drop);
        assert(peek_tok(ts2) is Eq);
        assert(tail_toks(ts2) =~= esc_toks(v) + rt_toks(drop));
        text::lemma_lower_noop(k);
        assert(props::upsert(Seq::empty(), k, v) =~= seq![ps[0]]);
        assert forall|i: int| 0 <= i < drop.len() implies #[trigger] pair_safe(drop[i]) by {
            assert(pair_safe(ps[i + 1]));
        }
        assert(seq![ps[0]] + drop =~= ps);
        lemma_parse_rt(drop, seq![ps[0]]);
        assert(parse_pairs_rec(ts, Seq::empty(), true) == Ok::<
            Seq<(Seq<char>, Seq<char>)>,
            Fault,
        >(ps));
    }
}

/// Round trip from an input string: parsing, serializing and re-parsing
/// gives the same pairs, for inputs whose parsed keys and values are
/// [`safe_text`]. An input whose value holds a quote, a newline, a
/// closing brace followed by another special character, or escaped
/// whitespace at an end of a value, may serialize to a different string.
pub proof fn lemma_parse_round_trip(s: Seq<char>)
    requires
        parse_spec(s) is Ok,
        pairs_safe(parse_spec(s)->Ok_0),
    ensures
        parse_spec(render_pairs(parse_spec(s)->Ok_0)) == parse_spec(s),
{
    let ps = parse_spec(s)->Ok_0;
    let ts = lex(s)->Ok_0;
    lemma_parse_pairs_wf(ts, Seq::empty(), true);
    lemma_render_parse(ps);
}

} // verus!
