//! The JDBC connection string dialect for SqlServer:
//! `jdbc:<protocol>://[serverName[\instanceName][:port]][;property=value]*`
//! with brace-delimited escaping only.

use vstd::prelude::*;

use crate::error::Error;
use crate::props::{self, Props};
use crate::text::{self, Location};

verus! {

// ---------------------------------------------------------------------------
// Tokens
// ---------------------------------------------------------------------------

/// The mathematical form of a token.
pub enum Tok {
    Colon,
    Eq,
    BSlash,
    FSlash,
    Semi,
    Escaped(Seq<char>),
    Atom(char),
    Eof,
}

/// The kind of token the lexer produced.
pub enum TokenKind {
    Colon,
    Eq,
    BSlash,
    FSlash,
    Semi,
    /// An ident that falls inside a `{}` pair.
    Escaped(Vec<char>),
    /// An identifier character in the connection string.
    Atom(char),
    Eof,
}

impl View for TokenKind {
    type V = Tok;

    open spec fn view(&self) -> Tok {
        match self {
            TokenKind::Colon => Tok::Colon,
            TokenKind::Eq => Tok::Eq,
            TokenKind::BSlash => Tok::BSlash,
            TokenKind::FSlash => Tok::FSlash,
            TokenKind::Semi => Tok::Semi,
            TokenKind::Escaped(v) => Tok::Escaped(v@),
            TokenKind::Atom(c) => Tok::Atom(*c),
            TokenKind::Eof => Tok::Eof,
        }
    }
}

impl Clone for TokenKind {
    fn clone(&self) -> (r: TokenKind)
        ensures
            r@ == self@,
    {
        match self {
            TokenKind::Colon => TokenKind::Colon,
            TokenKind::Eq => TokenKind::Eq,
            TokenKind::BSlash => TokenKind::BSlash,
            TokenKind::FSlash => TokenKind::FSlash,
            TokenKind::Semi => TokenKind::Semi,
            TokenKind::Escaped(v) => {
                let w = v.clone();
                proof {
                    assert forall|j: int| 0 <= j < w@.len() implies w@[j] == v@[j] by {
                        assert(cloned::<char>(v@[j], w@[j]));
                    }
                    assert(w@ =~= v@);
                }
                TokenKind::Escaped(w)
            },
            TokenKind::Atom(c) => TokenKind::Atom(*c),
            TokenKind::Eof => TokenKind::Eof,
        }
    }
}

/// A pair of `Location` and `TokenKind`.
pub struct Token {
    kind: TokenKind,
    loc: Location,
}

impl View for Token {
    type V = Tok;

    closed spec fn view(&self) -> Tok {
        self.kind@
    }
}

impl Clone for Token {
    fn clone(&self) -> (r: Token)
        ensures
            r@ == self@,
    {
        Token { kind: self.kind.clone(), loc: self.loc }
    }
}

impl Token {
    /// Create a new instance.
    pub fn new(kind: TokenKind, loc: Location) -> (t: Token)
        ensures
            t@ == kind@,
    {
        Token { kind, loc }
    }

    /// What kind of token is this?
    pub fn kind(&self) -> (k: &TokenKind)
        ensures
            k@ == self@,
    {
        &self.kind
    }
}

// ---------------------------------------------------------------------------
// Faults
// ---------------------------------------------------------------------------

/// Everything that can make a JDBC parse fail, paired with its exact
/// message by [`fault_msg`].
pub enum Fault {
    /// Input ended inside a brace-delimited run.
    UnclosedBrace,
    /// A non-ASCII character anywhere.
    BadChar(char),
    /// The input did not start with `jdbc:<suffix>://`.
    BadSubProtocol,
    /// A server name that reads as empty.
    BadServer,
    /// An instance name that reads as empty.
    BadInstance,
    /// A port that reads as empty.
    EmptyPort,
    /// A port with a non-digit character.
    PortDigit,
    /// A port beyond 16 bits.
    PortRange,
    /// A property key that reads as empty.
    BadPropKey,
    /// A property key not followed by `=`.
    PropEqExpected,
    /// A property value that reads as empty.
    BadPropValue,
    /// A token left over after the grammar finished.
    TrailingTok,
}

/// The message carried by the error each fault raises.
pub open spec fn fault_msg(f: Fault) -> Seq<char> {
    match f {
        Fault::UnclosedBrace => "unclosed escape literal"@,
        Fault::BadChar(c) => "Invalid JDBC token `"@ + seq![c] + "`"@,
        Fault::BadSubProtocol => "Invalid JDBC sub-protocol"@,
        Fault::BadServer => "Invalid server name"@,
        Fault::BadInstance => "Invalid instance name"@,
        Fault::EmptyPort => "Invalid port"@,
        Fault::PortDigit => "invalid digit found in string"@,
        Fault::PortRange => "number too large to fit in target type"@,
        Fault::BadPropKey => "Invalid property key"@,
        Fault::PropEqExpected => "Property pairs must be joined by a `=`"@,
        Fault::BadPropValue => "Invalid property value"@,
        Fault::TrailingTok => "Invalid JDBC token"@,
    }
}

// ---------------------------------------------------------------------------
// The lexer, specified
// ---------------------------------------------------------------------------

/// The lexer's state: scanning at the top level or inside a braced run.
pub enum Scan {
    Top,
    Braced(Seq<char>),
}

/// Prepend a token to a lexing result.
pub open spec fn cons_tok(t: Tok, r: Result<Seq<Tok>, Fault>) -> Result<Seq<Tok>, Fault> {
    match r {
        Ok(ts) => Ok(seq![t] + ts),
        Err(f) => Err(f),
    }
}

/// The token a single unescaped ASCII character lexes to.
pub open spec fn char_tok(c: char) -> Tok {
    if c == ':' {
        Tok::Colon
    } else if c == '=' {
        Tok::Eq
    } else if c == '\\' {
        Tok::BSlash
    } else if c == '/' {
        Tok::FSlash
    } else if c == ';' {
        Tok::Semi
    } else {
        Tok::Atom(c)
    }
}

/// The tokens of the remaining input `s`, scanned in state `m`. `{` opens
/// a run closed by the next `}`; structural characters map to their own
/// kinds; every other ASCII character is an atom; non-ASCII is a fault.
pub open spec fn lex_rec(s: Seq<char>, m: Scan) -> Result<Seq<Tok>, Fault>
    decreases s.len(), 1int,
{
    match m {
        Scan::Top => {
            if s.len() == 0 {
                Ok(Seq::empty())
            } else {
                let c = s[0];
                if c == '{' {
                    lex_rec(s.drop_first(), Scan::Braced(Seq::empty()))
                } else if text::is_ascii_char(c) {
                    cons_tok(char_tok(c), lex_rec(s.drop_first(), Scan::Top))
                } else {
                    Err(Fault::BadChar(c))
                }
            }
        },
        Scan::Braced(acc) => {
            if s.len() == 0 {
                Err(Fault::UnclosedBrace)
            } else if s[0] == '}' {
                cons_tok(Tok::Escaped(acc), lex_rec(s.drop_first(), Scan::Top))
            } else if text::is_ascii_char(s[0]) {
                lex_rec(s.drop_first(), Scan::Braced(acc.push(s[0])))
            } else {
                Err(Fault::BadChar(s[0]))
            }
        },
    }
}

/// The token sequence of a whole input, or the first lexing fault.
pub open spec fn lex(s: Seq<char>) -> Result<Seq<Tok>, Fault> {
    lex_rec(s, Scan::Top)
}

/// The views of a vector of tokens, in the same order.
pub open spec fn toks_of(v: Seq<Token>) -> Seq<Tok> {
    v.map_values(|t: Token| t@)
}

/// Tokens already emitted, joined with the result of lexing the rest.
pub open spec fn emit(ts: Seq<Tok>, r: Result<Seq<Tok>, Fault>) -> Result<Seq<Tok>, Fault> {
    match r {
        Ok(rest) => Ok(ts + rest),
        Err(f) => Err(f),
    }
}

/// Emitting a token then the rest is the same as consing it inside.
proof fn lemma_emit_cons(ts: Seq<Tok>, t: Tok, r: Result<Seq<Tok>, Fault>)
    ensures
        emit(ts, cons_tok(t, r)) == emit(ts.push(t), r),
{
    match r {
        Ok(rest) => {
            assert(ts + (seq![t] + rest) =~= ts.push(t) + rest);
        },
        Err(_) => {},
    }
}

// ---------------------------------------------------------------------------
// The lexer, executed
// ---------------------------------------------------------------------------

/// A reversed stack of tokens: the next token to consume sits at the end
/// of the vector.
pub struct Lexer {
    tokens: Vec<Token>,
}

impl Lexer {
    /// The tokens still in the stream, in consumption order.
    pub closed spec fn toks(&self) -> Seq<Tok> {
        toks_of(self.tokens@).reverse()
    }

    /// Parse a string into a list of tokens.
    pub fn tokenize(input: &str) -> (r: Result<Lexer, Error>)
        ensures
            (match lex(input@) {
                Ok(ts) => r matches Ok(lx) && lx.toks() == ts,
                Err(f) => r matches Err(e) && e@ == fault_msg(f),
            }),
    {
        let cs = text::str_chars(input);
        let n = cs.len();
        let mut tokens: Vec<Token> = Vec::new();
        let mut loc = Location::new();
        let mut i: usize = 0;
        proof {
            assert(cs@.skip(0) =~= cs@);
            assert(toks_of(tokens@) =~= Seq::<Tok>::empty());
        }
        while i < n
            invariant
                i <= n,
                n == cs@.len(),
                cs@ == input@,
                loc.column == i,
                lex(input@) == emit(toks_of(tokens@), lex_rec(cs@.skip(i as int), Scan::Top)),
            decreases n - i,
        {
            proof {
                text::lemma_skip_step(cs@, i as int);
            }
            let c = cs[i];
            if c == '{' {
                match lex_braced_run(&cs, i + 1) {
                    Ok((buf, end)) => {
                        proof {
                            lemma_emit_cons(
                                toks_of(tokens@),
                                Tok::Escaped(buf@),
                                lex_rec(cs@.skip(end as int), Scan::Top),
                            );
                        }
                        let tok = Token::new(TokenKind::Escaped(buf), loc);
                        let ghost tv = tokens@;
                        tokens.push(tok);
                        proof {
                            assert(toks_of(tv.push(tok)) =~= toks_of(tv).push(tok@));
                        }
                        loc.advance(end - i);
                        i = end;
                    },
                    Err(e) => {
                        return Err(e);
                    },
                }
            } else if text::ascii_char(c) {
                let kind = if c == ':' {
                    TokenKind::Colon
                } else if c == '=' {
                    TokenKind::Eq
                } else if c == '\\' {
                    TokenKind::BSlash
                } else if c == '/' {
                    TokenKind::FSlash
                } else if c == ';' {
                    TokenKind::Semi
                } else {
                    TokenKind::Atom(c)
                };
                proof {
                    lemma_emit_cons(
                        toks_of(tokens@),
                        char_tok(c),
                        lex_rec(cs@.skip(i + 1), Scan::Top),
                    );
                }
                let tok = Token::new(kind, loc);
                let ghost tv = tokens@;
                tokens.push(tok);
                proof {
                    assert(toks_of(tv.push(tok)) =~= toks_of(tv).push(tok@));
                }
                loc.advance(1);
                i += 1;
            } else {
                let mut m = String::from_str("Invalid JDBC token `");
                text::push_char(&mut m, c);
                m.append("`");
                return Err(Error::new(m.as_str()));
            }
        }
        proof {
            assert(cs@.skip(n as int) =~= Seq::<char>::empty());
            assert(toks_of(tokens@) + Seq::<Tok>::empty() =~= toks_of(tokens@));
        }
        let ghost built = tokens@;
        let mut rev: Vec<Token> = Vec::new();
        proof {
            assert(tokens@ =~= built.take(tokens@.len() as int));
            assert(rev@ =~= built.skip(tokens@.len() as int).reverse());
        }
        while tokens.len() > 0
            invariant
                tokens@.len() <= built.len(),
                tokens@ =~= built.take(tokens@.len() as int),
                rev@ =~= built.skip(tokens@.len() as int).reverse(),
            decreases tokens@.len(),
        {
            let ghost m = tokens@.len() as int;
            let t = tokens.pop().unwrap();
            rev.push(t);
            proof {
                assert(tokens@ =~= built.take(m - 1));
                assert(rev@ =~= built.skip(m - 1).reverse());
            }
        }
        let lx = Lexer { tokens: rev };
        proof {
            assert(built.skip(0) =~= built);
            assert(rev@ =~= built.reverse());
            if built.len() > 0 {
                assert forall|k: int| 0 <= k < built.len() implies toks_of(rev@).reverse()[k]
                    == toks_of(built)[k] by {
                    assert(toks_of(rev@)[built.len() - 1 - k] == rev@[built.len() - 1 - k]@);
                    assert(rev@[built.len() - 1 - k] == built[k]);
                }
            }
            assert(lx.toks() =~= toks_of(built));
        }
        Ok(lx)
    }

    /// Get the next token from the queue; the end of input is reported as
    /// an end-of-input token.
    pub fn next(&mut self) -> (t: Token)
        ensures
            (if old(self).toks().len() > 0 {
                t@ == old(self).toks()[0] && final(self).toks() == old(self).toks().drop_first()
            } else {
                t@ == Tok::Eof && final(self).toks() == old(self).toks()
            }),
    {
        let ghost ts0 = old(self).toks();
        match self.tokens.pop() {
            Some(t) => {
                proof {
                    assert(toks_of(self.tokens@) =~= toks_of(old(self).tokens@).drop_last());
                    assert(toks_of(old(self).tokens@).drop_last().reverse() =~= ts0.drop_first());
                    assert(t@ == toks_of(old(self).tokens@).last());
                }
                t
            },
            None => {
                proof {
                    assert(self.tokens@ =~= old(self).tokens@);
                }
                Token::new(TokenKind::Eof, Location::new())
            },
        }
    }

    /// Push a token back onto the queue.
    pub fn push(&mut self, token: Token)
        ensures
            final(self).toks() == seq![token@] + old(self).toks(),
    {
        let ghost ts0 = old(self).toks();
        let ghost tv = self.tokens@;
        self.tokens.push(token);
        proof {
            assert(toks_of(tv.push(token)) =~= toks_of(tv).push(token@));
            assert(toks_of(tv).push(token@).reverse() =~= seq![token@] + ts0);
        }
    }

    /// Peek at the next token in the queue without consuming it.
    pub fn peek(&self) -> (t: Token)
        ensures
            (if self.toks().len() > 0 {
                t@ == self.toks()[0]
            } else {
                t@ == Tok::Eof
            }),
    {
        let n = self.tokens.len();
        if n > 0 {
            let t = self.tokens[n - 1].clone();
            proof {
                assert(self.toks()[0] == toks_of(self.tokens@)[n - 1]);
            }
            t
        } else {
            Token::new(TokenKind::Eof, Location::new())
        }
    }
}

/// Scan the remainder of a brace-delimited run that began at `start - 1`;
/// returns the content and the index just past the closing brace.
fn lex_braced_run(cs: &Vec<char>, start: usize) -> (r: Result<(Vec<char>, usize), Error>)
    requires
        start <= cs@.len(),
    ensures
        (match r {
            Ok((buf, end)) => start < end <= cs@.len() && lex_rec(
                cs@.skip(start as int),
                Scan::Braced(Seq::empty()),
            ) == cons_tok(Tok::Escaped(buf@), lex_rec(cs@.skip(end as int), Scan::Top)),
            Err(e) => lex_rec(cs@.skip(start as int), Scan::Braced(Seq::empty())) matches Err(f)
                && e@ == fault_msg(f),
        }),
{
    let n = cs.len();
    let mut buf: Vec<char> = Vec::new();
    let mut j = start;
    proof {
        assert(buf@ =~= Seq::<char>::empty());
    }
    while j < n
        invariant
            start <= j <= n,
            n == cs@.len(),
            lex_rec(cs@.skip(start as int), Scan::Braced(Seq::empty())) == lex_rec(
                cs@.skip(j as int),
                Scan::Braced(buf@),
            ),
        decreases n - j,
    {
        proof {
            text::lemma_skip_step(cs@, j as int);
        }
        let d = cs[j];
        if d == '}' {
            return Ok((buf, j + 1));
        } else if text::ascii_char(d) {
            buf.push(d);
            j += 1;
        } else {
            let mut m = String::from_str("Invalid JDBC token `");
            text::push_char(&mut m, d);
            m.append("`");
            return Err(Error::new(m.as_str()));
        }
    }
    proof {
        assert(cs@.skip(n as int) =~= Seq::<char>::empty());
    }
    Err(Error::new("unclosed escape literal"))
}

// ---------------------------------------------------------------------------
// The parser, specified
// ---------------------------------------------------------------------------

/// The next token of a stream; an exhausted stream reads as end of input.
pub open spec fn peek_tok(ts: Seq<Tok>) -> Tok {
    if ts.len() > 0 {
        ts[0]
    } else {
        Tok::Eof
    }
}

/// The stream with its next token consumed.
pub open spec fn tail_toks(ts: Seq<Tok>) -> Seq<Tok> {
    if ts.len() > 0 {
        ts.drop_first()
    } else {
        ts
    }
}

/// Accumulate an identifier: atoms and escaped runs append their content;
/// any other token stops the read without being consumed.
pub open spec fn read_ident_rec(ts: Seq<Tok>, acc: Seq<char>) -> (Seq<char>, Seq<Tok>)
    decreases ts.len(),
{
    if ts.len() == 0 {
        (acc, ts)
    } else {
        match ts[0] {
            Tok::Atom(c) => read_ident_rec(ts.drop_first(), acc.push(c)),
            Tok::Escaped(sq) => read_ident_rec(ts.drop_first(), acc + sq),
            _ => (acc, ts),
        }
    }
}

/// What `read_ident` accumulates and what it leaves in the stream.
pub open spec fn read_ident_spec(ts: Seq<Tok>) -> (Seq<char>, Seq<Tok>) {
    read_ident_rec(ts, Seq::empty())
}

/// Reading an identifier never lengthens the stream.
pub proof fn lemma_read_ident_rec_len(ts: Seq<Tok>, acc: Seq<char>)
    ensures
        read_ident_rec(ts, acc).1.len() <= ts.len(),
    decreases ts.len(),
{
    if ts.len() > 0 {
        match ts[0] {
            Tok::Atom(c) => lemma_read_ident_rec_len(ts.drop_first(), acc.push(c)),
            Tok::Escaped(sq) => lemma_read_ident_rec_len(ts.drop_first(), acc + sq),
            _ => {},
        }
    }
}

/// A run of atoms matching the characters of `pat`, consumed in order.
pub open spec fn match_atoms(ts: Seq<Tok>, pat: Seq<char>) -> Option<Seq<Tok>>
    decreases pat.len(),
{
    if pat.len() == 0 {
        Some(ts)
    } else {
        match peek_tok(ts) {
            Tok::Atom(c) => if c == pat[0] {
                match_atoms(tail_toks(ts), pat.drop_first())
            } else {
                None
            },
            _ => None,
        }
    }
}

/// The numeric value of a port identifier: all characters must be decimal
/// digits and the value must fit 16 bits.
pub open spec fn parse_u16(s: Seq<char>) -> Result<u16, Fault> {
    if !text::all_digits(s) {
        Err(Fault::PortDigit)
    } else if text::dec_val(s) > 65535 {
        Err(Fault::PortRange)
    } else {
        Ok(text::dec_val(s) as u16)
    }
}

/// `jdbc:<suffix>://` — the literal atoms `jdbc`, a colon, a non-empty
/// identifier, then `://`. Yields the full sub-protocol and the rest.
pub open spec fn parse_prefix(ts: Seq<Tok>) -> Result<(Seq<char>, Seq<Tok>), Fault> {
    match match_atoms(ts, "jdbc"@) {
        None => Err(Fault::BadSubProtocol),
        Some(ts0) => if !(peek_tok(ts0) is Colon) {
            Err(Fault::BadSubProtocol)
        } else {
            let (sfx, ts1) = read_ident_spec(tail_toks(ts0));
            if sfx.len() == 0 {
                Err(Fault::BadSubProtocol)
            } else if !(peek_tok(ts1) is Colon) {
                Err(Fault::BadSubProtocol)
            } else if !(peek_tok(tail_toks(ts1)) is FSlash) {
                Err(Fault::BadSubProtocol)
            } else if !(peek_tok(tail_toks(tail_toks(ts1))) is FSlash) {
                Err(Fault::BadSubProtocol)
            } else {
                Ok(("jdbc:"@ + sfx, tail_toks(tail_toks(tail_toks(ts1)))))
            }
        },
    }
}

/// An optional server name: present when the next token is an atom or an
/// escaped run; it must then read as non-empty.
pub open spec fn parse_server(ts: Seq<Tok>) -> Result<(Option<Seq<char>>, Seq<Tok>), Fault> {
    if peek_tok(ts) is Atom || peek_tok(ts) is Escaped {
        let (s, ts1) = read_ident_spec(ts);
        if s.len() == 0 {
            Err(Fault::BadServer)
        } else {
            Ok((Some(s), ts1))
        }
    } else {
        Ok((None, ts))
    }
}

/// An optional instance name, introduced by a backslash.
pub open spec fn parse_instance(ts: Seq<Tok>) -> Result<(Option<Seq<char>>, Seq<Tok>), Fault> {
    if peek_tok(ts) is BSlash {
        let (s, ts1) = read_ident_spec(tail_toks(ts));
        if s.len() == 0 {
            Err(Fault::BadInstance)
        } else {
            Ok((Some(s), ts1))
        }
    } else {
        Ok((None, ts))
    }
}

/// An optional port, introduced by a colon.
pub open spec fn parse_port(ts: Seq<Tok>) -> Result<(Option<u16>, Seq<Tok>), Fault> {
    if peek_tok(ts) is Colon {
        let (s, ts1) = read_ident_spec(tail_toks(ts));
        if s.len() == 0 {
            Err(Fault::EmptyPort)
        } else {
            match parse_u16(s) {
                Ok(p) => Ok((Some(p), ts1)),
                Err(f) => Err(f),
            }
        }
    } else {
        Ok((None, ts))
    }
}

/// The property list: while a `;` is next, consume it; a trailing `;`
/// before end of input is tolerated; otherwise read `key=value`, case-fold
/// the key and keep the last value per key.
pub open spec fn parse_props_rec(ts: Seq<Tok>, acc: Seq<(Seq<char>, Seq<char>)>) -> Result<
    (Seq<(Seq<char>, Seq<char>)>, Seq<Tok>),
    Fault,
>
    decreases ts.len(),
    via parse_props_rec_decreases
{
    if peek_tok(ts) is Semi {
        let ts1 = tail_toks(ts);
        if peek_tok(ts1) is Eof {
            Ok((acc, tail_toks(ts1)))
        } else {
            let (k, ts2) = read_ident_spec(ts1);
            if k.len() == 0 {
                Err(Fault::BadPropKey)
            } else if !(peek_tok(ts2) is Eq) {
                Err(Fault::PropEqExpected)
            } else {
                let (v, ts3) = read_ident_spec(tail_toks(ts2));
                if v.len() == 0 {
                    Err(Fault::BadPropValue)
                } else {
                    parse_props_rec(ts3, props::upsert(acc, text::lower(k), v))
                }
            }
        }
    } else {
        Ok((acc, ts))
    }
}

#[via_fn]
proof fn parse_props_rec_decreases(ts: Seq<Tok>, acc: Seq<(Seq<char>, Seq<char>)>) {
    if peek_tok(ts) is Semi {
        let ts1 = tail_toks(ts);
        lemma_read_ident_rec_len(ts1, Seq::empty());
        let (k, ts2) = read_ident_spec(ts1);
        lemma_read_ident_rec_len(tail_toks(ts2), Seq::empty());
    }
}

/// The parsed model of a JDBC connection string.
pub struct JdbcModel {
    /// Always begins with the literal prefix `jdbc:`.
    pub sub_protocol: Seq<char>,
    pub server_name: Option<Seq<char>>,
    pub instance_name: Option<Seq<char>>,
    pub port: Option<u16>,
    /// Case-folded keys, last value per key.
    pub properties: Seq<(Seq<char>, Seq<char>)>,
}

/// Everything after the property list must be end of input.
pub open spec fn finish(
    sub: Seq<char>,
    server: Option<Seq<char>>,
    inst: Option<Seq<char>>,
    port: Option<u16>,
    r: Result<(Seq<(Seq<char>, Seq<char>)>, Seq<Tok>), Fault>,
) -> Result<JdbcModel, Fault> {
    match r {
        Err(f) => Err(f),
        Ok((ps, rest)) => if peek_tok(rest) is Eof {
            Ok(
                JdbcModel {
                    sub_protocol: sub,
                    server_name: server,
                    instance_name: inst,
                    port,
                    properties: ps,
                },
            )
        } else {
            Err(Fault::TrailingTok)
        },
    }
}

/// The model a token stream parses to.
pub open spec fn parse_toks(ts: Seq<Tok>) -> Result<JdbcModel, Fault> {
    match parse_prefix(ts) {
        Err(f) => Err(f),
        Ok((sub, ts)) => match parse_server(ts) {
            Err(f) => Err(f),
            Ok((server, ts)) => match parse_instance(ts) {
                Err(f) => Err(f),
                Ok((inst, ts)) => match parse_port(ts) {
                    Err(f) => Err(f),
                    Ok((port, ts)) => finish(sub, server, inst, port, parse_props_rec(
                        ts,
                        Seq::empty(),
                    )),
                },
            },
        },
    }
}

/// The model an input string parses to, or the fault that stops it.
pub open spec fn parse_spec(s: Seq<char>) -> Result<JdbcModel, Fault> {
    match lex(s) {
        Ok(ts) => parse_toks(ts),
        Err(f) => Err(f),
    }
}

// ---------------------------------------------------------------------------
// The parser, executed
// ---------------------------------------------------------------------------

/// Validate a sequence of atom tokens against the content of a string.
pub fn cmp_str(lexer: &mut Lexer, s: &str, err_msg: &str) -> (r: Result<(), Error>)
    ensures
        (match match_atoms(old(lexer).toks(), s@) {
            Some(rest) => r is Ok && final(lexer).toks() == rest,
            None => r matches Err(e) && e@ == err_msg@,
        }),
{
    let cs = text::str_chars(s);
    let ghost ts0 = old(lexer).toks();
    let n = cs.len();
    let mut k: usize = 0;
    proof {
        assert(cs@.skip(0) =~= cs@);
    }
    while k < n
        invariant
            k <= n,
            n == cs@.len(),
            cs@ == s@,
            ts0 == old(lexer).toks(),
            match_atoms(ts0, s@) == match_atoms(lexer.toks(), s@.skip(k as int)),
        decreases n - k,
    {
        proof {
            text::lemma_skip_step(cs@, k as int);
        }
        let tok = lexer.next();
        match tok.kind() {
            TokenKind::Atom(tchar) => {
                if *tchar != cs[k] {
                    return Err(Error::new(err_msg));
                }
            },
            _ => {
                return Err(Error::new(err_msg));
            },
        }
        k += 1;
    }
    proof {
        assert(s@.skip(n as int) =~= Seq::<char>::empty());
    }
    Ok(())
}

/// Read sequences of atoms and escaped runs into a string; empty reads are
/// rejected with the caller's message.
pub fn read_ident(lexer: &mut Lexer, err_msg: &str) -> (r: Result<String, Error>)
    ensures
        (match r {
            Ok(s) => read_ident_spec(old(lexer).toks()).0.len() > 0 && s@ == read_ident_spec(
                old(lexer).toks(),
            ).0,
            Err(e) => read_ident_spec(old(lexer).toks()).0.len() == 0 && e@ == err_msg@,
        }),
        final(lexer).toks() == read_ident_spec(old(lexer).toks()).1,
{
    let mut buf: Vec<char> = Vec::new();
    let ghost ts0 = old(lexer).toks();
    proof {
        assert(buf@ =~= Seq::<char>::empty());
    }
    loop
        invariant_except_break
            read_ident_rec(ts0, Seq::empty()) == read_ident_rec(lexer.toks(), buf@),
        ensures
            read_ident_rec(ts0, Seq::empty()) == (buf@, lexer.toks()),
        decreases lexer.toks().len(),
    {
        let t = lexer.peek();
        match t.kind() {
            TokenKind::Atom(_) => {},
            TokenKind::Escaped(_) => {},
            _ => {
                break;
            },
        }
        let tok = lexer.next();
        let Token { kind, loc: _ } = tok;
        match kind {
            TokenKind::Atom(c) => {
                buf.push(c);
            },
            TokenKind::Escaped(mut v) => {
                buf.append(&mut v);
            },
            _ => {
                proof {
                    assert(false);
                }
            },
        }
    }
    if buf.len() == 0 {
        Err(Error::new(err_msg))
    } else {
        Ok(text::chars_to_string(&buf))
    }
}

/// Parse a non-empty digit string into a 16-bit port number.
fn parse_port_digits(s: &String) -> (r: Result<u16, Error>)
    ensures
        (match parse_u16(s@) {
            Ok(p) => r matches Ok(x) && x == p,
            Err(f) => r matches Err(e) && e@ == fault_msg(f),
        }),
{
    let cs = text::str_chars(s.as_str());
    let n = cs.len();
    let mut k: usize = 0;
    while k < n
        invariant
            k <= n,
            n == cs@.len(),
            cs@ == s@,
            forall|j: int| 0 <= j < k ==> text::is_digit(s@[j]),
        decreases n - k,
    {
        let c = cs[k];
        if !('0' <= c && c <= '9') {
            return Err(Error::new("invalid digit found in string"));
        }
        k += 1;
    }
    let mut acc: u32 = 0;
    let mut i: usize = 0;
    proof {
        assert(s@.take(0) =~= Seq::<char>::empty());
    }
    while i < n
        invariant
            i <= n,
            n == cs@.len(),
            cs@ == s@,
            text::all_digits(s@),
            acc == text::dec_val(s@.take(i as int)),
            acc <= 65535,
        decreases n - i,
    {
        let c = cs[i];
        let d: u32 = (c as u32) - 48;
        proof {
            text::lemma_dec_val_step(s@, i as int);
        }
        let next: u32 = acc * 10 + d;
        if next > 65535 {
            proof {
                text::lemma_dec_val_mono(s@, i + 1);
            }
            return Err(Error::new("number too large to fit in target type"));
        }
        acc = next;
        i += 1;
    }
    proof {
        assert(s@.take(n as int) =~= s@);
    }
    Ok(acc as u16)
}

// ---------------------------------------------------------------------------
// The model
// ---------------------------------------------------------------------------

/// JDBC connection string parser for SqlServer.
///
/// Format:
/// `jdbc:sqlserver://[serverName[\instanceName][:portNumber]][;property=value]*`
#[derive(Debug)]
pub struct JdbcString {
    sub_protocol: String,
    server_name: Option<String>,
    instance_name: Option<String>,
    port: Option<u16>,
    properties: Props,
}

impl View for JdbcString {
    type V = JdbcModel;

    closed spec fn view(&self) -> JdbcModel {
        JdbcModel {
            sub_protocol: self.sub_protocol@,
            server_name: match self.server_name {
                Some(s) => Some(s@),
                None => None,
            },
            instance_name: match self.instance_name {
                Some(s) => Some(s@),
                None => None,
            },
            port: self.port,
            properties: self.properties@,
        }
    }
}

impl JdbcString {
    /// Parse an input string, yielding exactly the model of [`parse_spec`]
    /// or the error message of the fault that stops it.
    pub fn parse(input: &str) -> (r: Result<JdbcString, Error>)
        ensures
            (match parse_spec(input@) {
                Ok(m) => r matches Ok(j) && j@ == m,
                Err(f) => r matches Err(e) && e@ == fault_msg(f),
            }),
            r matches Ok(j) ==> props_wf(j@.properties),
    {
        let mut lexer = match Lexer::tokenize(input) {
            Ok(lx) => lx,
            Err(e) => {
                return Err(e);
            },
        };
        let ghost ts_all = lexer.toks();

        // jdbc:<suffix>://
        match cmp_str(&mut lexer, "jdbc", "Invalid JDBC sub-protocol") {
            Ok(()) => {},
            Err(e) => {
                return Err(e);
            },
        }
        let tok = lexer.next();
        match tok.kind() {
            TokenKind::Colon => {},
            _ => {
                return Err(Error::new("Invalid JDBC sub-protocol"));
            },
        }
        let sfx = match read_ident(&mut lexer, "Invalid JDBC sub-protocol") {
            Ok(s) => s,
            Err(e) => {
                return Err(e);
            },
        };
        let mut sub_protocol = String::from_str("jdbc:");
        sub_protocol.append(sfx.as_str());
        let tok = lexer.next();
        match tok.kind() {
            TokenKind::Colon => {},
            _ => {
                return Err(Error::new("Invalid JDBC sub-protocol"));
            },
        }
        let tok = lexer.next();
        match tok.kind() {
            TokenKind::FSlash => {},
            _ => {
                return Err(Error::new("Invalid JDBC sub-protocol"));
            },
        }
        let tok = lexer.next();
        match tok.kind() {
            TokenKind::FSlash => {},
            _ => {
                return Err(Error::new("Invalid JDBC sub-protocol"));
            },
        }
        proof {
            assert(parse_prefix(ts_all) == Ok::<(Seq<char>, Seq<Tok>), Fault>(
                (sub_protocol@, lexer.toks()),
            ));
        }
        let ghost ts_server = lexer.toks();

        // [serverName]
        let mut server_name: Option<String> = None;
        let t = lexer.peek();
        let is_ident = match t.kind() {
            TokenKind::Atom(_) => true,
            TokenKind::Escaped(_) => true,
            _ => false,
        };
        if is_ident {
            match read_ident(&mut lexer, "Invalid server name") {
                Ok(s) => {
                    server_name = Some(s);
                },
                Err(e) => {
                    return Err(e);
                },
            }
        }
        let ghost g_server = match &server_name {
            Some(s) => Some(s@),
            None => None,
        };
        proof {
            assert(parse_server(ts_server) == Ok::<(Option<Seq<char>>, Seq<Tok>), Fault>(
                (g_server, lexer.toks()),
            ));
        }
        let ghost ts_inst = lexer.toks();

        // [\instanceName]
        let mut instance_name: Option<String> = None;
        let t = lexer.peek();
        let has_inst = match t.kind() {
            TokenKind::BSlash => true,
            _ => false,
        };
        if has_inst {
            let _ = lexer.next();
            match read_ident(&mut lexer, "Invalid instance name") {
                Ok(s) => {
                    instance_name = Some(s);
                },
                Err(e) => {
                    return Err(e);
                },
            }
        }
        let ghost g_inst = match &instance_name {
            Some(s) => Some(s@),
            None => None,
        };
        proof {
            assert(parse_instance(ts_inst) == Ok::<(Option<Seq<char>>, Seq<Tok>), Fault>(
                (g_inst, lexer.toks()),
            ));
        }
        let ghost ts_port = lexer.toks();

        // [:port]
        let mut port: Option<u16> = None;
        let t = lexer.peek();
        let has_port = match t.kind() {
            TokenKind::Colon => true,
            _ => false,
        };
        if has_port {
            let _ = lexer.next();
            let digits = match read_ident(&mut lexer, "Invalid port") {
                Ok(s) => s,
                Err(e) => {
                    return Err(e);
                },
            };
            match parse_port_digits(&digits) {
                Ok(p) => {
                    port = Some(p);
                },
                Err(e) => {
                    return Err(e);
                },
            }
        }
        proof {
            assert(parse_port(ts_port) == Ok::<(Option<u16>, Seq<Tok>), Fault>(
                (port, lexer.toks()),
            ));
        }
        let ghost ts_props = lexer.toks();

        // [;property=value]* with a tolerated trailing `;`
        let mut properties = Props::new();
        proof {
            assert(properties@ =~= Seq::<(Seq<char>, Seq<char>)>::empty());
        }
        loop
            invariant_except_break
                lex(input@) == Ok::<Seq<Tok>, Fault>(ts_all),
                parse_prefix(ts_all) == Ok::<(Seq<char>, Seq<Tok>), Fault>((sub_protocol@, ts_server)),
                parse_server(ts_server) == Ok::<(Option<Seq<char>>, Seq<Tok>), Fault>(
                    (g_server, ts_inst),
                ),
                parse_instance(ts_inst) == Ok::<(Option<Seq<char>>, Seq<Tok>), Fault>(
                    (g_inst, ts_port),
                ),
                parse_port(ts_port) == Ok::<(Option<u16>, Seq<Tok>), Fault>((port, ts_props)),
                parse_props_rec(ts_props, Seq::empty()) == parse_props_rec(
                    lexer.toks(),
                    properties@,
                ),
            ensures
                parse_props_rec(ts_props, Seq::empty()) == Ok::<
                    (Seq<(Seq<char>, Seq<char>)>, Seq<Tok>),
                    Fault,
                >((properties@, lexer.toks())),
            decreases lexer.toks().len() + 1,
        {
            let ghost ts_it = lexer.toks();
            let t = lexer.peek();
            match t.kind() {
                TokenKind::Semi => {},
                _ => {
                    break;
                },
            }
            let _ = lexer.next();
            let t2 = lexer.peek();
            match t2.kind() {
                TokenKind::Eof => {
                    let _ = lexer.next();
                    break;
                },
                _ => {},
            }
            let ghost ts_key = lexer.toks();
            let key = match read_ident(&mut lexer, "Invalid property key") {
                Ok(s) => s,
                Err(e) => {
                    return Err(e);
                },
            };
            let tok = lexer.next();
            match tok.kind() {
                TokenKind::Eq => {},
                _ => {
                    return Err(Error::new("Property pairs must be joined by a `=`"));
                },
            }
            let ghost ts_val = lexer.toks();
            let value = match read_ident(&mut lexer, "Invalid property value") {
                Ok(s) => s,
                Err(e) => {
                    return Err(e);
                },
            };
            let key_lc = text::lowercase(key.as_str());
            properties.insert(key_lc, value);
            proof {
                lemma_read_ident_rec_len(ts_key, Seq::empty());
                lemma_read_ident_rec_len(ts_val, Seq::empty());
            }
        }

        let tok = lexer.next();
        match tok.kind() {
            TokenKind::Eof => {},
            _ => {
                return Err(Error::new("Invalid JDBC token"));
            },
        }

        let r = JdbcString { sub_protocol, server_name, instance_name, port, properties };
        proof {
            assert(parse_toks(ts_all) == Ok::<JdbcModel, Fault>(r@));
            assert(props_wf(Seq::<(Seq<char>, Seq<char>)>::empty()));
            lemma_parse_props_wf(ts_props, Seq::empty());
        }
        Ok(r)
    }

    /// Access the connection sub-protocol.
    pub fn sub_protocol(&self) -> (r: &str)
        ensures
            r@ == self@.sub_protocol,
    {
        self.sub_protocol.as_str()
    }

    /// Access the connection server name.
    pub fn server_name(&self) -> (r: Option<&str>)
        ensures
            (match r {
                Some(s) => self@.server_name matches Some(v) && s@ == v,
                None => self@.server_name is None,
            }),
    {
        match &self.server_name {
            Some(s) => Some(s.as_str()),
            None => None,
        }
    }

    /// Access the connection's instance name.
    pub fn instance_name(&self) -> (r: Option<&str>)
        ensures
            (match r {
                Some(s) => self@.instance_name matches Some(v) && s@ == v,
                None => self@.instance_name is None,
            }),
    {
        match &self.instance_name {
            Some(s) => Some(s.as_str()),
            None => None,
        }
    }

    /// Access the connection's port.
    pub fn port(&self) -> (r: Option<u16>)
        ensures
            r == self@.port,
    {
        self.port
    }

    /// Access the connection's key-value pairs.
    pub fn properties(&self) -> (r: &Props)
        ensures
            r@ == self@.properties,
    {
        &self.properties
    }

    /// Mutably access the connection's key-value pairs. No validation is
    /// performed on what the caller stores there.
    pub fn properties_mut(&mut self) -> (r: &mut Props)
        ensures
            r@ == old(self)@.properties,
            final(self)@.properties == final(r)@,
            final(self)@.sub_protocol == old(self)@.sub_protocol,
            final(self)@.server_name == old(self)@.server_name,
            final(self)@.instance_name == old(self)@.instance_name,
            final(self)@.port == old(self)@.port,
    {
        &mut self.properties
    }
}

// ---------------------------------------------------------------------------
// The serializer
// ---------------------------------------------------------------------------

/// The rendered form of a model: the sub-protocol and `://` verbatim, the
/// escaped server name, `\` and the escaped instance name, `:` and the
/// port in decimal, then each property as `;key=value`, trimmed and
/// escaped, with no trailing separator.
pub open spec fn render_jdbc(m: JdbcModel) -> Seq<char> {
    m.sub_protocol + "://"@ + (match m.server_name {
        Some(s) => text::escape_text(s),
        None => Seq::<char>::empty(),
    }) + (match m.instance_name {
        Some(s) => seq!['\\'] + text::escape_text(s),
        None => Seq::<char>::empty(),
    }) + (match m.port {
        Some(p) => seq![':'] + text::dec_str(p as int),
        None => Seq::<char>::empty(),
    }) + props::render_tail(m.properties)
}

/// Append the decimal digits of `n`.
fn push_dec(out: &mut Vec<char>, n: u16)
    ensures
        final(out)@ == old(out)@ + text::dec_str(n as int),
    decreases n,
{
    if n < 10 {
        out.push((((n as u8) + 48)) as char);
    } else {
        push_dec(out, n / 10);
        out.push(((((n % 10) as u8) + 48)) as char);
    }
}

impl JdbcString {
    /// Render the connection string back to text.
    pub fn to_string(&self) -> (r: String)
        ensures
            r@ == render_jdbc(self@),
    {
        let mut out: Vec<char> = Vec::new();
        text::append_str_chars(&mut out, self.sub_protocol.as_str());
        text::append_str_chars(&mut out, "://");
        match &self.server_name {
            Some(s) => {
                let t = text::str_chars(s.as_str());
                text::escape_append(&mut out, &t);
            },
            None => {},
        }
        match &self.instance_name {
            Some(s) => {
                out.push('\\');
                let t = text::str_chars(s.as_str());
                text::escape_append(&mut out, &t);
            },
            None => {},
        }
        match self.port {
            Some(p) => {
                out.push(':');
                push_dec(&mut out, p);
            },
            None => {},
        }
        let ghost head = out@;
        let n = self.properties.len();
        let mut i: usize = 0;
        proof {
            assert(self@.properties.skip(0) =~= self@.properties);
        }
        while i < n
            invariant
                i <= n,
                n == self@.properties.len(),
                head + props::render_tail(self@.properties) == out@ + props::render_tail(
                    self@.properties.skip(i as int),
                ),
            decreases n - i,
        {
            proof {
                text::lemma_skip_step(self@.properties, i as int);
            }
            out.push(';');
            let (k, v) = self.properties.entry_at(i);
            let tk = text::trim_chars(text::str_chars(k.as_str()));
            text::escape_append(&mut out, &tk);
            out.push('=');
            let tv = text::trim_chars(text::str_chars(v.as_str()));
            text::escape_append(&mut out, &tv);
            proof {
                assert(props::pair_text(self@.properties[i as int]) =~= text::escape_text(
                    text::trim_spec(self@.properties[i as int].0),
                ) + seq!['='] + text::escape_text(text::trim_spec(self@.properties[i as int].1)));
            }
            i += 1;
        }
        proof {
            assert(self@.properties.skip(n as int) =~= Seq::<(Seq<char>, Seq<char>)>::empty());
            assert(render_jdbc(self@) =~= head + props::render_tail(self@.properties));
        }
        text::chars_to_string(&out)
    }
}

// ---------------------------------------------------------------------------
// Round trip
// ---------------------------------------------------------------------------

/// A character that survives a serialize-and-reparse cycle: ASCII, and
/// not a closing brace, whose lexing depends on context the serializer
/// does not re-create.
pub open spec fn safe_char(c: char) -> bool {
    text::is_ascii_char(c) && c != '}'
}

/// Safe characters throughout.
pub open spec fn safe_chars(s: Seq<char>) -> bool {
    forall|i: int| 0 <= i < s.len() ==> safe_char(s[i])
}

/// A property key or value that survives the cycle: safe characters and
/// no whitespace at either end, which trimming would drop.
pub open spec fn safe_text(s: Seq<char>) -> bool {
    safe_chars(s) && (s.len() > 0 ==> !text::is_ws(s[0]) && !text::is_ws(s.last()))
}

/// ASCII with no structural or brace characters: rendered raw and lexed
/// back as plain atoms.
pub open spec fn plain_chars(s: Seq<char>) -> bool {
    forall|i: int| 0 <= i < s.len() ==> text::is_ascii_char(s[i]) && !text::is_special(s[i])
}

/// A key as the parser produces it: non-empty, with no upper-case ASCII.
pub open spec fn key_ok(k: Seq<char>) -> bool {
    k.len() > 0 && forall|i: int| 0 <= i < k.len() ==> !('A' <= k[i] && k[i] <= 'Z')
}

/// A property pair that survives the cycle; values are non-empty in this
/// dialect.
pub open spec fn pair_safe(p: (Seq<char>, Seq<char>)) -> bool {
    safe_text(p.0) && safe_text(p.1) && key_ok(p.0) && p.1.len() > 0
}

/// Every pair of the list is [`pair_safe`].
pub open spec fn pairs_safe(ps: Seq<(Seq<char>, Seq<char>)>) -> bool {
    forall|i: int| 0 <= i < ps.len() ==> #[trigger] pair_safe(ps[i])
}

/// The tokens the escaped form of `s` lexes back to.
pub open spec fn esc_toks(s: Seq<char>) -> Seq<Tok>
    decreases s.len(),
    via esc_toks_decreases
{
    if s.len() == 0 {
        Seq::empty()
    } else if text::is_special(s[0]) {
        seq![Tok::Escaped(s.take(text::special_run(s)))] + esc_toks(s.skip(text::special_run(s)))
    } else {
        seq![char_tok(s[0])] + esc_toks(s.drop_first())
    }
}

#[via_fn]
proof fn esc_toks_decreases(s: Seq<char>) {
    if s.len() > 0 && text::is_special(s[0]) {
        text::lemma_special_run(s);
    }
}

/// The tokens a raw character sequence lexes to, one per character.
pub open spec fn atoms_of(u: Seq<char>) -> Seq<Tok> {
    u.map_values(|c: char| char_tok(c))
}

/// Emitting nothing changes nothing.
proof fn lemma_emit_empty(r: Result<Seq<Tok>, Fault>)
    ensures
        emit(Seq::empty(), r) == r,
{
    match r {
        Ok(rest) => {
            assert(Seq::<Tok>::empty() + rest =~= rest);
        },
        Err(_) => {},
    }
}

/// Emissions concatenate.
proof fn lemma_emit_nest(a: Seq<Tok>, b: Seq<Tok>, r: Result<Seq<Tok>, Fault>)
    ensures
        emit(a, emit(b, r)) == emit(a + b, r),
{
    match r {
        Ok(rest) => {
            assert(a + (b + rest) =~= (a + b) + rest);
        },
        Err(_) => {},
    }
}

/// A cons in front of an emission is one longer emission.
proof fn lemma_cons_emit(t: Tok, a: Seq<Tok>, r: Result<Seq<Tok>, Fault>)
    ensures
        cons_tok(t, emit(a, r)) == emit(seq![t] + a, r),
{
    match r {
        Ok(rest) => {
            assert(seq![t] + (a + rest) =~= (seq![t] + a) + rest);
        },
        Err(_) => {},
    }
}

/// A braced run whose content has no closing brace lexes to one escaped
/// token holding exactly that content.
proof fn lemma_lex_braced_content(u: Seq<char>, acc: Seq<char>, rest: Seq<char>)
    requires
        forall|i: int| 0 <= i < u.len() ==> text::is_ascii_char(u[i]) && u[i] != '}',
    ensures
        lex_rec(u + seq!['}'] + rest, Scan::Braced(acc)) == cons_tok(
            Tok::Escaped(acc + u),
            lex_rec(rest, Scan::Top),
        ),
    decreases u.len(),
{
    let w = u + seq!['}'] + rest;
    if u.len() == 0 {
        assert(w[0] == '}');
        assert(w.drop_first() =~= rest);
        assert(acc + u =~= acc);
    } else {
        assert(w[0] == u[0]);
        assert(w.drop_first() =~= u.drop_first() + seq!['}'] + rest);
        lemma_lex_braced_content(u.drop_first(), acc.push(u[0]), rest);
        assert(acc.push(u[0]) + u.drop_first() =~= acc + u);
    }
}

/// Lexing the escaped form of a safe string, followed by anything, yields
/// its tokens followed by the lexing of the rest.
proof fn lemma_lex_escape(s: Seq<char>, t: Seq<char>)
    requires
        safe_chars(s),
    ensures
        lex_rec(text::escape_text(s) + t, Scan::Top) == emit(esc_toks(s), lex_rec(t, Scan::Top)),
    decreases s.len(),
{
    if s.len() == 0 {
        assert(text::escape_text(s) + t =~= t);
        lemma_emit_empty(lex_rec(t, Scan::Top));
    } else if text::is_special(s[0]) {
        let r = text::special_run(s);
        text::lemma_special_run(s);
        text::lemma_escape_group(s);
        let w = text::escape_text(s) + t;
        assert(w[0] == '{');
        assert(w.drop_first() =~= s.take(r) + seq!['}'] + (text::escape_rec(s.skip(r), false)
            + t));
        assert forall|i: int| 0 <= i < s.take(r).len() implies text::is_ascii_char(s.take(r)[i])
            && s.take(r)[i] != '}' by {
            assert(safe_char(s[i]));
        }
        lemma_lex_braced_content(s.take(r), Seq::empty(), text::escape_rec(s.skip(r), false) + t);
        assert(Seq::<char>::empty() + s.take(r) =~= s.take(r));
        lemma_lex_escape(s.skip(r), t);
        lemma_cons_emit(Tok::Escaped(s.take(r)), esc_toks(s.skip(r)), lex_rec(t, Scan::Top));
    } else {
        let w = text::escape_text(s) + t;
        assert(text::escape_text(s) =~= seq![s[0]] + text::escape_rec(s.drop_first(), false));
        assert(w[0] == s[0]);
        assert(w.drop_first() =~= text::escape_rec(s.drop_first(), false) + t);
        lemma_lex_escape(s.drop_first(), t);
        lemma_cons_emit(char_tok(s[0]), esc_toks(s.drop_first()), lex_rec(t, Scan::Top));
    }
}

/// Lexing raw characters with no opening brace yields one token per
/// character.
proof fn lemma_lex_plain(u: Seq<char>, t: Seq<char>)
    requires
        forall|i: int| 0 <= i < u.len() ==> text::is_ascii_char(u[i]) && u[i] != '{',
    ensures
        lex_rec(u + t, Scan::Top) == emit(atoms_of(u), lex_rec(t, Scan::Top)),
    decreases u.len(),
{
    if u.len() == 0 {
        assert(u + t =~= t);
        assert(atoms_of(u) =~= Seq::<Tok>::empty());
        lemma_emit_empty(lex_rec(t, Scan::Top));
    } else {
        let w = u + t;
        assert(w[0] == u[0]);
        assert(w.drop_first() =~= u.drop_first() + t);
        lemma_lex_plain(u.drop_first(), t);
        lemma_cons_emit(char_tok(u[0]), atoms_of(u.drop_first()), lex_rec(t, Scan::Top));
        assert(atoms_of(u) =~= seq![char_tok(u[0])] + atoms_of(u.drop_first()));
    }
}

/// The first token of a safe, non-empty string is an atom or an escaped
/// run.
proof fn lemma_esc_toks_head(s: Seq<char>)
    requires
        s.len() > 0,
        safe_chars(s),
    ensures
        esc_toks(s).len() > 0,
        esc_toks(s)[0] is Atom || esc_toks(s)[0] is Escaped,
{
    if text::is_special(s[0]) {
    } else {
        assert(safe_char(s[0]));
        assert(char_tok(s[0]) is Atom);
    }
}

/// Reading an identifier over the tokens of a safe escaped string puts
/// the string back into the buffer.
proof fn lemma_read_esc(s: Seq<char>, ts: Seq<Tok>, acc: Seq<char>)
    requires
        safe_chars(s),
    ensures
        read_ident_rec(esc_toks(s) + ts, acc) == read_ident_rec(ts, acc + s),
    decreases s.len(),
{
    if s.len() == 0 {
        assert(esc_toks(s) + ts =~= ts);
        assert(acc + s =~= acc);
    } else if text::is_special(s[0]) {
        let r = text::special_run(s);
        text::lemma_special_run(s);
        assert((esc_toks(s) + ts)[0] == Tok::Escaped(s.take(r)));
        assert((esc_toks(s) + ts).drop_first() =~= esc_toks(s.skip(r)) + ts);
        lemma_read_esc(s.skip(r), ts, acc + s.take(r));
        assert((acc + s.take(r)) + s.skip(r) =~= acc + s);
    } else {
        assert((esc_toks(s) + ts)[0] == char_tok(s[0]));
        assert(char_tok(s[0]) is Atom);
        assert((esc_toks(s) + ts).drop_first() =~= esc_toks(s.drop_first()) + ts);
        lemma_read_esc(s.drop_first(), ts, acc.push(s[0]));
        assert(acc.push(s[0]) + s.drop_first() =~= acc + s);
    }
}

/// Reading an identifier over raw atoms puts the characters back into the
/// buffer.
proof fn lemma_read_atoms(u: Seq<char>, ts: Seq<Tok>, acc: Seq<char>)
    requires
        plain_chars(u),
    ensures
        read_ident_rec(atoms_of(u) + ts, acc) == read_ident_rec(ts, acc + u),
    decreases u.len(),
{
    if u.len() == 0 {
        assert(atoms_of(u) + ts =~= ts);
        assert(acc + u =~= acc);
    } else {
        assert((atoms_of(u) + ts)[0] == char_tok(u[0]));
        assert(char_tok(u[0]) is Atom);
        assert((atoms_of(u) + ts).drop_first() =~= atoms_of(u.drop_first()) + ts);
        lemma_read_atoms(u.drop_first(), ts, acc.push(u[0]));
        assert(acc.push(u[0]) + u.drop_first() =~= acc + u);
    }
}

/// The tokens the rendered property list lexes back to.
pub open spec fn rt_toks(ps: Seq<(Seq<char>, Seq<char>)>) -> Seq<Tok>
    decreases ps.len(),
{
    if ps.len() == 0 {
        Seq::empty()
    } else {
        seq![Tok::Semi] + esc_toks(ps[0].0) + seq![Tok::Eq] + esc_toks(ps[0].1) + rt_toks(
            ps.drop_first(),
        )
    }
}

/// A rendered pair, under safety, is its escaped key, `=`, and its
/// escaped value.
proof fn lemma_pair_text_safe(p: (Seq<char>, Seq<char>))
    requires
        safe_text(p.0),
        safe_text(p.1),
    ensures
        props::pair_text(p) == text::escape_text(p.0) + seq!['='] + text::escape_text(p.1),
{
    text::lemma_trim_noop(p.0);
    text::lemma_trim_noop(p.1);
}

/// Lexing a rendered property list, followed by anything, yields its
/// tokens followed by the lexing of the rest.
proof fn lemma_lex_render_tail(ps: Seq<(Seq<char>, Seq<char>)>, t: Seq<char>)
    requires
        pairs_safe(ps),
    ensures
        lex_rec(props::render_tail(ps) + t, Scan::Top) == emit(rt_toks(ps), lex_rec(t, Scan::Top)),
    decreases ps.len(),
{
    if ps.len() == 0 {
        assert(props::render_tail(ps) + t =~= t);
        lemma_emit_empty(lex_rec(t, Scan::Top));
    } else {
        let k = ps[0].0;
        let v = ps[0].1;
        assert(pair_safe(ps[0]));
        lemma_pair_text_safe(ps[0]);
        let tv = props::render_tail(ps.drop_first()) + t;
        let te = seq!['='] + text::escape_text(v) + tv;
        let w = props::render_tail(ps) + t;
        assert(w[0] == ';');
        assert(w.drop_first() =~= text::escape_text(k) + te);
        lemma_lex_escape(k, te);
        assert(te[0] == '=');
        assert(te.drop_first() =~= text::escape_text(v) + tv);
        lemma_lex_escape(v, tv);
        lemma_lex_render_tail(ps.drop_first(), t);
        let lt = lex_rec(t, Scan::Top);
        lemma_cons_emit(Tok::Eq, esc_toks(v) + rt_toks(ps.drop_first()), lt);
        lemma_emit_nest(esc_toks(v), rt_toks(ps.drop_first()), lt);
        lemma_emit_nest(esc_toks(k), seq![Tok::Eq] + (esc_toks(v) + rt_toks(ps.drop_first())), lt);
        lemma_cons_emit(
            Tok::Semi,
            esc_toks(k) + (seq![Tok::Eq] + (esc_toks(v) + rt_toks(ps.drop_first()))),
            lt,
        );
        assert(seq![Tok::Semi] + (esc_toks(k) + (seq![Tok::Eq] + (esc_toks(v) + rt_toks(
            ps.drop_first(),
        )))) =~= rt_toks(ps));
    }
}

/// Parsing the rendered property list appends exactly those pairs to the
/// accumulator and consumes the whole stream.
proof fn lemma_parse_rt(ps: Seq<(Seq<char>, Seq<char>)>, acc: Seq<(Seq<char>, Seq<char>)>)
    requires
        pairs_safe(ps),
        props::keys_unique(acc + ps),
    ensures
        parse_props_rec(rt_toks(ps), acc) == Ok::<(Seq<(Seq<char>, Seq<char>)>, Seq<Tok>), Fault>(
            (acc + ps, Seq::empty()),
        ),
    decreases ps.len(),
{
    if ps.len() == 0 {
        assert(acc + ps =~= acc);
    } else {
        let k = ps[0].0;
        let v = ps[0].1;
        let drop = ps.drop_first();
        let ts = rt_toks(ps);
        assert(pair_safe(ps[0]));
        assert(ts[0] is Semi);
        let ts1 = esc_toks(k) + seq![Tok::Eq] + esc_toks(v) + rt_toks(drop);
        assert(tail_toks(ts) =~= ts1);
        lemma_esc_toks_head(k);
        assert(ts1[0] == esc_toks(k)[0]);
        assert(!(peek_tok(ts1) is Eof));
        let after_k = seq![Tok::Eq] + esc_toks(v) + rt_toks(drop);
        assert(ts1 =~= esc_toks(k) + after_k);
        lemma_read_esc(k, after_k, Seq::empty());
        assert(Seq::<char>::empty() + k =~= k);
        assert(after_k[0] is Eq);
        assert(read_ident_rec(after_k, k) == (k, after_k));
        assert(tail_toks(after_k) =~= esc_toks(v) + rt_toks(drop));
        lemma_read_esc(v, rt_toks(drop), Seq::empty());
        assert(Seq::<char>::empty() + v =~= v);
        if rt_toks(drop).len() > 0 {
            assert(rt_toks(drop)[0] is Semi);
            assert(read_ident_rec(rt_toks(drop), v) == (v, rt_toks(drop)));
        }
        text::lemma_lower_noop(k);
        assert(!props::has_key(acc, k)) by {
            props::lemma_has_key_index(acc, k);
            if props::has_key(acc, k) {
                let w = choose|w: int| props::has_key_at(acc, k, w);
                assert((acc + ps)[w].0 == (acc + ps)[acc.len() as int].0);
            }
        }
        props::lemma_upsert_absent(acc, k, v);
        assert(props::upsert(acc, k, v) =~= acc.push(ps[0]));
        assert forall|i: int| 0 <= i < drop.len() implies #[trigger] pair_safe(drop[i]) by {
            assert(pair_safe(ps[i + 1]));
        }
        assert(acc.push(ps[0]) + drop =~= acc + ps);
        lemma_parse_rt(drop, acc.push(ps[0]));
    }
}

/// A model that survives a serialize-and-reparse cycle: the sub-protocol
/// is `jdbc:` plus a plain, non-empty suffix; server and instance names,
/// if present, are non-empty with safe characters; properties are safe
/// with unique keys.
pub open spec fn model_safe(m: JdbcModel) -> bool {
    &&& m.sub_protocol.len() > 5
    &&& m.sub_protocol.take(5) == "jdbc:"@
    &&& plain_chars(m.sub_protocol.skip(5))
    &&& (match m.server_name {
        Some(s) => s.len() > 0 && safe_chars(s),
        None => true,
    })
    &&& (match m.instance_name {
        Some(s) => s.len() > 0 && safe_chars(s),
        None => true,
    })
    &&& pairs_safe(m.properties)
    &&& props::keys_unique(m.properties)
}

/// Serializing a safe model and parsing the result gives back exactly the
/// same model. A model whose text holds a closing brace followed by
/// another special character, or whitespace at the edge of a property,
/// may serialize to a string that parses differently.
#[verifier::rlimit(100)]
pub proof fn lemma_render_parse(m: JdbcModel)
    requires
        model_safe(m),
    ensures
        parse_spec(render_jdbc(m)) == Ok::<JdbcModel, Fault>(m),
{
    reveal_strlit("jdbc");
    reveal_strlit("jdbc:");
    reveal_strlit("://");
    let sfx = m.sub_protocol.skip(5);
    assert(m.sub_protocol =~= "jdbc:"@ + sfx);

    // the rendered text, piece by piece
    let w_props = props::render_tail(m.properties);
    let w_port = match m.port {
        Some(p) => seq![':'] + text::dec_str(p as int),
        None => Seq::<char>::empty(),
    };
    let w_inst = match m.instance_name {
        Some(s) => seq!['\\'] + text::escape_text(s),
        None => Seq::<char>::empty(),
    };
    let w_server = match m.server_name {
        Some(s) => text::escape_text(s),
        None => Seq::<char>::empty(),
    };
    let u_pre = m.sub_protocol + "://"@;
    let w = render_jdbc(m);
    assert(w =~= u_pre + (w_server + (w_inst + (w_port + w_props))));

    // lex it: raw prefix, escaped server, backslash and escaped instance,
    // colon and digits, rendered properties
    assert forall|i: int| 0 <= i < u_pre.len() implies text::is_ascii_char(u_pre[i]) && u_pre[i]
        != '{' by {
        if i < 5 {
            assert(u_pre[i] == "jdbc:"@[i]);
        } else if i < m.sub_protocol.len() {
            assert(u_pre[i] == sfx[i - 5]);
        } else {
            assert(u_pre[i] == "://"@[i - m.sub_protocol.len()]);
        }
    }
    lemma_lex_plain(u_pre, w_server + (w_inst + (w_port + w_props)));

    let t_props = rt_toks(m.properties);
    lemma_lex_render_tail(m.properties, Seq::empty());
    assert(w_props =~= w_props + Seq::<char>::empty());
    let lt0 = Ok::<Seq<Tok>, Fault>(Seq::<Tok>::empty());
    assert(lex_rec(Seq::<char>::empty(), Scan::Top) == lt0);
    assert(lex_rec(w_props, Scan::Top) == emit(t_props, lt0));

    let t_port = match m.port {
        Some(p) => seq![Tok::Colon] + atoms_of(text::dec_str(p as int)),
        None => Seq::<Tok>::empty(),
    };
    match m.port {
        Some(p) => {
            text::lemma_dec_str_val(p as int);
            assert forall|i: int|
                0 <= i < (seq![':'] + text::dec_str(p as int)).len() implies text::is_ascii_char(
                (seq![':'] + text::dec_str(p as int))[i],
            ) && (seq![':'] + text::dec_str(p as int))[i] != '{' by {
                if i > 0 {
                    assert(text::is_digit(text::dec_str(p as int)[i - 1]));
                }
            }
            lemma_lex_plain(seq![':'] + text::dec_str(p as int), w_props);
            assert(atoms_of(seq![':'] + text::dec_str(p as int)) =~= seq![Tok::Colon] + atoms_of(
                text::dec_str(p as int),
            ));
            lemma_emit_nest(seq![Tok::Colon] + atoms_of(text::dec_str(p as int)), t_props, lt0);
            assert(lex_rec(w_port + w_props, Scan::Top) == emit(t_port + t_props, lt0));
        },
        None => {
            assert(w_port + w_props =~= w_props);
            assert(t_port + t_props =~= t_props);
        },
    }

    let t_inst = match m.instance_name {
        Some(s) => seq![Tok::BSlash] + esc_toks(s),
        None => Seq::<Tok>::empty(),
    };
    match m.instance_name {
        Some(s) => {
            let w1 = text::escape_text(s) + (w_port + w_props);
            assert(w_inst + (w_port + w_props) =~= seq!['\\'] + w1);
            assert((seq!['\\'] + w1)[0] == '\\');
            assert((seq!['\\'] + w1).drop_first() =~= w1);
            lemma_lex_escape(s, w_port + w_props);
            lemma_emit_nest(esc_toks(s), t_port + t_props, lt0);
            lemma_cons_emit(Tok::BSlash, esc_toks(s) + (t_port + t_props), lt0);
            assert(seq![Tok::BSlash] + (esc_toks(s) + (t_port + t_props)) =~= t_inst + (t_port
                + t_props));
            assert(lex_rec(w_inst + (w_port + w_props), Scan::Top) == emit(
                t_inst + (t_port + t_props),
                lt0,
            ));
        },
        None => {
            assert(w_inst + (w_port + w_props) =~= w_port + w_props);
            assert(t_inst + (t_port + t_props) =~= t_port + t_props);
        },
    }

    let t_server = match m.server_name {
        Some(s) => esc_toks(s),
        None => Seq::<Tok>::empty(),
    };
    match m.server_name {
        Some(s) => {
            lemma_lex_escape(s, w_inst + (w_port + w_props));
            lemma_emit_nest(esc_toks(s), t_inst + (t_port + t_props), lt0);
            assert(lex_rec(w_server + (w_inst + (w_port + w_props)), Scan::Top) == emit(
                t_server + (t_inst + (t_port + t_props)),
                lt0,
            ));
        },
        None => {
            assert(w_server + (w_inst + (w_port + w_props)) =~= w_inst + (w_port + w_props));
            assert(t_server + (t_inst + (t_port + t_props)) =~= t_inst + (t_port + t_props));
        },
    }

    lemma_emit_nest(atoms_of(u_pre), t_server + (t_inst + (t_port + t_props)), lt0);
    let t_all = atoms_of(u_pre) + (t_server + (t_inst + (t_port + t_props)));
    assert(lex_rec(w, Scan::Top) == emit(t_all, lt0));
    assert(t_all + Seq::<Tok>::empty() =~= t_all);
    assert(lex(w) == Ok::<Seq<Tok>, Fault>(t_all));

    // parse the prefix: j d b c : <sfx> : / /
    let t_after_pre = t_server + (t_inst + (t_port + t_props));
    lemma_parse_prefix_toks(m.sub_protocol, t_after_pre);
    assert(t_all =~= atoms_of(m.sub_protocol + "://"@) + t_after_pre);
    assert(parse_prefix(t_all) == Ok::<(Seq<char>, Seq<Tok>), Fault>(
        (m.sub_protocol, t_after_pre),
    ));

    // server
    let t_after_server = t_inst + (t_port + t_props);
    match m.server_name {
        Some(s) => {
            lemma_esc_toks_head(s);
            assert(peek_tok(t_after_pre) == esc_toks(s)[0]);
            assert(t_after_pre =~= esc_toks(s) + t_after_server);
            lemma_read_esc(s, t_after_server, Seq::empty());
            assert(Seq::<char>::empty() + s =~= s);
            assert(peek_tok(t_after_server) is BSlash || peek_tok(t_after_server) is Colon
                || peek_tok(t_after_server) is Semi || peek_tok(t_after_server) is Eof) by {
                head_shape(m, t_after_server, t_port, t_props);
            }
            assert(read_ident_rec(t_after_server, s) == (s, t_after_server));
            assert(parse_server(t_after_pre) == Ok::<(Option<Seq<char>>, Seq<Tok>), Fault>(
                (m.server_name, t_after_server),
            ));
        },
        None => {
            assert(t_after_pre =~= t_after_server);
            assert(peek_tok(t_after_server) is BSlash || peek_tok(t_after_server) is Colon
                || peek_tok(t_after_server) is Semi || peek_tok(t_after_server) is Eof) by {
                head_shape(m, t_after_server, t_port, t_props);
            }
            assert(parse_server(t_after_pre) == Ok::<(Option<Seq<char>>, Seq<Tok>), Fault>(
                (m.server_name, t_after_server),
            ));
        },
    }

    // instance
    let t_after_inst = t_port + t_props;
    match m.instance_name {
        Some(s) => {
            assert(t_after_server =~= seq![Tok::BSlash] + (esc_toks(s) + t_after_inst));
            assert(peek_tok(t_after_server) is BSlash);
            assert(tail_toks(t_after_server) =~= esc_toks(s) + t_after_inst);
            lemma_read_esc(s, t_after_inst, Seq::empty());
            assert(Seq::<char>::empty() + s =~= s);
            assert(peek_tok(t_after_inst) is Colon || peek_tok(t_after_inst) is Semi || peek_tok(
                t_after_inst,
            ) is Eof) by {
                tail_shape(m, t_after_inst, t_props);
            }
            assert(read_ident_rec(t_after_inst, s) == (s, t_after_inst));
            assert(parse_instance(t_after_server) == Ok::<(Option<Seq<char>>, Seq<Tok>), Fault>(
                (m.instance_name, t_after_inst),
            ));
        },
        None => {
            assert(t_after_server =~= t_after_inst);
            assert(peek_tok(t_after_inst) is Colon || peek_tok(t_after_inst) is Semi || peek_tok(
                t_after_inst,
            ) is Eof) by {
                tail_shape(m, t_after_inst, t_props);
            }
            assert(!(peek_tok(t_after_server) is BSlash));
            assert(parse_instance(t_after_server) == Ok::<(Option<Seq<char>>, Seq<Tok>), Fault>(
                (m.instance_name, t_after_inst),
            ));
        },
    }

    // port
    match m.port {
        Some(p) => {
            text::lemma_dec_str_val(p as int);
            let d = text::dec_str(p as int);
            assert(t_after_inst =~= seq![Tok::Colon] + (atoms_of(d) + t_props));
            assert(peek_tok(t_after_inst) is Colon);
            assert(tail_toks(t_after_inst) =~= atoms_of(d) + t_props);
            assert forall|i: int| 0 <= i < d.len() implies text::is_ascii_char(d[i])
                && !text::is_special(d[i]) by {
                assert(text::is_digit(d[i]));
            }
            lemma_read_atoms(d, t_props, Seq::empty());
            assert(Seq::<char>::empty() + d =~= d);
            if t_props.len() > 0 {
                assert(t_props[0] is Semi);
            }
            assert(read_ident_rec(t_props, d) == (d, t_props));
            assert(parse_u16(d) == Ok::<u16, Fault>(p));
            assert(parse_port(t_after_inst) == Ok::<(Option<u16>, Seq<Tok>), Fault>(
                (m.port, t_props),
            ));
        },
        None => {
            assert(t_after_inst =~= t_props);
            if t_props.len() > 0 {
                assert(t_props[0] is Semi);
            }
            assert(!(peek_tok(t_after_inst) is Colon));
            assert(parse_port(t_after_inst) == Ok::<(Option<u16>, Seq<Tok>), Fault>(
                (m.port, t_props),
            ));
        },
    }

    // properties and the end of input
    assert(Seq::<(Seq<char>, Seq<char>)>::empty() + m.properties =~= m.properties);
    lemma_parse_rt(m.properties, Seq::empty());
    assert(peek_tok(Seq::<Tok>::empty()) is Eof);
    assert(parse_toks(t_all) == Ok::<JdbcModel, Fault>(m));
}

/// The tokens of the rendered prefix, past `jdbc:`, are the suffix atoms
/// followed by `://` and the rest.
proof fn lemma_pre_split(sub: Seq<char>, rest: Seq<Tok>)
    requires
        sub.len() > 5,
    ensures
        (atoms_of(sub + "://"@) + rest).skip(5) =~= atoms_of(sub.skip(5)) + (seq![
            Tok::Colon,
            Tok::FSlash,
            Tok::FSlash,
        ] + rest),
{
    reveal_strlit("://");
    let u_pre = sub + "://"@;
    let sfx = sub.skip(5);
    let lhs = (atoms_of(u_pre) + rest).skip(5);
    let rhs = atoms_of(sfx) + (seq![Tok::Colon, Tok::FSlash, Tok::FSlash] + rest);
    assert forall|i: int| 0 <= i < lhs.len() implies lhs[i] == rhs[i] by {
        if i < sfx.len() {
            assert(lhs[i] == atoms_of(u_pre)[i + 5]);
            assert(u_pre[i + 5] == sfx[i]);
        } else if i < sfx.len() + 3 {
            assert(lhs[i] == atoms_of(u_pre)[i + 5]);
            assert(u_pre[i + 5] == "://"@[i - sfx.len()]);
        } else {
            assert(lhs[i] == rest[i - sfx.len() - 3]);
        }
    }
}

/// Four leading `jdbc` atoms match the literal and leave the rest.
proof fn lemma_match_jdbc(ts0: Seq<Tok>)
    requires
        ts0.len() >= 4,
        ts0[0] == Tok::Atom('j'),
        ts0[1] == Tok::Atom('d'),
        ts0[2] == Tok::Atom('b'),
        ts0[3] == Tok::Atom('c'),
    ensures
        match_atoms(ts0, "jdbc"@) == Some(ts0.skip(4)),
{
    reveal_strlit("jdbc");
    assert("jdbc"@.len() == 4);
    assert("jdbc"@[0] == 'j' && "jdbc"@[1] == 'd' && "jdbc"@[2] == 'b' && "jdbc"@[3] == 'c');
    assert(match_atoms(ts0, "jdbc"@) == Some(ts0.skip(4))) by {
        reveal_with_fuel(match_atoms, 6);
        assert(peek_tok(ts0) == Tok::Atom('j'));
        assert(tail_toks(ts0) =~= ts0.skip(1));
        assert(peek_tok(ts0.skip(1)) == Tok::Atom('d'));
        assert(tail_toks(ts0.skip(1)) =~= ts0.skip(2));
        assert(peek_tok(ts0.skip(2)) == Tok::Atom('b'));
        assert(tail_toks(ts0.skip(2)) =~= ts0.skip(3));
        assert(peek_tok(ts0.skip(3)) == Tok::Atom('c'));
        assert(tail_toks(ts0.skip(3)) =~= ts0.skip(4));
        assert("jdbc"@.drop_first()[0] == 'd');
        assert("jdbc"@.drop_first().drop_first()[0] == 'b');
        assert("jdbc"@.drop_first().drop_first().drop_first()[0] == 'c');
        assert("jdbc"@.drop_first().drop_first().drop_first().drop_first().len() == 0);
    }
}

/// The rendered prefix `jdbc:<suffix>://`, lexed raw, parses back to the
/// whole sub-protocol and leaves the rest of the stream.
#[verifier::rlimit(100)]
proof fn lemma_parse_prefix_toks(sub: Seq<char>, rest: Seq<Tok>)
    requires
        sub.len() > 5,
        sub.take(5) == "jdbc:"@,
        plain_chars(sub.skip(5)),
    ensures
        parse_prefix(atoms_of(sub + "://"@) + rest) == Ok::<(Seq<char>, Seq<Tok>), Fault>(
            (sub, rest),
        ),
{
    reveal_strlit("jdbc");
    reveal_strlit("jdbc:");
    reveal_strlit("://");
    let sfx = sub.skip(5);
    let u_pre = sub + "://"@;
    let t_after_pre = rest;
    assert forall|i: int| 0 <= i < u_pre.len() implies #[trigger] atoms_of(u_pre)[i] == char_tok(
        u_pre[i],
    ) by {}
    assert forall|i: int| 0 <= i < 5 implies u_pre[i] == "jdbc:"@[i] by {
        assert(u_pre[i] == sub[i]);
        assert(sub[i] == sub.take(5)[i]);
    }
    let ts0 = atoms_of(u_pre) + rest;
    assert(ts0[0] == char_tok('j') && char_tok('j') == Tok::Atom('j'));
    assert(ts0[1] == char_tok('d') && char_tok('d') == Tok::Atom('d'));
    assert(ts0[2] == char_tok('b') && char_tok('b') == Tok::Atom('b'));
    assert(ts0[3] == char_tok('c') && char_tok('c') == Tok::Atom('c'));
    assert(ts0[4] == char_tok(':') && char_tok(':') == Tok::Colon);
    let ts4 = ts0.skip(4);
    lemma_match_jdbc(ts0);
    assert(peek_tok(ts4) is Colon);
    let ts5 = tail_toks(ts4);
    lemma_pre_split(sub, rest);
    assert(ts5 =~= ts0.skip(5));
    assert(ts5 =~= atoms_of(sfx) + (seq![Tok::Colon, Tok::FSlash, Tok::FSlash] + t_after_pre));
    lemma_read_atoms(sfx, seq![Tok::Colon, Tok::FSlash, Tok::FSlash] + t_after_pre, Seq::empty());
    assert(Seq::<char>::empty() + sfx =~= sfx);
    assert((seq![Tok::Colon, Tok::FSlash, Tok::FSlash] + t_after_pre)[0] is Colon);
    assert(read_ident_spec(ts5) == (
        sfx,
        seq![Tok::Colon, Tok::FSlash, Tok::FSlash] + t_after_pre,
    ));
    let tsl = seq![Tok::Colon, Tok::FSlash, Tok::FSlash] + t_after_pre;
    assert(peek_tok(tsl) is Colon);
    assert(tail_toks(tsl) =~= seq![Tok::FSlash, Tok::FSlash] + t_after_pre);
    assert(peek_tok(seq![Tok::FSlash, Tok::FSlash] + t_after_pre) is FSlash);
    assert(tail_toks(seq![Tok::FSlash, Tok::FSlash] + t_after_pre) =~= seq![Tok::FSlash]
        + t_after_pre);
    assert(peek_tok(seq![Tok::FSlash] + t_after_pre) is FSlash);
    assert(tail_toks(seq![Tok::FSlash] + t_after_pre) =~= t_after_pre);
    assert("jdbc:"@ + sfx =~= sub);
}

/// The head of the token stream after the server name is structural.
proof fn head_shape(m: JdbcModel, ts: Seq<Tok>, t_port: Seq<Tok>, t_props: Seq<Tok>)
    requires
        model_safe(m),
        t_props == rt_toks(m.properties),
        t_port == (match m.port {
            Some(p) => seq![Tok::Colon] + atoms_of(text::dec_str(p as int)),
            None => Seq::<Tok>::empty(),
        }),
        ts == (match m.instance_name {
            Some(s) => seq![Tok::BSlash] + esc_toks(s),
            None => Seq::<Tok>::empty(),
        }) + (t_port + t_props),
    ensures
        peek_tok(ts) is BSlash || peek_tok(ts) is Colon || peek_tok(ts) is Semi || peek_tok(
            ts,
        ) is Eof,
{
    match m.instance_name {
        Some(_) => {},
        None => {
            assert(ts =~= t_port + t_props);
            tail_shape(m, ts, t_props);
        },
    }
}

/// The head of the token stream after the instance name is structural.
proof fn tail_shape(m: JdbcModel, ts: Seq<Tok>, t_props: Seq<Tok>)
    requires
        model_safe(m),
        t_props == rt_toks(m.properties),
        ts == (match m.port {
            Some(p) => seq![Tok::Colon] + atoms_of(text::dec_str(p as int)),
            None => Seq::<Tok>::empty(),
        }) + t_props,
    ensures
        peek_tok(ts) is Colon || peek_tok(ts) is Semi || peek_tok(ts) is Eof,
{
    match m.port {
        Some(_) => {},
        None => {
            assert(ts =~= t_props);
            if t_props.len() > 0 {
                assert(t_props[0] is Semi);
            }
        },
    }
}

// ---------------------------------------------------------------------------
// Well-formedness of parsed properties, and the input-level round trip
// ---------------------------------------------------------------------------

/// Case folding yields a key without upper-case ASCII.
proof fn lemma_lower_key_ok(k: Seq<char>)
    requires
        k.len() > 0,
    ensures
        key_ok(text::lower(k)),
{
    assert forall|i: int| 0 <= i < text::lower(k).len() implies !('A' <= text::lower(k)[i]
        && text::lower(k)[i] <= 'Z') by {
        assert(text::lower(k)[i] == text::lower_char(k[i]));
    }
}

/// Unique, case-folded, non-empty keys and non-empty values, as the
/// property loop produces them.
pub open spec fn props_wf(ps: Seq<(Seq<char>, Seq<char>)>) -> bool {
    props::keys_unique(ps) && forall|i: int|
        0 <= i < ps.len() ==> #[trigger] key_ok(ps[i].0) && ps[i].1.len() > 0
}

/// Whatever the property loop returns is [`props_wf`].
pub proof fn lemma_parse_props_wf(ts: Seq<Tok>, acc: Seq<(Seq<char>, Seq<char>)>)
    requires
        props_wf(acc),
    ensures
        parse_props_rec(ts, acc) matches Ok(r) ==> props_wf(r.0),
    decreases ts.len(),
{
    if peek_tok(ts) is Semi {
        let ts1 = tail_toks(ts);
        if !(peek_tok(ts1) is Eof) {
            let (k, ts2) = read_ident_spec(ts1);
            if k.len() > 0 && peek_tok(ts2) is Eq {
                let (v, ts3) = read_ident_spec(tail_toks(ts2));
                if v.len() > 0 {
                    let acc2 = props::upsert(acc, text::lower(k), v);
                    assert(props::keys_unique(acc));
                    props::lemma_upsert_unique(acc, text::lower(k), v);
                    lemma_lower_key_ok(k);
                    assert forall|i: int|
                        0 <= i < acc2.len() implies #[trigger] key_ok(acc2[i].0)
                        && acc2[i].1.len() > 0 by {
                        if acc2[i].0 != text::lower(k) {
                            assert(props::has_key(acc, acc2[i].0));
                            props::lemma_has_key_index(acc, acc2[i].0);
                            let w = choose|w: int| props::has_key_at(acc, acc2[i].0, w);
                            assert(key_ok(acc[w].0) && acc[w].1.len() > 0);
                            assert(acc2[i].1.len() > 0) by {
                                lemma_upsert_values(acc, text::lower(k), v, i);
                            }
                        } else {
                            lemma_upsert_values(acc, text::lower(k), v, i);
                        }
                    }
                    lemma_read_ident_rec_len(ts1, Seq::empty());
                    lemma_read_ident_rec_len(tail_toks(ts2), Seq::empty());
                    lemma_parse_props_wf(ts3, acc2);
                }
            }
        }
    }
}

/// Every entry of an upsert is the new pair or one of the old entries.
proof fn lemma_upsert_values(
    ps: Seq<(Seq<char>, Seq<char>)>,
    k: Seq<char>,
    v: Seq<char>,
    i: int,
)
    requires
        0 <= i < props::upsert(ps, k, v).len(),
    ensures
        props::upsert(ps, k, v)[i] == (k, v) || exists|j: int|
            0 <= j < ps.len() && props::upsert(ps, k, v)[i] == #[trigger] ps[j],
    decreases ps.len(),
{
    let up = props::upsert(ps, k, v);
    if ps.len() == 0 {
    } else if ps[0].0 == k {
        if i > 0 {
            assert(up[i] == ps.drop_first()[i - 1]);
            assert(up[i] == ps[i]);
        }
    } else {
        if i > 0 {
            lemma_upsert_values(ps.drop_first(), k, v, i - 1);
            let upt = props::upsert(ps.drop_first(), k, v);
            assert(up[i] == upt[i - 1]);
            if upt[i - 1] != (k, v) {
                let j = choose|j: int|
                    0 <= j < ps.drop_first().len() && upt[i - 1] == #[trigger] ps.drop_first()[j];
                assert(up[i] == ps[j + 1]);
            }
        } else {
            assert(up[0] == ps[0]);
        }
    }
}

/// The fields of a model are safe for a serialize-and-reparse cycle,
/// without regard to what the parser itself guarantees.
pub open spec fn fields_safe(m: JdbcModel) -> bool {
    &&& plain_chars(m.sub_protocol.skip(5))
    &&& (match m.server_name {
        Some(x) => safe_chars(x),
        None => true,
    })
    &&& (match m.instance_name {
        Some(x) => safe_chars(x),
        None => true,
    })
    &&& (forall|i: int|
        0 <= i < m.properties.len() ==> #[trigger] safe_text(m.properties[i].0) && safe_text(
            m.properties[i].1,
        ))
}

/// Round trip from an input string: parsing, serializing and re-parsing
/// gives the same model, for inputs whose parsed fields are safe. An
/// input whose text holds a closing brace followed by another special
/// character, an escaped structural character in the sub-protocol suffix,
/// or escaped whitespace at the edge of a property, may serialize to a
/// different string.
pub proof fn lemma_parse_round_trip(s: Seq<char>)
    requires
        parse_spec(s) is Ok,
        fields_safe(parse_spec(s)->Ok_0),
    ensures
        parse_spec(render_jdbc(parse_spec(s)->Ok_0)) == parse_spec(s),
{
    reveal_strlit("jdbc:");
    let m = parse_spec(s)->Ok_0;
    let ts = lex(s)->Ok_0;
    let (sub, ts1) = parse_prefix(ts)->Ok_0;
    assert("jdbc:"@.len() == 5);
    assert(sub.take(5) =~= "jdbc:"@);
    let (_, ts2) = parse_server(ts1)->Ok_0;
    let (_, ts3) = parse_instance(ts2)->Ok_0;
    let (_, ts4) = parse_port(ts3)->Ok_0;
    assert(props_wf(Seq::<(Seq<char>, Seq<char>)>::empty()));
    lemma_parse_props_wf(ts4, Seq::empty());
    assert(props_wf(m.properties));
    assert(fields_safe(m));
    assert forall|i: int| 0 <= i < m.properties.len() implies #[trigger] pair_safe(
        m.properties[i],
    ) by {
        assert(safe_text(m.properties[i].0));
        assert(safe_text(m.properties[i].1));
        assert(key_ok(m.properties[i].0));
        assert(m.properties[i].1.len() > 0);
    }
    assert(model_safe(m));
    lemma_render_parse(m);
}

// ---------------------------------------------------------------------------
// Trailing semicolon tolerance
// ---------------------------------------------------------------------------

/// A stream with no end-of-input tokens, as the lexer produces them.
pub open spec fn no_eof(ts: Seq<Tok>) -> bool {
    forall|i: int| 0 <= i < ts.len() ==> !(#[trigger] ts[i] is Eof)
}

/// The lexer never emits an end-of-input token.
proof fn lemma_lex_no_eof(s: Seq<char>, m: Scan)
    ensures
        lex_rec(s, m) matches Ok(ts) ==> no_eof(ts),
    decreases s.len(), 1int,
{
    match m {
        Scan::Top => {
            if s.len() > 0 {
                let c = s[0];
                if c == '{' {
                    lemma_lex_no_eof(s.drop_first(), Scan::Braced(Seq::empty()));
                } else if text::is_ascii_char(c) {
                    lemma_lex_no_eof(s.drop_first(), Scan::Top);
                    if lex_rec(s.drop_first(), Scan::Top) is Ok {
                        let rest = lex_rec(s.drop_first(), Scan::Top)->Ok_0;
                        assert forall|i: int|
                            0 <= i < (seq![char_tok(c)] + rest).len() implies !(#[trigger] (seq![
                            char_tok(c),
                        ] + rest)[i] is Eof) by {
                            if i > 0 {
                                assert(!(rest[i - 1] is Eof));
                            } else {
                                assert(!(char_tok(c) is Eof));
                            }
                        }
                    }
                }
            }
        },
        Scan::Braced(acc) => {
            if s.len() > 0 {
                if s[0] == '}' {
                    lemma_lex_no_eof(s.drop_first(), Scan::Top);
                    if lex_rec(s.drop_first(), Scan::Top) is Ok {
                        let rest = lex_rec(s.drop_first(), Scan::Top)->Ok_0;
                        assert forall|i: int|
                            0 <= i < (seq![Tok::Escaped(acc)] + rest).len() implies !(
                            #[trigger] (seq![Tok::Escaped(acc)] + rest)[i] is Eof) by {
                            if i > 0 {
                                assert(!(rest[i - 1] is Eof));
                            }
                        }
                    }
                } else if text::is_ascii_char(s[0]) {
                    lemma_lex_no_eof(s.drop_first(), Scan::Braced(acc.push(s[0])));
                }
            }
        },
    }
}

/// Appending a character the lexer maps to its own token extends the
/// token sequence by that token.
proof fn lemma_lex_push_semi(s: Seq<char>, m: Scan)
    requires
        lex_rec(s, m) is Ok,
    ensures
        lex_rec(s.push(';'), m) == Ok::<Seq<Tok>, Fault>(lex_rec(s, m)->Ok_0.push(Tok::Semi)),
    decreases s.len(),
{
    let sp = s.push(';');
    match m {
        Scan::Top => {
            if s.len() == 0 {
                assert(sp[0] == ';');
                assert(sp.drop_first() =~= Seq::<char>::empty());
                assert(seq![Tok::Semi] + Seq::<Tok>::empty() =~= Seq::<
                    Tok,
                >::empty().push(Tok::Semi));
            } else {
                let c = s[0];
                assert(sp[0] == c);
                assert(sp.drop_first() =~= s.drop_first().push(';'));
                if c == '{' {
                    lemma_lex_push_semi(s.drop_first(), Scan::Braced(Seq::empty()));
                } else {
                    lemma_lex_push_semi(s.drop_first(), Scan::Top);
                    let rest = lex_rec(s.drop_first(), Scan::Top)->Ok_0;
                    assert(seq![char_tok(c)] + rest.push(Tok::Semi) =~= (seq![char_tok(c)]
                        + rest).push(Tok::Semi));
                }
            }
        },
        Scan::Braced(acc) => {
            assert(sp[0] == s[0]);
            assert(sp.drop_first() =~= s.drop_first().push(';'));
            if s[0] == '}' {
                lemma_lex_push_semi(s.drop_first(), Scan::Top);
                let rest = lex_rec(s.drop_first(), Scan::Top)->Ok_0;
                assert(seq![Tok::Escaped(acc)] + rest.push(Tok::Semi) =~= (seq![Tok::Escaped(acc)]
                    + rest).push(Tok::Semi));
            } else {
                lemma_lex_push_semi(s.drop_first(), Scan::Braced(acc.push(s[0])));
            }
        },
    }
}

/// Peeking and popping see through a pushed final token.
proof fn lemma_push_step(ts: Seq<Tok>, x: Tok)
    requires
        ts.len() > 0,
    ensures
        peek_tok(ts.push(x)) == peek_tok(ts),
        tail_toks(ts.push(x)) =~= tail_toks(ts).push(x),
{
}

/// Reading an identifier ignores a stop token appended at the end.
proof fn lemma_read_push(ts: Seq<Tok>, acc: Seq<char>)
    ensures
        read_ident_rec(ts.push(Tok::Semi), acc) == (
            read_ident_rec(ts, acc).0,
            read_ident_rec(ts, acc).1.push(Tok::Semi),
        ),
    decreases ts.len(),
{
    let tp = ts.push(Tok::Semi);
    if ts.len() == 0 {
        assert(tp[0] is Semi);
        assert(Seq::<Tok>::empty().push(Tok::Semi) =~= tp);
    } else {
        assert(tp[0] == ts[0]);
        assert(tp.drop_first() =~= ts.drop_first().push(Tok::Semi));
        match ts[0] {
            Tok::Atom(c) => {
                lemma_read_push(ts.drop_first(), acc.push(c));
            },
            Tok::Escaped(sq) => {
                lemma_read_push(ts.drop_first(), acc + sq);
            },
            _ => {},
        }
    }
}

/// Matching atoms ignores a token appended at the end.
proof fn lemma_match_push(ts: Seq<Tok>, pat: Seq<char>)
    requires
        match_atoms(ts, pat) is Some,
    ensures
        match_atoms(ts.push(Tok::Semi), pat) == Some(match_atoms(ts, pat)->0.push(Tok::Semi)),
    decreases pat.len(),
{
    if pat.len() > 0 {
        assert(ts.len() > 0);
        lemma_push_step(ts, Tok::Semi);
        lemma_match_push(tail_toks(ts), pat.drop_first());
    }
}

/// The stream left by an identifier read is a suffix of its input.
proof fn lemma_read_rest_suffix(ts: Seq<Tok>, acc: Seq<char>)
    ensures
        ({
            let rest = read_ident_rec(ts, acc).1;
            rest =~= ts.skip(ts.len() - rest.len())
        }),
    decreases ts.len(),
{
    if ts.len() > 0 {
        match ts[0] {
            Tok::Atom(c) => {
                lemma_read_ident_rec_len(ts.drop_first(), acc.push(c));
                lemma_read_rest_suffix(ts.drop_first(), acc.push(c));
                let rest = read_ident_rec(ts, acc).1;
                assert(rest.len() <= ts.len() - 1);
                assert(ts.drop_first().skip(ts.len() - 1 - rest.len()) =~= ts.skip(
                    ts.len() - rest.len(),
                ));
            },
            Tok::Escaped(sq) => {
                lemma_read_ident_rec_len(ts.drop_first(), acc + sq);
                lemma_read_rest_suffix(ts.drop_first(), acc + sq);
                let rest = read_ident_rec(ts, acc).1;
                assert(rest.len() <= ts.len() - 1);
                assert(ts.drop_first().skip(ts.len() - 1 - rest.len()) =~= ts.skip(
                    ts.len() - rest.len(),
                ));
            },
            _ => {
                assert(ts.skip(0) =~= ts);
            },
        }
    } else {
        assert(ts.skip(0) =~= ts);
    }
}

/// Appending a trailing `;` to a property stream that does not already
/// end in one leaves the parsed properties unchanged.
proof fn lemma_props_push_semi(ts: Seq<Tok>, acc: Seq<(Seq<char>, Seq<char>)>)
    requires
        no_eof(ts),
        !(ts.len() > 0 && ts.last() is Semi),
        parse_props_rec(ts, acc) matches Ok(r) && peek_tok(r.1) is Eof,
    ensures
        parse_props_rec(ts.push(Tok::Semi), acc) matches Ok(r2) && r2.0 == parse_props_rec(
            ts,
            acc,
        )->Ok_0.0 && peek_tok(r2.1) is Eof,
    decreases ts.len(),
{
    let tp = ts.push(Tok::Semi);
    if peek_tok(ts) is Semi {
        // ts is non-empty and does not end in `;`, so there are at least
        // two tokens and no end of input right after the separator
        assert(ts.len() >= 2) by {
            if ts.len() == 1 {
                assert(ts.last() is Semi);
            }
        }
        let ts1 = tail_toks(ts);
        assert(ts1.len() > 0);
        assert(!(peek_tok(ts1) is Eof)) by {
            assert(!(ts[1] is Eof));
        }
        let (k, ts2) = read_ident_spec(ts1);
        assert(k.len() > 0 && peek_tok(ts2) is Eq);
        let (v, ts3) = read_ident_spec(tail_toks(ts2));
        assert(v.len() > 0);
        // mirror the same steps on the pushed stream
        lemma_push_step(ts, Tok::Semi);
        assert(tail_toks(tp) =~= ts1.push(Tok::Semi));
        assert(!(peek_tok(ts1.push(Tok::Semi)) is Eof)) by {
            lemma_push_step(ts1, Tok::Semi);
        }
        lemma_read_push(ts1, Seq::empty());
        assert(ts2.len() > 0);
        lemma_push_step(ts2, Tok::Semi);
        lemma_read_push(tail_toks(ts2), Seq::empty());
        // the recursive stream is a suffix of the whole one, so it keeps
        // its last token and has no end-of-input tokens either
        lemma_read_ident_rec_len(ts1, Seq::empty());
        lemma_read_ident_rec_len(tail_toks(ts2), Seq::empty());
        lemma_read_rest_suffix(ts1, Seq::empty());
        lemma_read_rest_suffix(tail_toks(ts2), Seq::empty());
        assert(is_suffix(ts1, ts)) by {
            assert(ts1 =~= ts.skip(1));
        }
        assert(is_suffix(ts2, ts1));
        assert(is_suffix(tail_toks(ts2), ts2)) by {
            assert(tail_toks(ts2) =~= ts2.skip(1));
        }
        assert(is_suffix(ts3, tail_toks(ts2)));
        lemma_suffix_trans(ts3, tail_toks(ts2), ts2);
        lemma_suffix_trans(ts3, ts2, ts1);
        lemma_suffix_trans(ts3, ts1, ts);
        assert(no_eof(ts3)) by {
            assert forall|i: int| 0 <= i < ts3.len() implies !(#[trigger] ts3[i] is Eof) by {
                assert(ts3[i] == ts[ts.len() - ts3.len() + i]);
            }
        }
        assert(!(ts3.len() > 0 && ts3.last() is Semi)) by {
            if ts3.len() > 0 {
                assert(ts3[ts3.len() - 1] == ts[ts.len() - 1]);
            }
        }
        assert(ts3.len() < ts.len());
        lemma_props_push_semi(ts3, props::upsert(acc, text::lower(k), v));
        assert(tail_toks(ts2.push(Tok::Semi)) =~= tail_toks(ts2).push(Tok::Semi));
        assert(read_ident_spec(tail_toks(ts2.push(Tok::Semi))) == (v, ts3.push(Tok::Semi)));
    } else {
        // without the appended `;` the loop stops here, with nothing left
        let r = parse_props_rec(ts, acc)->Ok_0;
        assert(r.1 == ts);
        assert(ts.len() == 0) by {
            if ts.len() > 0 {
                assert(!(ts[0] is Eof));
            }
        }
        assert(tp =~= seq![Tok::Semi]);
        assert(peek_tok(tp) is Semi);
        assert(tail_toks(tp) =~= Seq::<Tok>::empty());
        assert(peek_tok(Seq::<Tok>::empty()) is Eof);
    }
}

/// A tolerated trailing semicolon: appending `;` to an input that parses
/// successfully and whose tokens do not already end in a separator
/// changes nothing about the result.
pub proof fn lemma_trailing_semi(s: Seq<char>)
    requires
        parse_spec(s) is Ok,
        !(lex(s)->Ok_0.len() > 0 && lex(s)->Ok_0.last() is Semi),
    ensures
        parse_spec(s.push(';')) == parse_spec(s),
{
    let ts = lex(s)->Ok_0;
    let tp = ts.push(Tok::Semi);
    lemma_lex_push_semi(s, Scan::Top);
    lemma_lex_no_eof(s, Scan::Top);
    let m = parse_spec(s)->Ok_0;

    // the prefix
    let (sub, ts1) = parse_prefix(ts)->Ok_0;
    let som = match_atoms(ts, "jdbc"@)->0;
    lemma_match_push(ts, "jdbc"@);
    assert(som.len() > 0);
    lemma_push_step(som, Tok::Semi);
    let (sfx, tsr) = read_ident_spec(tail_toks(som));
    lemma_read_push(tail_toks(som), Seq::empty());
    assert(tail_toks(som.push(Tok::Semi)) =~= tail_toks(som).push(Tok::Semi));
    assert(tsr.len() > 0);
    lemma_push_step(tsr, Tok::Semi);
    assert(tail_toks(tsr).len() > 0);
    lemma_push_step(tail_toks(tsr), Tok::Semi);
    assert(tail_toks(tail_toks(tsr)).len() > 0);
    lemma_push_step(tail_toks(tail_toks(tsr)), Tok::Semi);
    assert(tail_toks(tsr.push(Tok::Semi)) =~= tail_toks(tsr).push(Tok::Semi));
    assert(tail_toks(tail_toks(tsr).push(Tok::Semi)) =~= tail_toks(tail_toks(tsr)).push(
        Tok::Semi,
    ));
    assert(tail_toks(tail_toks(tail_toks(tsr)).push(Tok::Semi)) =~= tail_toks(
        tail_toks(tail_toks(tsr)),
    ).push(Tok::Semi));
    assert(parse_prefix(tp) == Ok::<(Seq<char>, Seq<Tok>), Fault>((sub, ts1.push(Tok::Semi))));

    // server
    let (srv, ts2) = parse_server(ts1)->Ok_0;
    if peek_tok(ts1) is Atom || peek_tok(ts1) is Escaped {
        assert(ts1.len() > 0);
        lemma_push_step(ts1, Tok::Semi);
        lemma_read_push(ts1, Seq::empty());
    } else {
        if ts1.len() > 0 {
            lemma_push_step(ts1, Tok::Semi);
        } else {
            assert(ts1.push(Tok::Semi) =~= seq![Tok::Semi]);
            assert(peek_tok(ts1.push(Tok::Semi)) is Semi);
        }
        assert(ts2 == ts1);
    }
    assert(parse_server(ts1.push(Tok::Semi)) == Ok::<(Option<Seq<char>>, Seq<Tok>), Fault>(
        (srv, ts2.push(Tok::Semi)),
    ));

    // instance
    let (ins, ts3) = parse_instance(ts2)->Ok_0;
    if peek_tok(ts2) is BSlash {
        assert(ts2.len() > 0);
        lemma_push_step(ts2, Tok::Semi);
        lemma_read_push(tail_toks(ts2), Seq::empty());
        assert(tail_toks(ts2.push(Tok::Semi)) =~= tail_toks(ts2).push(Tok::Semi));
    } else {
        if ts2.len() > 0 {
            lemma_push_step(ts2, Tok::Semi);
        } else {
            assert(ts2.push(Tok::Semi) =~= seq![Tok::Semi]);
        }
        assert(ts3 == ts2);
    }
    assert(parse_instance(ts2.push(Tok::Semi)) == Ok::<(Option<Seq<char>>, Seq<Tok>), Fault>(
        (ins, ts3.push(Tok::Semi)),
    ));

    // port
    let (prt, ts4) = parse_port(ts3)->Ok_0;
    if peek_tok(ts3) is Colon {
        assert(ts3.len() > 0);
        lemma_push_step(ts3, Tok::Semi);
        lemma_read_push(tail_toks(ts3), Seq::empty());
        assert(tail_toks(ts3.push(Tok::Semi)) =~= tail_toks(ts3).push(Tok::Semi));
    } else {
        if ts3.len() > 0 {
            lemma_push_step(ts3, Tok::Semi);
        } else {
            assert(ts3.push(Tok::Semi) =~= seq![Tok::Semi]);
        }
        assert(ts4 == ts3);
    }
    assert(parse_port(ts3.push(Tok::Semi)) == Ok::<(Option<u16>, Seq<Tok>), Fault>(
        (prt, ts4.push(Tok::Semi)),
    ));

    // ts4 is a suffix of ts, so it shares its last token and has no Eof
    lemma_suffix_chain(ts, ts1, ts2, ts3, ts4, som, tsr);
    lemma_props_push_semi(ts4, Seq::empty());
    assert(parse_toks(tp) == Ok::<JdbcModel, Fault>(m));
}

/// Each stage of the parser leaves a suffix of the token stream, so the
/// stream after the port shares the whole stream's last token and holds no
/// end-of-input tokens.
#[verifier::rlimit(100)]
proof fn lemma_suffix_chain(
    ts: Seq<Tok>,
    ts1: Seq<Tok>,
    ts2: Seq<Tok>,
    ts3: Seq<Tok>,
    ts4: Seq<Tok>,
    som: Seq<Tok>,
    tsr: Seq<Tok>,
)
    requires
        no_eof(ts),
        parse_prefix(ts) matches Ok(p) && p.1 == ts1,
        match_atoms(ts, "jdbc"@) == Some(som),
        read_ident_spec(tail_toks(som)).1 == tsr,
        parse_server(ts1) matches Ok(p) && p.1 == ts2,
        parse_instance(ts2) matches Ok(p) && p.1 == ts3,
        parse_port(ts3) matches Ok(p) && p.1 == ts4,
    ensures
        no_eof(ts4),
        ts4.len() > 0 ==> ts.len() > 0 && ts4.last() == ts.last(),
{
    lemma_match_suffix(ts, "jdbc"@);
    assert(is_suffix(som, ts));
    assert(som.len() > 0);
    assert(is_suffix(tail_toks(som), som)) by {
        assert(tail_toks(som) =~= som.skip(1));
    }
    lemma_read_ident_rec_len(tail_toks(som), Seq::empty());
    lemma_read_rest_suffix(tail_toks(som), Seq::empty());
    assert(is_suffix(tsr, tail_toks(som)));
    assert(tsr.len() >= 3);
    assert(is_suffix(ts1, tsr)) by {
        assert(ts1 =~= tsr.skip(3));
    }
    assert(is_suffix(ts2, ts1)) by {
        if peek_tok(ts1) is Atom || peek_tok(ts1) is Escaped {
            lemma_read_ident_rec_len(ts1, Seq::empty());
            lemma_read_rest_suffix(ts1, Seq::empty());
        } else {
            assert(ts2 =~= ts1.skip(0));
        }
    }
    assert(is_suffix(ts3, ts2)) by {
        if peek_tok(ts2) is BSlash {
            assert(is_suffix(tail_toks(ts2), ts2)) by {
                assert(tail_toks(ts2) =~= ts2.skip(1));
            }
            lemma_read_ident_rec_len(tail_toks(ts2), Seq::empty());
            lemma_read_rest_suffix(tail_toks(ts2), Seq::empty());
            assert(is_suffix(ts3, tail_toks(ts2)));
            lemma_suffix_trans(ts3, tail_toks(ts2), ts2);
        } else {
            assert(ts3 =~= ts2.skip(0));
        }
    }
    assert(is_suffix(ts4, ts3)) by {
        if peek_tok(ts3) is Colon {
            assert(is_suffix(tail_toks(ts3), ts3)) by {
                assert(tail_toks(ts3) =~= ts3.skip(1));
            }
            lemma_read_ident_rec_len(tail_toks(ts3), Seq::empty());
            lemma_read_rest_suffix(tail_toks(ts3), Seq::empty());
            assert(is_suffix(ts4, tail_toks(ts3)));
            lemma_suffix_trans(ts4, tail_toks(ts3), ts3);
        } else {
            assert(ts4 =~= ts3.skip(0));
        }
    }
    lemma_suffix_trans(tail_toks(som), som, ts);
    lemma_suffix_trans(tsr, tail_toks(som), ts);
    lemma_suffix_trans(ts1, tsr, ts);
    lemma_suffix_trans(ts2, ts1, ts);
    lemma_suffix_trans(ts3, ts2, ts);
    lemma_suffix_trans(ts4, ts3, ts);
    assert forall|i: int| 0 <= i < ts4.len() implies !(#[trigger] ts4[i] is Eof) by {
        assert(ts4[i] == ts[ts.len() - ts4.len() + i]);
    }
    if ts4.len() > 0 {
        assert(ts4[ts4.len() - 1] == ts[ts.len() - 1]);
    }
}

/// One sequence is a suffix of another.
pub open spec fn is_suffix(a: Seq<Tok>, b: Seq<Tok>) -> bool {
    a.len() <= b.len() && a =~= b.skip(b.len() - a.len())
}

/// Suffixes compose.
proof fn lemma_suffix_trans(a: Seq<Tok>, b: Seq<Tok>, c: Seq<Tok>)
    requires
        is_suffix(a, b),
        is_suffix(b, c),
    ensures
        is_suffix(a, c),
{
    assert forall|i: int| 0 <= i < a.len() implies a[i] == c.skip(c.len() - a.len())[i] by {
        assert(a[i] == b[b.len() - a.len() + i]);
        assert(b[b.len() - a.len() + i] == c[c.len() - a.len() + i]);
    }
    assert(a =~= c.skip(c.len() - a.len()));
}

/// A matched pattern leaves a suffix of the token stream.
proof fn lemma_match_suffix(ts: Seq<Tok>, pat: Seq<char>)
    ensures
        match_atoms(ts, pat) matches Some(rest) ==> is_suffix(rest, ts),
    decreases pat.len(),
{
    if pat.len() == 0 {
        assert(ts =~= ts.skip(0));
    } else if peek_tok(ts) is Atom {
        lemma_match_suffix(tail_toks(ts), pat.drop_first());
        if match_atoms(ts, pat) is Some {
            let rest = match_atoms(ts, pat)->0;
            assert(is_suffix(tail_toks(ts), ts)) by {
                assert(tail_toks(ts) =~= ts.skip(1));
            }
            lemma_suffix_trans(rest, tail_toks(ts), ts);
        }
    }
}

} // verus!
