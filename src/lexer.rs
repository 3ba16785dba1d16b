use vstd::prelude::*;
use crate::charset::Charset;
use crate::config::{Config, Error};

verus! {

pub const LPAREN: u8 = 0x28;
pub const RPAREN: u8 = 0x29;
pub const STAR: u8 = 0x2a;
pub const PLUS: u8 = 0x2b;
pub const COMMA: u8 = 0x2c;
pub const MINUS: u8 = 0x2d;
pub const DOT: u8 = 0x2e;
pub const QUESTION: u8 = 0x3f;
pub const UPPER_A: u8 = 0x41;
pub const UPPER_X: u8 = 0x58;
pub const UPPER_Z: u8 = 0x5a;
pub const LBRACKET: u8 = 0x5b;
pub const BACKSLASH: u8 = 0x5c;
pub const RBRACKET: u8 = 0x5d;
pub const CARET: u8 = 0x5e;
pub const LOWER_X: u8 = 0x78;
pub const LBRACE: u8 = 0x7b;
pub const BAR: u8 = 0x7c;
pub const RBRACE: u8 = 0x7d;

/// A structural unit of a pattern.
#[derive(Clone, Copy, Debug, PartialEq, Eq, Structural)]
pub enum Token {
    /// `)`, or the end of the pattern when the flag is set.
    Close(bool),
    /// `(`.
    Open,
    /// `|`.
    Union,
    /// `\A`, or the opening of an automatic group.
    StartGroup,
    /// `\Z`, or the closing of an automatic group.
    EndGroup,
    /// A quantifier: at least the first count, at most the second if any.
    Repeat(u32, Option<u32>),
    /// One byte out of the set.
    Char(Charset),
}

/// A token with its charset seen as a set of bytes.
pub enum Lexeme {
    Close(bool),
    Open,
    Union,
    StartGroup,
    EndGroup,
    Repeat(u32, Option<u32>),
    Char(Set<u8>),
}

impl View for Token {
    type V = Lexeme;

    open spec fn view(&self) -> Lexeme {
        match *self {
            Token::Close(e) => Lexeme::Close(e),
            Token::Open => Lexeme::Open,
            Token::Union => Lexeme::Union,
            Token::StartGroup => Lexeme::StartGroup,
            Token::EndGroup => Lexeme::EndGroup,
            Token::Repeat(a, b) => Lexeme::Repeat(a, b),
            Token::Char(c) => Lexeme::Char(c@),
        }
    }
}

/// The byte at `i`, if `i` is inside the input.
pub open spec fn byte_at(s: Seq<u8>, i: int) -> Option<u8> {
    if 0 <= i < s.len() {
        Some(s[i])
    } else {
        None
    }
}

/// The value of a hexadecimal digit, or 255 for any other byte.
pub open spec fn digit_value(c: u8) -> u8 {
    if 0x30 <= c <= 0x39 {
        (c - 0x30) as u8
    } else if 0x41 <= c <= 0x46 {
        (c - 0x41 + 10) as u8
    } else if 0x61 <= c <= 0x66 {
        (c - 0x61 + 10) as u8
    } else {
        255
    }
}

/// Reads the digits in `base` from `i` on, onto the value read so far; gives
/// the number (none if no digit was read) and the position after it.
pub open spec fn spec_number(s: Seq<u8>, i: int, base: u8, acc: Option<u8>) -> Result<
    (Option<u8>, int),
    Error,
>
    decreases s.len() - i,
{
    if 0 <= i < s.len() && digit_value(s[i]) < base {
        let v = acc.unwrap_or(0) * base + digit_value(s[i]);
        if v > 255 {
            Err(Error::Overflow)
        } else {
            spec_number(s, i + 1, base, Some(v as u8))
        }
    } else {
        Ok((acc, i))
    }
}

/// A quantifier `{...}` whose body starts at `i`.
pub open spec fn spec_repeat(s: Seq<u8>, i: int) -> Result<(Lexeme, int), Error> {
    match spec_number(s, i, 10, None) {
        Err(e) => Err(e),
        Ok((min, j)) => {
            let lo = min.unwrap_or(0) as u32;
            if byte_at(s, j) == Some(RBRACE) && min is Some && min != Some(0u8) {
                Ok((Lexeme::Repeat(lo, Some(lo)), j + 1))
            } else if byte_at(s, j) != Some(COMMA) {
                Err(Error::Repeat)
            } else {
                match spec_number(s, j + 1, 10, None) {
                    Err(e) => Err(e),
                    Ok((max, k)) => {
                        if byte_at(s, k) != Some(RBRACE) || max == Some(0u8) || lo
                            > max.unwrap_or(255) {
                            Err(Error::Repeat)
                        } else {
                            Ok(
                                (
                                    Lexeme::Repeat(
                                        lo,
                                        match max {
                                            Some(m) => Some(m as u32),
                                            None => None,
                                        },
                                    ),
                                    k + 1,
                                ),
                            )
                        }
                    },
                }
            }
        },
    }
}

/// An escape whose byte after `\` is at `i`.
pub open spec fn spec_escape(cfg: Config, s: Seq<u8>, i: int) -> Result<(Lexeme, int), Error> {
    match byte_at(s, i) {
        None => Err(Error::Escape),
        Some(c) => {
            if c == UPPER_A {
                Ok((Lexeme::StartGroup, i + 1))
            } else if c == UPPER_Z {
                Ok((Lexeme::EndGroup, i + 1))
            } else if c == LOWER_X || c == UPPER_X {
                match spec_number(s, i + 1, 16, None) {
                    Err(e) => Err(e),
                    Ok((None, _)) => Err(Error::Escape),
                    Ok((Some(v), j)) => Ok((Lexeme::Char(set![v]), j)),
                }
            } else if cfg.esc_charset@.contains_key(c) {
                Ok((Lexeme::Char(cfg.esc_charset@[c]@), i + 1))
            } else {
                Ok((Lexeme::Char(set![c]), i + 1))
            }
        },
    }
}

/// An escape inside a class, which must stand for a set of bytes.
pub open spec fn spec_class_escape(cfg: Config, s: Seq<u8>, i: int) -> Result<(Set<u8>, int), Error> {
    match spec_escape(cfg, s, i) {
        Err(e) => Err(e),
        Ok((Lexeme::Char(p), j)) => Ok((p, j)),
        Ok(_) => Err(Error::Escape),
    }
}

/// The greatest member of a set, if any.
pub open spec fn greatest(p: Set<u8>) -> Option<u8> {
    if exists|c: u8| p.contains(c) {
        Some(choose|c: u8| p.contains(c) && forall|d: u8| p.contains(d) ==> d <= c)
    } else {
        None
    }
}

/// The rest of a class `[...]` from `i` on, given the members so far, the
/// byte that a following `-` starts a range from, and whether the class is
/// inverted.
pub open spec fn spec_class(
    cfg: Config,
    s: Seq<u8>,
    i: int,
    set: Set<u8>,
    prev: Option<u8>,
    inv: bool,
) -> Result<(Set<u8>, int), Error>
    decreases s.len() - i,
{
    if i < 0 || i >= s.len() {
        Err(Error::Charset)
    } else {
        let c = s[i];
        if c == RBRACKET && set != Set::<u8>::empty() {
            Ok(
                (
                    if inv {
                        set.complement()
                    } else {
                        set
                    },
                    i + 1,
                ),
            )
        } else if c == BACKSLASH {
            match spec_class_escape(cfg, s, i + 1) {
                Err(e) => Err(e),
                Ok((p, j)) => if i < j <= s.len() {
                    spec_class(cfg, s, j, set.union(p), greatest(p), inv)
                } else {
                    Err(Error::Charset)
                },
            }
        } else if c == MINUS && prev is Some {
            let begin = prev.unwrap();
            match byte_at(s, i + 1) {
                None => Err(Error::Charset),
                Some(d) => {
                    if d == RBRACKET {
                        spec_class(cfg, s, i + 1, set.insert(MINUS), prev, inv)
                    } else {
                        let end: Result<(u8, int), Error> = if d == BACKSLASH {
                            match spec_class_escape(cfg, s, i + 2) {
                                Err(e) => Err(e),
                                Ok((p, j)) => match greatest(p) {
                                    None => Err(Error::Charset),
                                    Some(g) => Ok((g, j)),
                                },
                            }
                        } else {
                            Ok((d, i + 2))
                        };
                        match end {
                            Err(e) => Err(e),
                            Ok((e, j)) => if begin <= e && i < j <= s.len() {
                                spec_class(
                                    cfg,
                                    s,
                                    j,
                                    set.union(Set::new(|x: u8| begin <= x <= e)),
                                    None,
                                    inv,
                                )
                            } else {
                                Err(Error::Charset)
                            },
                        }
                    }
                },
            }
        } else {
            spec_class(cfg, s, i + 1, set.insert(c), Some(c), inv)
        }
    }
}

/// A class whose body (after `[`) starts at `i`.
pub open spec fn spec_class_start(cfg: Config, s: Seq<u8>, i: int) -> Result<(Set<u8>, int), Error> {
    if byte_at(s, i) == Some(CARET) {
        spec_class(cfg, s, i + 1, Set::empty(), None, true)
    } else {
        spec_class(cfg, s, i, Set::empty(), None, false)
    }
}

/// The token that starts at `i`, and the position after it. With automatic
/// groups, `(` reads as `StartGroup` here; the `Open` that follows it is
/// handed out by the next call.
pub open spec fn spec_token(cfg: Config, s: Seq<u8>, i: int) -> Result<(Lexeme, int), Error> {
    match byte_at(s, i) {
        None => Ok((Lexeme::Close(true), i)),
        Some(c) => {
            if c == LPAREN {
                Ok(
                    (
                        if cfg.auto_groups {
                            Lexeme::StartGroup
                        } else {
                            Lexeme::Open
                        },
                        i + 1,
                    ),
                )
            } else if c == RPAREN {
                Ok((Lexeme::Close(false), i + 1))
            } else if c == BAR {
                Ok((Lexeme::Union, i + 1))
            } else if c == DOT {
                Ok((Lexeme::Char(cfg.dot_charset@), i + 1))
            } else if c == STAR {
                Ok((Lexeme::Repeat(0, None), i + 1))
            } else if c == PLUS {
                Ok((Lexeme::Repeat(1, None), i + 1))
            } else if c == QUESTION {
                Ok((Lexeme::Repeat(0, Some(1)), i + 1))
            } else if c == LBRACKET {
                match spec_class_start(cfg, s, i + 1) {
                    Err(e) => Err(e),
                    Ok((p, j)) => Ok((Lexeme::Char(p), j)),
                }
            } else if c == LBRACE {
                spec_repeat(s, i + 1)
            } else if c == BACKSLASH {
                spec_escape(cfg, s, i + 1)
            } else {
                Ok((Lexeme::Char(set![c]), i + 1))
            }
        },
    }
}

/// The errors that reading a pattern can give.
pub open spec fn is_lexer_error(e: Error) -> bool {
    e == Error::Charset || e == Error::Escape || e == Error::Repeat || e == Error::Overflow
}

proof fn lemma_greatest(p: Set<u8>, c: u8)
    requires
        p.contains(c),
        forall|d: u8| c < d ==> !p.contains(d),
    ensures
        greatest(p) == Some(c),
{
    let x = choose|x: u8| p.contains(x) && forall|d: u8| p.contains(d) ==> d <= x;
    assert(p.contains(c) && forall|d: u8| p.contains(d) ==> d <= c);
    assert(c <= x);
}

/// The next token for a lexer at `pos` holding back `pend`, with the
/// position and held-back token after it.
pub open spec fn spec_next(cfg: Config, s: Seq<u8>, pos: int, pend: Option<Lexeme>) -> Result<
    (Lexeme, int, Option<Lexeme>),
    Error,
> {
    match pend {
        Some(t) => Ok((t, pos, None)),
        None => match spec_token(cfg, s, pos) {
            Err(e) => Err(e),
            Ok((t, j)) => Ok(
                (
                    t,
                    j,
                    if cfg.auto_groups && byte_at(s, pos) == Some(LPAREN) {
                        Some(Lexeme::Open)
                    } else if cfg.auto_groups && byte_at(s, pos) == Some(RPAREN) {
                        Some(Lexeme::EndGroup)
                    } else {
                        None
                    },
                ),
            ),
        },
    }
}

/// [`Lexer::remaining`] of a lexer at `pos` holding back `pend`.
pub open spec fn measure(s: Seq<u8>, pos: int, pend: Option<Lexeme>) -> int {
    2 * (s.len() - pos) + if pend is Some {
        1int
    } else {
        0
    }
}

/// The fuel for the step after a token that leaves the lexer with measure
/// `m`: one more than `m` when that is less than what is left.
pub open spec fn next_fuel(fuel: nat, m: int) -> nat {
    if 0 <= m && m + 1 < fuel {
        (m + 1) as nat
    } else {
        (fuel - 1) as nat
    }
}

/// The tokens read from the lexer state `(pos, pend)` up to and including
/// `Close(true)`, or the first error. Each token takes one unit of `fuel`;
/// the measure plus one is always enough.
pub open spec fn spec_tokens(cfg: Config, s: Seq<u8>, fuel: nat, pos: int, pend: Option<Lexeme>) -> Result<
    Seq<Lexeme>,
    Error,
>
    decreases fuel,
{
    if fuel == 0 {
        Err(Error::Empty)
    } else {
        match spec_next(cfg, s, pos, pend) {
            Err(e) => Err(e),
            Ok((t, p, d)) => if t == Lexeme::Close(true) {
                Ok(seq![t])
            } else {
                match spec_tokens(cfg, s, next_fuel(fuel, measure(s, p, d)), p, d) {
                    Err(e) => Err(e),
                    Ok(rest) => Ok(seq![t] + rest),
                }
            },
        }
    }
}

/// Reads a pattern token by token.
pub struct Lexer {
    input: Vec<u8>,
    pos: usize,
    peek: Option<Token>,
    config: Config,
}

impl Lexer {
    pub closed spec fn wf(&self) -> bool {
        &&& self.pos <= self.input.len()
        &&& (self.peek is None || self.peek == Some(Token::Open) || self.peek == Some(
            Token::EndGroup,
        ))
    }

    /// The pattern being read.
    pub closed spec fn input(&self) -> Seq<u8> {
        self.input@
    }

    /// How far the pattern has been read.
    pub closed spec fn pos(&self) -> int {
        self.pos as int
    }

    /// The token held back for the next call, if any.
    pub closed spec fn pending(&self) -> Option<Token> {
        self.peek
    }

    /// The configuration the pattern is read with.
    pub closed spec fn config(&self) -> Config {
        self.config
    }

    /// The token held back, seen as a lexeme.
    pub open spec fn pending_view(&self) -> Option<Lexeme> {
        match self.pending() {
            Some(t) => Some(t@),
            None => None,
        }
    }

    /// A measure that each token short of the end lowers.
    pub open spec fn remaining(&self) -> nat {
        (2 * (self.input().len() - self.pos()) + if self.pending() is Some {
            1int
        } else {
            0
        }) as nat
    }

    /// [`Lexer::remaining`] is the [`measure`] of the lexer's state.
    pub proof fn lemma_remaining(&self)
        requires
            self.wf(),
        ensures
            self.remaining() == measure(self.input(), self.pos(), self.pending_view()),
    {
        assert(self.pending() is Some <==> self.pending_view() is Some);
    }

    /// A lexer at the start of `s`.
    pub fn new(s: &[u8], config: Config) -> (r: Lexer)
        ensures
            r.wf(),
            r.input() == s@,
            r.pos() == 0,
            r.pending() is None,
            r.config() == config,
    {
        let mut input: Vec<u8> = Vec::new();
        let mut i: usize = 0;
        while i < s.len()
            invariant
                i <= s.len(),
                input@ == s@.subrange(0, i as int),
            decreases s.len() - i,
        {
            input.push(s[i]);
            i = i + 1;
            proof {
                assert(input@ =~= s@.subrange(0, i as int));
            }
        }
        proof {
            assert(input@ =~= s@);
        }
        Lexer { input, pos: 0, peek: None, config }
    }

    fn next_byte(&mut self) -> (r: Option<u8>)
        requires
            old(self).wf(),
        ensures
            final(self).wf(),
            r == byte_at(old(self).input(), old(self).pos()),
            final(self).input == old(self).input,
            final(self).peek == old(self).peek,
            final(self).config == old(self).config,
            final(self).pos == if r is Some {
                old(self).pos + 1
            } else {
                old(self).pos as int
            },
    {
        if self.pos < self.input.len() {
            let c = self.input[self.pos];
            self.pos = self.pos + 1;
            Some(c)
        } else {
            None
        }
    }

    fn digit(c: u8) -> (r: u8)
        ensures
            r == digit_value(c),
    {
        if 0x30 <= c && c <= 0x39 {
            c - 0x30
        } else if 0x41 <= c && c <= 0x46 {
            c - 0x41 + 10
        } else if 0x61 <= c && c <= 0x66 {
            c - 0x61 + 10
        } else {
            255
        }
    }

    fn atoi(&mut self, base: u8) -> (r: Result<Option<u8>, Error>)
        requires
            old(self).wf(),
            base == 10 || base == 16,
        ensures
            final(self).wf(),
            final(self).input == old(self).input,
            final(self).peek == old(self).peek,
            final(self).config == old(self).config,
            old(self).pos <= final(self).pos,
            r matches Err(e) ==> is_lexer_error(e),
            match spec_number(old(self).input(), old(self).pos(), base, None) {
                Ok((v, j)) => r == Ok::<Option<u8>, Error>(v) && final(self).pos() == j,
                Err(e) => r == Err::<Option<u8>, Error>(e),
            },
    {
        let ghost s = self.input@;
        let ghost start = self.pos as int;
        let mut res: Option<u8> = None;
        loop
            invariant
                self.wf(),
                self.input@ == s,
                self.input == old(self).input,
                self.peek == old(self).peek,
                self.config == old(self).config,
                old(self).pos <= self.pos,
                base == 10 || base == 16,
                s == old(self).input@,
                start == old(self).pos,
                spec_number(s, start, base, None) == spec_number(s, self.pos as int, base, res),
            decreases s.len() - self.pos,
        {
            if self.pos < self.input.len() && Lexer::digit(self.input[self.pos]) < base {
                let d = Lexer::digit(self.input[self.pos]);
                let acc: u16 = match res {
                    Some(v) => v as u16,
                    None => 0,
                };
                let scaled: u16 = if base == 10 {
                    acc * 10
                } else {
                    acc * 16
                };
                let v: u16 = scaled + d as u16;
                if v > 255 {
                    return Err(Error::Overflow);
                }
                res = Some(v as u8);
                self.pos = self.pos + 1;
            } else {
                proof {
                    assert(spec_number(s, self.pos as int, base, res) == Ok::<
                        (Option<u8>, int),
                        Error,
                    >((res, self.pos as int)));
                }
                return Ok(res);
            }
        }
    }

    fn repeat(&mut self) -> (r: Result<Token, Error>)
        requires
            old(self).wf(),
        ensures
            final(self).wf(),
            final(self).input == old(self).input,
            final(self).peek == old(self).peek,
            final(self).config == old(self).config,
            old(self).pos <= final(self).pos,
            r matches Err(e) ==> is_lexer_error(e),
            match spec_repeat(old(self).input(), old(self).pos()) {
                Ok((t, j)) => r matches Ok(tok) && tok@ == t && final(self).pos() == j,
                Err(e) => r == Err::<Token, Error>(e),
            },
    {
        let min = self.atoi(10)?;
        let lo: u32 = match min {
            Some(v) => v as u32,
            None => 0,
        };
        match self.next_byte() {
            Some(c) => {
                if c == RBRACE && min.is_some() && lo != 0 {
                    return Ok(Token::Repeat(lo, Some(lo)));
                }
                if c != COMMA {
                    return Err(Error::Repeat);
                }
            },
            None => {
                return Err(Error::Repeat);
            },
        }
        let max = self.atoi(10)?;
        let close = self.next_byte();
        let hi: u32 = match max {
            Some(v) => v as u32,
            None => 255,
        };
        if close != Some(RBRACE) || max == Some(0u8) || lo > hi {
            return Err(Error::Repeat);
        }
        Ok(
            Token::Repeat(
                lo,
                match max {
                    Some(v) => Some(v as u32),
                    None => None,
                },
            ),
        )
    }

    fn escape(&mut self) -> (r: Result<Token, Error>)
        requires
            old(self).wf(),
        ensures
            final(self).wf(),
            final(self).input == old(self).input,
            final(self).peek == old(self).peek,
            final(self).config == old(self).config,
            old(self).pos <= final(self).pos,
            r matches Err(e) ==> is_lexer_error(e),
            match spec_escape(old(self).config, old(self).input(), old(self).pos()) {
                Ok((t, j)) => r matches Ok(tok) && tok@ == t && final(self).pos() == j,
                Err(e) => r == Err::<Token, Error>(e),
            },
    {
        match self.next_byte() {
            None => Err(Error::Escape),
            Some(c) => {
                if c == UPPER_A {
                    Ok(Token::StartGroup)
                } else if c == UPPER_Z {
                    Ok(Token::EndGroup)
                } else if c == LOWER_X || c == UPPER_X {
                    match self.atoi(16)? {
                        None => Err(Error::Escape),
                        Some(v) => Ok(Token::Char(Charset::char(v))),
                    }
                } else {
                    match self.config.esc_charset.get(&c) {
                        Some(p) => Ok(Token::Char(*p)),
                        None => Ok(Token::Char(Charset::char(c))),
                    }
                }
            },
        }
    }

    fn char_escape(&mut self) -> (r: Result<Charset, Error>)
        requires
            old(self).wf(),
        ensures
            final(self).wf(),
            final(self).input == old(self).input,
            final(self).peek == old(self).peek,
            final(self).config == old(self).config,
            old(self).pos <= final(self).pos,
            r matches Err(e) ==> is_lexer_error(e),
            match spec_class_escape(old(self).config, old(self).input(), old(self).pos()) {
                Ok((p, j)) => r matches Ok(cs) && cs@ == p && final(self).pos() == j,
                Err(e) => r == Err::<Charset, Error>(e),
            },
    {
        match self.escape()? {
            Token::Char(c) => Ok(c),
            _ => Err(Error::Escape),
        }
    }

    fn charset(&mut self) -> (r: Result<Charset, Error>)
        requires
            old(self).wf(),
        ensures
            final(self).wf(),
            final(self).input == old(self).input,
            final(self).peek == old(self).peek,
            final(self).config == old(self).config,
            old(self).pos <= final(self).pos,
            r matches Err(e) ==> is_lexer_error(e),
            match spec_class_start(old(self).config, old(self).input(), old(self).pos()) {
                Ok((p, j)) => r matches Ok(cs) && cs@ == p && final(self).pos() == j,
                Err(e) => r == Err::<Charset, Error>(e),
            },
    {
        let ghost s = self.input@;
        let ghost start = self.pos as int;
        let ghost cfg = self.config;
        let mut set = Charset::new();
        let mut prev: Option<u8> = None;
        let inv = if self.pos < self.input.len() && self.input[self.pos] == CARET {
            self.pos = self.pos + 1;
            true
        } else {
            false
        };
        loop
            invariant
                self.wf(),
                self.input@ == s,
                s == old(self).input@,
                cfg == old(self).config,
                start == old(self).pos,
                self.input == old(self).input,
                self.peek == old(self).peek,
                self.config == old(self).config,
                old(self).pos <= self.pos,
                spec_class_start(cfg, s, start) == spec_class(
                    cfg,
                    s,
                    self.pos as int,
                    set@,
                    prev,
                    inv,
                ),
            decreases s.len() - self.pos,
        {
            let ghost i = self.pos as int;
            let c = match self.next_byte() {
                None => {
                    return Err(Error::Charset);
                },
                Some(c) => c,
            };
            if c == RBRACKET && !set.empty() {
                return Ok(
                    if inv {
                        set.inv()
                    } else {
                        set
                    },
                );
            } else if c == BACKSLASH {
                let p = self.char_escape()?;
                let mut it = p.iter();
                let last = it.next_back();
                proof {
                    match last {
                        Some(g) => lemma_greatest(p@, g),
                        None => {},
                    }
                }
                prev = last;
                set.add(&p);
            } else if c == MINUS && prev.is_some() {
                let begin = prev.unwrap();
                match self.next_byte() {
                    None => {
                        return Err(Error::Charset);
                    },
                    Some(d) => {
                        if d == RBRACKET {
                            self.pos = self.pos - 1;
                            set.add_char(MINUS);
                        } else {
                            let e: u8 = if d == BACKSLASH {
                                let p = self.char_escape()?;
                                let mut it = p.iter();
                                match it.next_back() {
                                    None => {
                                        return Err(Error::Charset);
                                    },
                                    Some(g) => {
                                        proof {
                                            lemma_greatest(p@, g);
                                        }
                                        g
                                    },
                                }
                            } else {
                                d
                            };
                            if begin > e {
                                return Err(Error::Charset);
                            }
                            let ghost before = set@;
                            set.add_range(begin, e);
                            proof {
                                assert(set@ =~= before.union(Set::new(|x: u8| begin <= x <= e)));
                            }
                            prev = None;
                        }
                    },
                }
            } else {
                set.add_char(c);
                prev = Some(c);
            }
        }
    }

    /// The next token. A token held back (the `Open` after an automatic
    /// `StartGroup`, the `EndGroup` after a `)`) comes first; at the end of
    /// the pattern every call gives `Close(true)`.
    pub fn token(&mut self) -> (r: Result<Token, Error>)
        requires
            old(self).wf(),
        ensures
            final(self).wf(),
            final(self).input() == old(self).input(),
            final(self).config() == old(self).config(),
            match old(self).pending() {
                Some(t) => {
                    &&& r == Ok::<Token, Error>(t)
                    &&& final(self).pos() == old(self).pos()
                    &&& final(self).pending() is None
                },
                None => match spec_token(old(self).config(), old(self).input(), old(self).pos()) {
                    Ok((t, j)) => {
                        &&& r matches Ok(tok) && tok@ == t
                        &&& final(self).pos() == j
                        &&& final(self).pending() == if old(self).config().auto_groups && byte_at(
                            old(self).input(),
                            old(self).pos(),
                        ) == Some(LPAREN) {
                            Some(Token::Open)
                        } else if old(self).config().auto_groups && byte_at(
                            old(self).input(),
                            old(self).pos(),
                        ) == Some(RPAREN) {
                            Some(Token::EndGroup)
                        } else {
                            None
                        }
                    },
                    Err(e) => r == Err::<Token, Error>(e),
                },
            },
            match spec_next(old(self).config(), old(self).input(), old(self).pos(), old(self).pending_view()) {
                Ok((t, j, d)) => r matches Ok(tok) && tok@ == t && final(self).pos() == j
                    && final(self).pending_view() == d,
                Err(e) => r == Err::<Token, Error>(e),
            },
            old(self).remaining() == measure(old(self).input(), old(self).pos(), old(self).pending_view()),
            final(self).remaining() == measure(final(self).input(), final(self).pos(), final(self).pending_view()),
            r matches Err(e) ==> is_lexer_error(e),
            final(self).remaining() <= old(self).remaining(),
            r matches Ok(Token::Repeat(a, b)) ==> a <= 255 && (b matches Some(m) ==> 1 <= m <= 255
                && a <= m),
            r is Err || r == Ok::<Token, Error>(Token::Close(true)) || final(self).remaining()
                < old(self).remaining(),
            r == Ok::<Token, Error>(Token::Close(true)) ==> final(self).remaining() == old(
                self,
            ).remaining() && old(self).pos() == old(self).input().len(),
    {
        if let Some(t) = self.peek {
            self.peek = None;
            return Ok(t);
        }
        let c = match self.next_byte() {
            None => {
                return Ok(Token::Close(true));
            },
            Some(c) => c,
        };
        if c == LPAREN {
            if self.config.auto_groups {
                self.peek = Some(Token::Open);
                Ok(Token::StartGroup)
            } else {
                Ok(Token::Open)
            }
        } else if c == RPAREN {
            if self.config.auto_groups {
                self.peek = Some(Token::EndGroup);
            }
            Ok(Token::Close(false))
        } else if c == BAR {
            Ok(Token::Union)
        } else if c == DOT {
            Ok(Token::Char(self.config.dot_charset))
        } else if c == STAR {
            Ok(Token::Repeat(0, None))
        } else if c == PLUS {
            Ok(Token::Repeat(1, None))
        } else if c == QUESTION {
            Ok(Token::Repeat(0, Some(1)))
        } else if c == LBRACKET {
            Ok(Token::Char(self.charset()?))
        } else if c == LBRACE {
            self.repeat()
        } else if c == BACKSLASH {
            self.escape()
        } else {
            Ok(Token::Char(Charset::char(c)))
        }
    }
}

/// The token read where `s` holds `w` from `i` on.
proof fn lemma_spelling(cfg: Config, s: Seq<u8>, i: int, w: Seq<u8>, t: Lexeme)
    requires
        0 <= i,
        1 <= w.len() <= 5,
        i + w.len() <= s.len(),
        s.subrange(i, i + w.len()) == w,
        w == seq![QUESTION] && t == Lexeme::Repeat(0, Some(1)) || w == seq![
            LBRACE,
            COMMA,
            0x31u8,
            RBRACE,
        ] && t == Lexeme::Repeat(0, Some(1)) || w == seq![LBRACE, 0x30u8, COMMA, 0x31u8, RBRACE]
            && t == Lexeme::Repeat(0, Some(1)) || w == seq![STAR] && t == Lexeme::Repeat(0, None)
            || w == seq![LBRACE, COMMA, RBRACE] && t == Lexeme::Repeat(0, None) || w == seq![
            LBRACE,
            0x30u8,
            COMMA,
            RBRACE,
        ] && t == Lexeme::Repeat(0, None) || w == seq![PLUS] && t == Lexeme::Repeat(1, None)
            || w == seq![LBRACE, 0x31u8, COMMA, RBRACE] && t == Lexeme::Repeat(1, None),
    ensures
        spec_token(cfg, s, i) == Ok::<(Lexeme, int), Error>((t, i + w.len())),
{
    assert forall|k: int| 0 <= k < w.len() implies s[i + k] == w[k] by {
        assert(s.subrange(i, i + w.len())[k] == s[i + k]);
    }
    assert(s[i] == w[0]);
    if w.len() >= 2 {
        assert(s[i + 1] == w[1]);
    }
    if w.len() >= 3 {
        assert(s[i + 2] == w[2]);
    }
    if w.len() >= 4 {
        assert(s[i + 3] == w[3]);
    }
    if w.len() >= 5 {
        assert(s[i + 4] == w[4]);
    }
    if w == seq![LBRACE, COMMA, 0x31u8, RBRACE] {
        assert(spec_number(s, i + 1, 10, None) == Ok::<(Option<u8>, int), Error>((None, i + 1)));
        assert(spec_number(s, i + 3, 10, Some(1u8)) == Ok::<(Option<u8>, int), Error>(
            (Some(1u8), i + 3),
        ));
        assert(spec_number(s, i + 2, 10, None) == Ok::<(Option<u8>, int), Error>(
            (Some(1u8), i + 3),
        ));
    } else if w == seq![LBRACE, 0x30u8, COMMA, 0x31u8, RBRACE] {
        assert(spec_number(s, i + 2, 10, Some(0u8)) == Ok::<(Option<u8>, int), Error>(
            (Some(0u8), i + 2),
        ));
        assert(spec_number(s, i + 1, 10, None) == Ok::<(Option<u8>, int), Error>(
            (Some(0u8), i + 2),
        ));
        assert(spec_number(s, i + 4, 10, Some(1u8)) == Ok::<(Option<u8>, int), Error>(
            (Some(1u8), i + 4),
        ));
        assert(spec_number(s, i + 3, 10, None) == Ok::<(Option<u8>, int), Error>(
            (Some(1u8), i + 4),
        ));
    } else if w == seq![LBRACE, COMMA, RBRACE] {
        assert(spec_number(s, i + 1, 10, None) == Ok::<(Option<u8>, int), Error>((None, i + 1)));
        assert(spec_number(s, i + 2, 10, None) == Ok::<(Option<u8>, int), Error>((None, i + 2)));
    } else if w == seq![LBRACE, 0x30u8, COMMA, RBRACE] {
        assert(spec_number(s, i + 2, 10, Some(0u8)) == Ok::<(Option<u8>, int), Error>(
            (Some(0u8), i + 2),
        ));
        assert(spec_number(s, i + 1, 10, None) == Ok::<(Option<u8>, int), Error>(
            (Some(0u8), i + 2),
        ));
        assert(spec_number(s, i + 3, 10, None) == Ok::<(Option<u8>, int), Error>((None, i + 3)));
    } else if w == seq![LBRACE, 0x31u8, COMMA, RBRACE] {
        assert(spec_number(s, i + 2, 10, Some(1u8)) == Ok::<(Option<u8>, int), Error>(
            (Some(1u8), i + 2),
        ));
        assert(spec_number(s, i + 1, 10, None) == Ok::<(Option<u8>, int), Error>(
            (Some(1u8), i + 2),
        ));
        assert(spec_number(s, i + 3, 10, None) == Ok::<(Option<u8>, int), Error>((None, i + 3)));
    }
}

/// `?`, `{,1}` and `{0,1}` read as the same token, as do `*`, `{,}` and
/// `{0,}`, and `+` and `{1,}`: wherever one of them starts, the token read
/// there is the quantifier it stands for, and reading goes on right after it.
pub proof fn lemma_quantifier_spellings(cfg: Config, s: Seq<u8>, i: int, w: Seq<u8>)
    requires
        0 <= i,
        i + w.len() <= s.len(),
        s.subrange(i, i + w.len()) == w,
    ensures
        (w == seq![QUESTION] || w == seq![LBRACE, COMMA, 0x31u8, RBRACE] || w == seq![
            LBRACE,
            0x30u8,
            COMMA,
            0x31u8,
            RBRACE,
        ]) ==> spec_token(cfg, s, i) == Ok::<(Lexeme, int), Error>(
            (Lexeme::Repeat(0, Some(1)), i + w.len()),
        ),
        (w == seq![STAR] || w == seq![LBRACE, COMMA, RBRACE] || w == seq![
            LBRACE,
            0x30u8,
            COMMA,
            RBRACE,
        ]) ==> spec_token(cfg, s, i) == Ok::<(Lexeme, int), Error>(
            (Lexeme::Repeat(0, None), i + w.len()),
        ),
        (w == seq![PLUS] || w == seq![LBRACE, 0x31u8, COMMA, RBRACE]) ==> spec_token(cfg, s, i)
            == Ok::<(Lexeme, int), Error>((Lexeme::Repeat(1, None), i + w.len())),
{
    if w == seq![QUESTION] || w == seq![LBRACE, COMMA, 0x31u8, RBRACE] || w == seq![
        LBRACE,
        0x30u8,
        COMMA,
        0x31u8,
        RBRACE,
    ] {
        lemma_spelling(cfg, s, i, w, Lexeme::Repeat(0, Some(1)));
    }
    if w == seq![STAR] || w == seq![LBRACE, COMMA, RBRACE] || w == seq![
        LBRACE,
        0x30u8,
        COMMA,
        RBRACE,
    ] {
        lemma_spelling(cfg, s, i, w, Lexeme::Repeat(0, None));
    }
    if w == seq![PLUS] || w == seq![LBRACE, 0x31u8, COMMA, RBRACE] {
        lemma_spelling(cfg, s, i, w, Lexeme::Repeat(1, None));
    }
}

/// The union of the classes read from `i` on, as long as every token is a
/// class; an error at the first token that is not.
pub open spec fn spec_class_list(cfg: Config, s: Seq<u8>, i: int, acc: Set<u8>) -> Result<Set<u8>, Error>
    decreases s.len() - i,
{
    match spec_token(cfg, s, i) {
        Err(e) => Err(e),
        Ok((Lexeme::Close(true), _)) => Ok(acc),
        Ok((Lexeme::Char(p), j)) => if i < j <= s.len() {
            spec_class_list(cfg, s, j, acc.union(p))
        } else {
            Err(Error::Charset)
        },
        Ok(_) => Err(Error::Charset),
    }
}

impl Lexer {
    /// Reads every remaining token, up to and including `Close(true)`, or
    /// stops at the first error. Each call of [`Lexer::token`] before the
    /// end lowers [`Lexer::remaining`], so at most `remaining() + 1` calls
    /// are made: `2 * len + 1` from the start of a pattern of `len` bytes.
    pub fn tokens(&mut self) -> (r: Result<Vec<Token>, Error>)
        requires
            old(self).wf(),
        ensures
            final(self).wf(),
            match spec_tokens(
                old(self).config(),
                old(self).input(),
                old(self).remaining() + 1,
                old(self).pos(),
                old(self).pending_view(),
            ) {
                Ok(ts) => r matches Ok(v) && v@.map_values(|t: Token| t@) == ts,
                Err(e) => r == Err::<Vec<Token>, Error>(e),
            },
            r matches Ok(v) ==> 1 <= v.len() <= old(self).remaining() + 1 && v@.last() == Token::Close(
                true,
            ) && forall|i: int| 0 <= i < v.len() - 1 ==> v[i] != Token::Close(true),
            r matches Err(e) ==> is_lexer_error(e),
    {
        let ghost start = *self;
        proof {
            self.lemma_remaining();
        }
        let mut v: Vec<Token> = Vec::new();
        loop
            invariant
                self.wf(),
                self.input() == start.input(),
                self.config() == start.config(),
                start == *old(self),
                v.len() + self.remaining() <= start.remaining(),
                forall|i: int| 0 <= i < v.len() ==> v[i] != Token::Close(true),
                spec_tokens(start.config(), start.input(), start.remaining() + 1, start.pos(), start.pending_view())
                    == match spec_tokens(
                    self.config(),
                    self.input(),
                    self.remaining() + 1,
                    self.pos(),
                    self.pending_view(),
                ) {
                    Ok(rest) => Ok(v@.map_values(|t: Token| t@) + rest),
                    Err(e) => Err::<Seq<Lexeme>, Error>(e),
                },
            decreases self.remaining(),
        {
            let ghost before = *self;
            let ghost v0 = v@;
            proof {
                self.lemma_remaining();
            }
            let t = self.token()?;
            proof {
                self.lemma_remaining();
                if t != Token::Close(true) {
                    assert(next_fuel(before.remaining() + 1, measure(self.input(), self.pos(), self.pending_view()))
                        == self.remaining() + 1);
                }
            }
            v.push(t);
            proof {
                assert(v@.map_values(|t: Token| t@) =~= v0.map_values(|t: Token| t@).push(t@));
            }
            if t == Token::Close(true) {
                proof {
                    assert(v@.map_values(|t: Token| t@) =~= v0.map_values(|t: Token| t@) + seq![t@]);
                }
                return Ok(v);
            }
            proof {
                assert forall|rest: Seq<Lexeme>| #![auto] v0.map_values(|t: Token| t@) + (seq![t@] + rest)
                    == v@.map_values(|t: Token| t@) + rest by {
                    assert(v0.map_values(|t: Token| t@) + (seq![t@] + rest) =~= v@.map_values(
                        |t: Token| t@,
                    ) + rest);
                }
            }
        }
    }
}

impl Charset {
    /// The set of bytes that a pattern made only of classes and literal bytes
    /// stands for, read with the default configuration; `Charset` when some
    /// token is not a class.
    pub fn parse(s: &[u8]) -> (r: Result<Charset, Error>)
        ensures
            exists|cfg: Config|
                cfg.is_default() && match #[trigger] spec_class_list(cfg, s@, 0, Set::empty()) {
                    Ok(p) => r matches Ok(cs) && cs@ == p,
                    Err(e) => r == Err::<Charset, Error>(e),
                },
    {
        let config = Config::default();
        let ghost cfg = config;
        let mut lex = Lexer::new(s, config);
        let mut res = Charset::new();
        loop
            invariant
                lex.wf(),
                lex.input() == s@,
                lex.config() == cfg,
                !cfg.auto_groups,
                cfg.is_default(),
                lex.pending() is None,
                spec_class_list(cfg, s@, 0, Set::empty()) == spec_class_list(cfg, s@, lex.pos(), res@),
            decreases s@.len() - lex.pos(),
        {
            let ghost i = lex.pos();
            let t = lex.token();
            match t {
                Err(e) => {
                    return Err(e);
                },
                Ok(Token::Close(true)) => {
                    return Ok(res);
                },
                Ok(Token::Char(c)) => {
                    proof {
                        assert(byte_at(s@, i) is Some);
                    }
                    res = res.union(&c);
                },
                Ok(_) => {
                    return Err(Error::Charset);
                },
            }
        }
    }
}

} // verus!
