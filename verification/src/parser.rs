//! Recursive descent parser for the layout DSL.
//!
//! ```text
//! layout  := 'v' '(' entries ')' | 'h' '(' entries ')' | number
//! entries := layout (',' layout)*
//! ```

use vstd::prelude::*;

use crate::layout::{children_view, lemma_children_view_push, Direction, Layout, LayoutView};
use crate::lexer::{lemma_next_token_progress, spec_next_token, Lexer, ParseError, Token};
use crate::text::{byte_len, byte_offset, lemma_byte_offset_bound};

verus! {

// ---------------------------------------------------------------------------
// The token stream of an input
// ---------------------------------------------------------------------------

/// The tokens of an input, each with the byte offset just after it, and how
/// the input ends: `error` is `None` when the rest is whitespace, and the
/// lexing error otherwise.
pub struct TokenStream {
    pub toks: Seq<(Token, usize)>,
    pub error: Option<ParseError>,
}

/// The token stream of `cs` from character index `i` on.
pub open spec fn lex_from(cs: Seq<char>, i: int) -> TokenStream
    decreases cs.len() - i,
{
    if 0 <= i <= cs.len() {
        match spec_next_token(cs, i) {
            Ok((Some(t), j)) => {
                proof {
                    lemma_next_token_progress(cs, i);
                }
                let rest = lex_from(cs, j);
                TokenStream {
                    toks: seq![(t, byte_offset(cs, j) as usize)] + rest.toks,
                    error: rest.error,
                }
            },
            Ok((None, _)) => TokenStream { toks: Seq::empty(), error: None },
            Err(e) => TokenStream { toks: Seq::empty(), error: Some(e) },
        }
    } else {
        TokenStream { toks: Seq::empty(), error: None }
    }
}

/// The token stream of a whole input.
pub open spec fn lex_stream(cs: Seq<char>) -> TokenStream {
    lex_from(cs, 0)
}

/// The stream after its first `k` tokens.
pub open spec fn stream_suffix(s: TokenStream, k: int) -> TokenStream {
    TokenStream { toks: s.toks.skip(k), error: s.error }
}

// ---------------------------------------------------------------------------
// Parsing a token stream; `k` is the index of the current token
// ---------------------------------------------------------------------------

/// Moving past the current token `k`: a lexing error right after it stops
/// the parse.
pub open spec fn sp_advance(s: TokenStream, k: int) -> Result<int, ParseError> {
    if k + 1 >= s.toks.len() && s.error is Some {
        Err(s.error->0)
    } else {
        Ok(k + 1)
    }
}

/// Requiring the current token to be `expected` and moving past it.
pub open spec fn sp_expect(s: TokenStream, k: int, expected: Token) -> Result<int, ParseError> {
    if 0 <= k < s.toks.len() {
        if s.toks[k].0 == expected {
            sp_advance(s, k)
        } else {
            Err(ParseError::ExpectedFound { expected, found: s.toks[k].0, pos: s.toks[k].1 })
        }
    } else {
        Err(ParseError::ExpectedAtEnd { expected })
    }
}

/// A layout starting at token `k`, with its weight, and the index after it.
/// A number is a pane of that weight; a split has weight 1.
pub open spec fn sp_layout(s: TokenStream, k: int) -> Result<((u32, LayoutView), int), ParseError>
    decreases s.toks.len() - k, 0nat,
{
    if 0 <= k < s.toks.len() {
        match s.toks[k].0 {
            Token::V | Token::H => {
                let direction = if s.toks[k].0 == Token::V {
                    Direction::Vertical
                } else {
                    Direction::Horizontal
                };
                match sp_advance(s, k) {
                    Err(e) => Err(e),
                    Ok(k1) => match sp_expect(s, k1, Token::LParen) {
                        Err(e) => Err(e),
                        Ok(k2) => match sp_list(s, k2, Seq::empty()) {
                            Err(e) => Err(e),
                            Ok((children, k3)) => match sp_expect(s, k3, Token::RParen) {
                                Err(e) => Err(e),
                                Ok(k4) => Ok(((1u32, LayoutView::Split { direction, children }), k4)),
                            },
                        },
                    },
                }
            },
            Token::Number(n) => match sp_advance(s, k) {
                Err(e) => Err(e),
                Ok(k1) => Ok(((n, LayoutView::Pane), k1)),
            },
            t => Err(ParseError::UnexpectedToken { found: t, pos: s.toks[k].1 }),
        }
    } else {
        Err(ParseError::UnexpectedEnd)
    }
}

/// Comma-separated layouts starting at token `k`, appended to `acc`.
///
/// A layout always moves past at least one token (see the grammar module's
/// soundness lemmas); the test `k < k1` only makes the recursion visibly
/// finite, and its other branch is never taken.
pub open spec fn sp_list(s: TokenStream, k: int, acc: Seq<(u32, LayoutView)>) -> Result<
    (Seq<(u32, LayoutView)>, int),
    ParseError,
>
    decreases s.toks.len() - k, 1nat,
{
    match sp_layout(s, k) {
        Err(e) => Err(e),
        Ok((entry, k1)) => if k < k1 <= s.toks.len() {
            sp_more(s, k1, acc.push(entry))
        } else {
            Err(ParseError::UnexpectedEnd)
        },
    }
}

/// After a layout, at token `k`: another one follows a comma; anything else
/// ends the list.
pub open spec fn sp_more(s: TokenStream, k: int, acc: Seq<(u32, LayoutView)>) -> Result<
    (Seq<(u32, LayoutView)>, int),
    ParseError,
>
    decreases s.toks.len() - k, 2nat,
{
    if 0 <= k < s.toks.len() && s.toks[k].0 == Token::Comma {
        match sp_advance(s, k) {
            Err(e) => Err(e),
            Ok(k2) => sp_list(s, k2, acc),
        }
    } else {
        Ok((acc, k))
    }
}

/// The result of parsing a token stream: one layout, then the end.
pub open spec fn spec_parse_stream(s: TokenStream) -> Result<LayoutView, ParseError> {
    if s.toks.len() == 0 && s.error is Some {
        Err(s.error->0)
    } else {
        match sp_layout(s, 0) {
            Err(e) => Err(e),
            Ok(((_w, l), k)) => if 0 <= k < s.toks.len() {
                Err(ParseError::TrailingToken { found: s.toks[k].0, pos: s.toks[k].1 })
            } else {
                Ok(l)
            },
        }
    }
}

/// The result of parsing the DSL string `cs`.
pub open spec fn spec_parse(cs: Seq<char>) -> Result<LayoutView, ParseError> {
    spec_parse_stream(lex_stream(cs))
}

/// One step of the stream: what `lex_from` gives at `i` is the next token and
/// what `lex_from` gives after it.
proof fn lemma_lex_from_step(cs: Seq<char>, i: int)
    requires
        0 <= i <= cs.len(),
    ensures
        match spec_next_token(cs, i) {
            Ok((Some(t), j)) => {
                &&& i < j <= cs.len()
                &&& lex_from(cs, i).toks.len() > 0
                &&& lex_from(cs, i).toks[0] == (t, byte_offset(cs, j) as usize)
                &&& stream_suffix(lex_from(cs, i), 1) == lex_from(cs, j)
            },
            Ok((None, j)) => {
                &&& lex_from(cs, i).toks.len() == 0
                &&& lex_from(cs, i).error is None
                &&& j == cs.len()
            },
            Err(e) => {
                &&& lex_from(cs, i).toks.len() == 0
                &&& lex_from(cs, i).error == Some(e)
            },
        },
{
    lemma_next_token_progress(cs, i);
    crate::lexer::lemma_skip_ws_bounds(cs, i);
    match spec_next_token(cs, i) {
        Ok((Some(t), j)) => {
            let rest = lex_from(cs, j);
            assert((seq![(t, byte_offset(cs, j) as usize)] + rest.toks).skip(1) =~= rest.toks);
        },
        _ => {},
    }
}

/// Skipping `a` then `b` tokens skips `a + b`.
proof fn lemma_suffix_suffix(s: TokenStream, a: int, b: int)
    requires
        0 <= a,
        0 <= b,
        a + b <= s.toks.len(),
    ensures
        stream_suffix(stream_suffix(s, a), b) == stream_suffix(s, a + b),
{
    assert(s.toks.skip(a).skip(b) =~= s.toks.skip(a + b));
}

// ---------------------------------------------------------------------------
// A lexing error always rejects the input
// ---------------------------------------------------------------------------

/// In a stream that ends with a lexing error, a layout that parses stops
/// before the last token: moving past the last token hits the error.
proof fn lemma_error_layout_inside(s: TokenStream, k: int)
    requires
        s.error is Some,
    ensures
        sp_layout(s, k) matches Ok((_, k1)) ==> k < k1 < s.toks.len(),
    decreases s.toks.len() - k, 0nat,
{
    if 0 <= k < s.toks.len() {
        match s.toks[k].0 {
            Token::V | Token::H => {
                if let Ok(k1) = sp_advance(s, k) {
                    if let Ok(k2) = sp_expect(s, k1, Token::LParen) {
                        lemma_error_list_inside(s, k2, Seq::empty());
                    }
                }
            },
            _ => {},
        }
    }
}

/// The list form of `lemma_error_layout_inside`.
proof fn lemma_error_list_inside(s: TokenStream, k: int, acc: Seq<(u32, LayoutView)>)
    requires
        s.error is Some,
    ensures
        sp_list(s, k, acc) matches Ok((_, k1)) ==> k < k1 < s.toks.len(),
    decreases s.toks.len() - k, 1nat,
{
    lemma_error_layout_inside(s, k);
    if let Ok((entry, k1)) = sp_layout(s, k) {
        if k < k1 <= s.toks.len() {
            lemma_error_more_inside(s, k1, acc.push(entry));
        }
    }
}

/// The continuation form of `lemma_error_layout_inside`.
proof fn lemma_error_more_inside(s: TokenStream, k: int, acc: Seq<(u32, LayoutView)>)
    requires
        s.error is Some,
        0 <= k < s.toks.len(),
    ensures
        sp_more(s, k, acc) matches Ok((_, k1)) ==> k <= k1 < s.toks.len(),
    decreases s.toks.len() - k, 2nat,
{
    if s.toks[k].0 == Token::Comma {
        if let Ok(k2) = sp_advance(s, k) {
            lemma_error_list_inside(s, k2, acc);
        }
    }
}

/// An input that the lexer rejects is rejected by the parser, whatever
/// tokens come before the rejected part.
pub proof fn lemma_lex_error_rejects(cs: Seq<char>)
    requires
        lex_stream(cs).error is Some,
    ensures
        spec_parse(cs) is Err,
{
    lemma_error_layout_inside(lex_stream(cs), 0);
}

// ---------------------------------------------------------------------------
// The parser
// ---------------------------------------------------------------------------

/// A recursive descent parser for layout DSL strings.
pub struct Parser {
    lexer: Lexer,
    current: Option<Token>,
    /// index of the current token in the input's token stream
    at: Ghost<int>,
}

impl Parser {
    /// The token stream of the input.
    pub closed spec fn stream(&self) -> TokenStream {
        lex_stream(self.lexer.input())
    }

    /// Index of the current token in [`Self::stream`]; the length of the
    /// stream once the input is exhausted.
    pub closed spec fn token_index(&self) -> int {
        self.at@
    }

    /// The characters of the input.
    pub closed spec fn input(&self) -> Seq<char> {
        self.lexer.input()
    }

    /// The current token is the stream's token at [`Self::token_index`], the
    /// lexer stands just after it, and past the last token the stream ended
    /// without error.
    pub closed spec fn wf(&self) -> bool {
        let cs = self.lexer.input();
        let s = lex_stream(cs);
        let k = self.at@;
        &&& self.lexer.wf()
        &&& 0 <= k <= s.toks.len()
        &&& 0 <= self.lexer.index() <= cs.len()
        &&& k < s.toks.len() ==> {
            &&& self.current == Some(s.toks[k].0)
            &&& s.toks[k].1 == byte_offset(cs, self.lexer.index()) as usize
            &&& lex_from(cs, self.lexer.index()) == stream_suffix(s, k + 1)
        }
        &&& k == s.toks.len() ==> {
            &&& self.current is None
            &&& s.error is None
            &&& self.lexer.index() == cs.len()
        }
    }

    /// The stream a parser works on is the token stream of its input.
    pub proof fn lemma_stream_of_input(&self)
        ensures
            self.stream() == lex_stream(self.input()),
    {
    }

    /// Create a new parser for the given input string, reading its first token.
    pub fn new(input: &str) -> (r: Result<Self, ParseError>)
        ensures
            match r {
                Ok(p) => {
                    &&& p.wf()
                    &&& p.input() == input@
                    &&& p.stream() == lex_stream(input@)
                    &&& p.token_index() == 0
                    &&& !(p.stream().toks.len() == 0 && p.stream().error is Some)
                },
                Err(e) => lex_stream(input@).toks.len() == 0 && lex_stream(input@).error == Some(e),
            },
    {
        let mut lexer = Lexer::new(input);
        proof {
            lemma_lex_from_step(lexer.input(), 0);
            let s = lex_stream(lexer.input());
            assert(stream_suffix(s, 0).toks =~= s.toks);
        }
        let current = lexer.next_token()?;
        proof {
            let cs = lexer.input();
            let s = lex_stream(cs);
            if s.toks.len() > 0 {
                lemma_suffix_suffix(s, 0, 1);
                assert(stream_suffix(s, 0).toks =~= s.toks);
            }
        }
        Ok(Self { lexer, current, at: Ghost(0) })
    }

    /// Advance to the next token.
    fn advance(&mut self) -> (r: Result<(), ParseError>)
        requires
            old(self).wf(),
            old(self).token_index() < old(self).stream().toks.len(),
        ensures
            final(self).input() == old(self).input(),
            match sp_advance(old(self).stream(), old(self).token_index()) {
                Ok(k1) => r is Ok && final(self).wf() && final(self).token_index() == k1,
                Err(e) => r == Err::<(), ParseError>(e),
            },
    {
        let ghost cs = self.lexer.input();
        let ghost s = lex_stream(cs);
        let ghost k = self.at@;
        proof {
            lemma_lex_from_step(cs, self.lexer.index());
            if k + 1 < s.toks.len() {
                lemma_suffix_suffix(s, k + 1, 1);
                assert(stream_suffix(s, k + 1).toks[0] == s.toks[k + 1]);
            }
        }
        self.current = self.lexer.next_token()?;
        self.at = Ghost(k + 1);
        Ok(())
    }

    /// Expect a specific token and advance.
    fn expect(&mut self, expected: Token) -> (r: Result<(), ParseError>)
        requires
            old(self).wf(),
        ensures
            final(self).input() == old(self).input(),
            match sp_expect(old(self).stream(), old(self).token_index(), expected) {
                Ok(k1) => r is Ok && final(self).wf() && final(self).token_index() == k1,
                Err(e) => r == Err::<(), ParseError>(e),
            },
    {
        match self.current {
            Some(token) => {
                if token == expected {
                    self.advance()
                } else {
                    Err(
                        ParseError::ExpectedFound {
                            expected,
                            found: token,
                            pos: self.lexer.position(),
                        },
                    )
                }
            },
            None => Err(ParseError::ExpectedAtEnd { expected }),
        }
    }

    /// Parse a layout node with its weight.
    ///
    /// Grammar:
    ///   layout := 'v' '(' entries ')' | 'h' '(' entries ')' | number
    fn parse_layout(&mut self) -> (r: Result<(u32, Layout), ParseError>)
        requires
            old(self).wf(),
        ensures
            final(self).input() == old(self).input(),
            match sp_layout(old(self).stream(), old(self).token_index()) {
                Ok(((w, lv), k1)) => {
                    &&& r matches Ok((w2, l)) && w2 == w && l@ == lv
                    &&& final(self).wf()
                    &&& final(self).token_index() == k1
                    &&& old(self).token_index() < k1
                },
                Err(e) => r == Err::<(u32, Layout), ParseError>(e),
            },
        decreases old(self).stream().toks.len() - old(self).token_index(), 0nat,
    {
        match self.current {
            Some(Token::V) => {
                self.advance()?;
                self.expect(Token::LParen)?;
                let children = self.parse_entries()?;
                self.expect(Token::RParen)?;
                Ok((1, Layout::Split { direction: Direction::Vertical, children }))
            },
            Some(Token::H) => {
                self.advance()?;
                self.expect(Token::LParen)?;
                let children = self.parse_entries()?;
                self.expect(Token::RParen)?;
                Ok((1, Layout::Split { direction: Direction::Horizontal, children }))
            },
            Some(Token::Number(n)) => {
                let weight = n;
                self.advance()?;
                Ok((weight, Layout::Pane))
            },
            Some(token) => Err(ParseError::UnexpectedToken { found: token, pos: self.lexer.position() }),
            None => Err(ParseError::UnexpectedEnd),
        }
    }

    /// Parse comma-separated layout entries.
    ///
    /// Grammar:
    ///   entries := layout (',' layout)*
    fn parse_entries(&mut self) -> (r: Result<Vec<(u32, Layout)>, ParseError>)
        requires
            old(self).wf(),
        ensures
            final(self).input() == old(self).input(),
            match sp_list(old(self).stream(), old(self).token_index(), Seq::empty()) {
                Ok((cs, k1)) => {
                    &&& r matches Ok(v) && children_view(v@) == cs
                    &&& final(self).wf()
                    &&& final(self).token_index() == k1
                    &&& old(self).token_index() < k1
                },
                Err(e) => r == Err::<Vec<(u32, Layout)>, ParseError>(e),
            },
        decreases old(self).stream().toks.len() - old(self).token_index(), 1nat,
    {
        let ghost s = self.stream();
        let ghost k0 = self.at@;
        let first = self.parse_layout()?;
        let mut entries: Vec<(u32, Layout)> = Vec::new();
        proof {
            lemma_children_view_push(entries@, first);
        }
        entries.push(first);
        assert(children_view(entries@) =~= Seq::<(u32, LayoutView)>::empty().push(
            (first.0, first.1@),
        ));
        while self.current == Some(Token::Comma)
            invariant
                self.wf(),
                self.input() == old(self).input(),
                self.stream() == s,
                s == old(self).stream(),
                k0 == old(self).token_index(),
                k0 < self.token_index(),
                sp_list(s, k0, Seq::empty()) == sp_more(s, self.token_index(), children_view(entries@)),
            decreases s.toks.len() - self.token_index(),
        {
            self.advance()?;
            let entry = self.parse_layout()?;
            proof {
                lemma_children_view_push(entries@, entry);
            }
            entries.push(entry);
        }
        Ok(entries)
    }

    /// Check if there are remaining tokens.
    pub fn has_remaining(&self) -> (b: bool)
        requires
            self.wf(),
        ensures
            b == (self.token_index() < self.stream().toks.len()),
    {
        self.current.is_some()
    }

    /// Get the current token for error reporting.
    pub fn current_token(&self) -> (t: Option<&Token>)
        requires
            self.wf(),
        ensures
            match t {
                Some(t) => self.token_index() < self.stream().toks.len() && *t == self.stream().toks[self.token_index()].0,
                None => self.token_index() == self.stream().toks.len(),
            },
    {
        self.current.as_ref()
    }

    /// Get the current lexer position: the byte offset just after the current
    /// token, or the length of the input once it is exhausted.
    pub fn position(&self) -> (p: usize)
        requires
            self.wf(),
        ensures
            p == (if self.token_index() < self.stream().toks.len() {
                self.stream().toks[self.token_index()].1 as nat
            } else {
                byte_len(self.input())
            }),
    {
        proof {
            assert(self.input().take(self.input().len() as int) =~= self.input());
        }
        self.lexer.position()
    }
}

/// Parse a layout DSL string into a Layout tree.
///
/// # Grammar
///
/// ```text
/// layout  := 'v' '(' entries ')' | 'h' '(' entries ')' | number
/// entries := layout (',' layout)*
/// number  := bare number → Pane with associated weight
/// ```
///
/// - `"v(2,1)"` → vertical split, top gets 2/3, bottom gets 1/3
/// - `"h(1,1,1)"` → horizontal split, 3 equal columns
/// - `"v(2,h(1,1))"` → top gets 2/3, bottom is split horizontally
pub fn parse(input: &str) -> (r: Result<Layout, ParseError>)
    ensures
        match r {
            Ok(l) => spec_parse(input@) == Ok::<LayoutView, ParseError>(l@),
            Err(e) => spec_parse(input@) == Err::<LayoutView, ParseError>(e),
        },
{
    let mut parser = Parser::new(input)?;
    let (_, layout) = parser.parse_layout()?;
    // Ensure we consumed all input
    if parser.has_remaining() {
        if let Some(found) = parser.current_token() {
            return Err(ParseError::TrailingToken { found: *found, pos: parser.position() });
        }
    }
    Ok(layout)
}

} // verus!
