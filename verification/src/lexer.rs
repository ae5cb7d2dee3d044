//! Lexer for the layout DSL.

use vstd::prelude::*;
use vstd::utf8::{encode_utf8, is_char_boundary};

use crate::text::{all_digits, byte_len, byte_offset, digits_to_u32, digits_value, is_digit_char, is_whitespace, is_whitespace_char, lemma_byte_offset_bound, lemma_byte_offset_monotone, lemma_byte_offset_step, str_chars, utf8_width};

verus! {

/// Tokens produced by the lexer.
#[derive(Debug, Clone, Copy, PartialEq, Eq, Structural)]
pub enum Token {
    /// Vertical split indicator
    V,
    /// Horizontal split indicator
    H,
    /// Left parenthesis '('
    LParen,
    /// Right parenthesis ')'
    RParen,
    /// Comma separator ','
    Comma,
    /// Numeric weight value
    Number(u32),
}

/// Why a layout DSL string was rejected. Positions are byte offsets into the
/// input.
#[derive(Debug, Clone, Copy, PartialEq, Eq, Structural)]
pub enum ParseError {
    /// A character that starts no token.
    UnexpectedChar { ch: char, pos: usize },
    /// A run of digits, at bytes `start..end`, whose value does not fit in `u32`.
    InvalidNumber { start: usize, end: usize },
    /// A token other than the one the grammar requires here; `pos` is the
    /// offset just after the token found.
    ExpectedFound { expected: Token, found: Token, pos: usize },
    /// The input ended where the grammar requires a token.
    ExpectedAtEnd { expected: Token },
    /// A token that starts no layout (`'v'`, `'h'` or a number was required);
    /// `pos` is the offset just after it.
    UnexpectedToken { found: Token, pos: usize },
    /// The input ended where a layout was required.
    UnexpectedEnd,
    /// A token after a complete layout; `pos` is the offset just after it.
    TrailingToken { found: Token, pos: usize },
}

/// Index of the first character at or after `i` that is not whitespace.
pub open spec fn skip_ws(cs: Seq<char>, i: int) -> int
    decreases cs.len() - i,
{
    if 0 <= i < cs.len() && is_whitespace_char(cs[i]) {
        skip_ws(cs, i + 1)
    } else {
        i
    }
}

/// Index of the first character at or after `i` that is not an ASCII digit.
pub open spec fn digits_end(cs: Seq<char>, i: int) -> int
    decreases cs.len() - i,
{
    if 0 <= i < cs.len() && is_digit_char(cs[i]) {
        digits_end(cs, i + 1)
    } else {
        i
    }
}

/// The token that a lexer at character index `i` of `cs` produces next, and
/// the index after it; `None` when only whitespace is left.
///
/// Whitespace is skipped; `v`/`V`, `h`/`H`, `(`, `)` and `,` are tokens of one
/// character; a maximal run of ASCII digits is a number, rejected when its
/// value does not fit in `u32`; any other character is rejected.
pub open spec fn spec_next_token(cs: Seq<char>, i: int) -> Result<(Option<Token>, int), ParseError> {
    let j = skip_ws(cs, i);
    if j >= cs.len() {
        Ok((None, j))
    } else {
        let c = cs[j];
        if c == 'v' || c == 'V' {
            Ok((Some(Token::V), j + 1))
        } else if c == 'h' || c == 'H' {
            Ok((Some(Token::H), j + 1))
        } else if c == '(' {
            Ok((Some(Token::LParen), j + 1))
        } else if c == ')' {
            Ok((Some(Token::RParen), j + 1))
        } else if c == ',' {
            Ok((Some(Token::Comma), j + 1))
        } else if is_digit_char(c) {
            let k = digits_end(cs, j);
            let v = digits_value(cs.subrange(j, k));
            if v <= u32::MAX {
                Ok((Some(Token::Number(v as u32)), k))
            } else {
                Err(
                    ParseError::InvalidNumber {
                        start: byte_offset(cs, j) as usize,
                        end: byte_offset(cs, k) as usize,
                    },
                )
            }
        } else {
            Err(ParseError::UnexpectedChar { ch: c, pos: byte_offset(cs, j) as usize })
        }
    }
}

pub proof fn lemma_skip_ws_bounds(cs: Seq<char>, i: int)
    requires
        0 <= i <= cs.len(),
    ensures
        i <= skip_ws(cs, i) <= cs.len(),
        forall|k: int| i <= k < skip_ws(cs, i) ==> is_whitespace_char(#[trigger] cs[k]),
    decreases cs.len() - i,
{
    if i < cs.len() && is_whitespace_char(cs[i]) {
        lemma_skip_ws_bounds(cs, i + 1);
    }
}

pub proof fn lemma_digits_end_bounds(cs: Seq<char>, i: int)
    requires
        0 <= i <= cs.len(),
    ensures
        i <= digits_end(cs, i) <= cs.len(),
        all_digits(cs.subrange(i, digits_end(cs, i))),
    decreases cs.len() - i,
{
    if i < cs.len() && is_digit_char(cs[i]) {
        lemma_digits_end_bounds(cs, i + 1);
        assert forall|k: int| 0 <= k < digits_end(cs, i) - i implies is_digit_char(
            #[trigger] cs.subrange(i, digits_end(cs, i))[k],
        ) by {
            if k > 0 {
                assert(cs.subrange(i, digits_end(cs, i))[k] == cs.subrange(
                    i + 1,
                    digits_end(cs, i),
                )[k - 1]);
            }
        }
    }
}

/// Where a lexer at character index `i` of `cs` stops when the next token is
/// rejected: on the rejected character, or just after a number that does not
/// fit in `u32`.
pub open spec fn spec_error_index(cs: Seq<char>, i: int) -> int {
    let j = skip_ws(cs, i);
    if 0 <= j < cs.len() && is_digit_char(cs[j]) {
        digits_end(cs, j)
    } else {
        j
    }
}

/// A lexer never moves backwards, and a token takes at least one character.
pub proof fn lemma_next_token_progress(cs: Seq<char>, i: int)
    requires
        0 <= i <= cs.len(),
    ensures
        spec_next_token(cs, i) matches Ok((t, j)) ==> {
            &&& i <= j <= cs.len()
            &&& t is Some ==> i < j
        },
        i <= spec_error_index(cs, i) <= cs.len(),
{
    lemma_skip_ws_bounds(cs, i);
    let j = skip_ws(cs, i);
    if j < cs.len() {
        lemma_digits_end_bounds(cs, j);
        lemma_digits_end_bounds(cs, j + 1);
    }
}

/// Byte length of the UTF-8 encoding of `c` (`char::len_utf8`).
fn char_width(c: char) -> (w: usize)
    ensures
        w as nat == utf8_width(c),
{
    let u = c as u32;
    if u < 0x80 {
        1
    } else if u < 0x800 {
        2
    } else if u < 0x10000 {
        3
    } else {
        4
    }
}

/// A lexer that tokenizes layout DSL input strings.
pub struct Lexer {
    chars: Vec<char>,
    /// index of the next character
    idx: usize,
    /// byte offset of the next character
    pos: usize,
}

impl Lexer {
    /// The characters of the input.
    pub closed spec fn input(&self) -> Seq<char> {
        self.chars@
    }

    /// Index of the next character to read.
    pub closed spec fn index(&self) -> int {
        self.idx as int
    }

    /// The index lies within the input, the byte position matches it, and the
    /// input's UTF-8 length fits in `usize`.
    pub closed spec fn wf(&self) -> bool {
        &&& self.idx <= self.chars@.len()
        &&& self.pos == byte_offset(self.chars@, self.idx as int)
        &&& byte_len(self.chars@) <= usize::MAX
    }

    /// A lexer's index lies within its input, and its byte position is a
    /// character boundary of the input's UTF-8 encoding, at most its length.
    pub proof fn lemma_index_bound(&self)
        requires
            self.wf(),
        ensures
            0 <= self.index() <= self.input().len(),
            byte_offset(self.input(), self.index()) <= byte_len(self.input()),
            byte_len(self.input()) == encode_utf8(self.input()).len(),
            is_char_boundary(encode_utf8(self.input()), byte_offset(self.input(), self.index()) as int),
    {
        crate::text::lemma_byte_offset_bound(self.input(), self.index());
        crate::text::lemma_byte_len_encode(self.input());
        crate::text::lemma_byte_offset_char_boundary(self.input(), self.index());
    }

    /// Create a new lexer for the given input string.
    pub fn new(input: &str) -> (l: Self)
        ensures
            l.wf(),
            l.input() == input@,
            l.index() == 0,
    {
        let chars = str_chars(input);
        assert(chars@.take(0) =~= Seq::<char>::empty());
        Self { chars, idx: 0, pos: 0 }
    }

    /// Peek at the next character without consuming it.
    fn peek_char(&self) -> (c: Option<char>)
        requires
            self.wf(),
        ensures
            c == (if self.index() < self.input().len() {
                Some(self.input()[self.index()])
            } else {
                None
            }),
    {
        if self.idx < self.chars.len() {
            Some(self.chars[self.idx])
        } else {
            None
        }
    }

    /// Advance the position by one character.
    fn advance(&mut self)
        requires
            old(self).wf(),
        ensures
            final(self).wf(),
            final(self).input() == old(self).input(),
            final(self).index() == (if old(self).index() < old(self).input().len() {
                old(self).index() + 1
            } else {
                old(self).index()
            }),
    {
        if self.idx < self.chars.len() {
            let c = self.chars[self.idx];
            proof {
                lemma_byte_offset_step(self.chars@, self.idx as int);
                lemma_byte_offset_bound(self.chars@, self.idx + 1);
            }
            self.pos = self.pos + char_width(c);
            self.idx = self.idx + 1;
        }
    }

    /// Skip whitespace characters.
    fn skip_whitespace(&mut self)
        requires
            old(self).wf(),
        ensures
            final(self).wf(),
            final(self).input() == old(self).input(),
            final(self).index() == skip_ws(old(self).input(), old(self).index()),
    {
        loop
            invariant
                self.wf(),
                self.input() == old(self).input(),
                skip_ws(self.input(), self.index()) == skip_ws(
                    old(self).input(),
                    old(self).index(),
                ),
            ensures
                self.wf(),
                self.input() == old(self).input(),
                self.index() == skip_ws(old(self).input(), old(self).index()),
            decreases self.input().len() - self.index(),
        {
            match self.peek_char() {
                Some(c) => {
                    if is_whitespace(c) {
                        self.advance();
                    } else {
                        break;
                    }
                },
                None => break,
            }
        }
    }

    /// Get the next token from the input.
    pub fn next_token(&mut self) -> (r: Result<Option<Token>, ParseError>)
        requires
            old(self).wf(),
        ensures
            final(self).wf(),
            final(self).input() == old(self).input(),
            match spec_next_token(old(self).input(), old(self).index()) {
                Ok((t, j)) => r == Ok::<Option<Token>, ParseError>(t) && final(self).index() == j,
                Err(e) => {
                    &&& r == Err::<Option<Token>, ParseError>(e)
                    &&& final(self).index() == spec_error_index(old(self).input(), old(self).index())
                },
            },
            old(self).index() <= final(self).index() <= final(self).input().len(),
            byte_offset(old(self).input(), old(self).index()) <= byte_offset(
                final(self).input(),
                final(self).index(),
            ),
            r matches Ok(Some(_)) ==> old(self).index() < final(self).index(),
    {
        proof {
            lemma_next_token_progress(old(self).input(), old(self).index());
            lemma_byte_offset_monotone(
                old(self).input(),
                old(self).index(),
                spec_error_index(old(self).input(), old(self).index()),
            );
            match spec_next_token(old(self).input(), old(self).index()) {
                Ok((_, j)) => lemma_byte_offset_monotone(old(self).input(), old(self).index(), j),
                Err(_) => {},
            }
        }
        self.skip_whitespace();
        let ghost cs = self.input();
        let ghost j = self.index();
        proof {
            lemma_skip_ws_bounds(cs, old(self).index());
        }
        let c = match self.peek_char() {
            Some(c) => c,
            None => return Ok(None),
        };
        let token = if c == 'v' || c == 'V' {
            self.advance();
            Token::V
        } else if c == 'h' || c == 'H' {
            self.advance();
            Token::H
        } else if c == '(' {
            self.advance();
            Token::LParen
        } else if c == ')' {
            self.advance();
            Token::RParen
        } else if c == ',' {
            self.advance();
            Token::Comma
        } else if '0' <= c && c <= '9' {
            let start = self.pos;
            let start_idx = self.idx;
            loop
                invariant
                    self.wf(),
                    self.input() == cs,
                    j <= self.index() <= cs.len(),
                    start_idx == j,
                    digits_end(cs, self.index()) == digits_end(cs, j),
                ensures
                    self.wf(),
                    self.input() == cs,
                    self.index() == digits_end(cs, j),
                decreases cs.len() - self.index(),
            {
                match self.peek_char() {
                    Some(c) => {
                        if '0' <= c && c <= '9' {
                            self.advance();
                        } else {
                            break;
                        }
                    },
                    None => break,
                }
            }
            proof {
                lemma_digits_end_bounds(cs, j);
            }
            match digits_to_u32(&self.chars, start_idx, self.idx, u32::MAX) {
                Some(num) => Token::Number(num),
                None => {
                    return Err(ParseError::InvalidNumber { start, end: self.pos });
                },
            }
        } else {
            return Err(ParseError::UnexpectedChar { ch: c, pos: self.pos });
        };
        Ok(Some(token))
    }

    /// Get the current position in the input.
    pub fn position(&self) -> (p: usize)
        requires
            self.wf(),
        ensures
            p == byte_offset(self.input(), self.index()),
    {
        self.pos
    }
}

} // verus!
