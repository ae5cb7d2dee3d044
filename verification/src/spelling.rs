//! How DSL tokens may be written: whitespace around tokens and the case of
//! `v`/`h` are free, and the result of parsing does not depend on them.

use vstd::prelude::*;

use crate::grammar::{lemma_parse_iff_derived, stream_tokens};
use crate::layout::LayoutView;
use crate::lexer::{digits_end, skip_ws, spec_next_token, Token};
use crate::parser::{lemma_lex_error_rejects, lex_from, lex_stream, spec_parse};
use crate::text::{
    all_digits, digits_value, is_digit_char, is_whitespace_char, lemma_digits_value_prefix_grows,
};

verus! {

/// `text` is a way of writing the token `t`: `v` or `V`, `h` or `H`, a
/// parenthesis, a comma, or decimal digits (leading zeros allowed) of the
/// number's value.
pub open spec fn token_spelling(text: Seq<char>, t: Token) -> bool {
    match t {
        Token::V => text == seq!['v'] || text == seq!['V'],
        Token::H => text == seq!['h'] || text == seq!['H'],
        Token::LParen => text == seq!['('],
        Token::RParen => text == seq![')'],
        Token::Comma => text == seq![','],
        Token::Number(n) => text.len() > 0 && all_digits(text) && digits_value(text) == n,
    }
}

/// Every character of `w` is whitespace.
pub open spec fn all_whitespace(w: Seq<char>) -> bool {
    forall|i: int| 0 <= i < w.len() ==> is_whitespace_char(#[trigger] w[i])
}

/// The text `ws[0] texts[0] ws[1] texts[1] ... texts[n - 1] ws[n]`.
pub open spec fn spelled(ws: Seq<Seq<char>>, texts: Seq<Seq<char>>) -> Seq<char>
    decreases texts.len(),
{
    if ws.len() == 0 {
        Seq::empty()
    } else if texts.len() == 0 {
        ws[0]
    } else {
        ws[0] + texts[0] + spelled(ws.drop_first(), texts.drop_first())
    }
}

/// `texts` write the tokens `toks` one by one, with the whitespace runs `ws`
/// around them; two numbers in a row are kept apart by some whitespace.
pub open spec fn spelling_of(ws: Seq<Seq<char>>, texts: Seq<Seq<char>>, toks: Seq<Token>) -> bool {
    &&& ws.len() == texts.len() + 1
    &&& texts.len() == toks.len()
    &&& forall|i: int| 0 <= i < texts.len() ==> token_spelling(#[trigger] texts[i], toks[i])
    &&& forall|i: int| 0 <= i < ws.len() ==> all_whitespace(#[trigger] ws[i])
    &&& forall|i: int|
        0 <= i < toks.len() - 1 && #[trigger] toks[i] is Number && toks[i + 1] is Number ==> ws[i
            + 1].len() > 0
}

/// The tail of a spelling spells the tail of the tokens.
proof fn lemma_spelling_tail(ws: Seq<Seq<char>>, texts: Seq<Seq<char>>, toks: Seq<Token>)
    requires
        spelling_of(ws, texts, toks),
        toks.len() > 0,
    ensures
        spelling_of(ws.drop_first(), texts.drop_first(), toks.drop_first()),
{
    let ws1 = ws.drop_first();
    let toks1 = toks.drop_first();
    assert forall|i: int| 0 <= i < texts.len() - 1 implies token_spelling(
        #[trigger] texts.drop_first()[i],
        toks1[i],
    ) by {
        assert(token_spelling(texts[i + 1], toks[i + 1]));
    }
    assert forall|i: int| 0 <= i < ws1.len() implies all_whitespace(#[trigger] ws1[i]) by {
        assert(all_whitespace(ws[i + 1]));
    }
    assert forall|i: int|
        0 <= i < toks1.len() - 1 && #[trigger] toks1[i] is Number && toks1[i + 1] is Number implies ws1[i
        + 1].len() > 0 by {
        assert(toks[i + 1] is Number);
    }
}

/// What follows position `i` splits into `a` then `b`.
proof fn lemma_skip_concat(cs: Seq<char>, i: int, a: Seq<char>, b: Seq<char>)
    requires
        0 <= i <= cs.len(),
        cs.skip(i) == a + b,
    ensures
        i + a.len() <= cs.len(),
        cs.subrange(i, i + a.len()) == a,
        cs.skip(i + a.len()) == b,
{
    assert(cs.skip(i).len() == a.len() + b.len());
    assert forall|k: int| 0 <= k < a.len() implies cs.subrange(i, i + a.len())[k] == a[k] by {
        assert(cs.skip(i)[k] == (a + b)[k]);
    }
    assert(cs.subrange(i, i + a.len()) =~= a);
    assert forall|k: int| 0 <= k < b.len() implies cs.skip(i + a.len())[k] == b[k] by {
        assert(cs.skip(i)[a.len() + k] == (a + b)[a.len() + k]);
        assert(cs.skip(i)[a.len() + k] == cs[i + a.len() + k]);
        assert(cs.skip(i + a.len())[k] == cs[i + a.len() + k]);
    }
    assert(cs.skip(i + a.len()) =~= b);
}

/// Skipping whitespace over a run of whitespace stops right after it when
/// what follows is not whitespace.
proof fn lemma_skip_ws_run(cs: Seq<char>, i: int, w: Seq<char>)
    requires
        0 <= i,
        i + w.len() <= cs.len(),
        cs.subrange(i, i + w.len()) == w,
        all_whitespace(w),
        i + w.len() < cs.len() ==> !is_whitespace_char(cs[i + w.len()]),
    ensures
        skip_ws(cs, i) == i + w.len(),
    decreases w.len(),
{
    if w.len() > 0 {
        assert(cs[i] == cs.subrange(i, i + w.len())[0]);
        assert(is_whitespace_char(w[0]));
        let w1 = w.drop_first();
        assert(cs.subrange(i + 1, i + 1 + w1.len()) =~= w1) by {
            assert forall|k: int| 0 <= k < w1.len() implies cs.subrange(i + 1, i + 1 + w1.len())[k]
                == w1[k] by {
                assert(cs.subrange(i, i + w.len())[k + 1] == w[k + 1]);
            }
        }
        assert forall|k: int| 0 <= k < w1.len() implies is_whitespace_char(#[trigger] w1[k]) by {
            assert(is_whitespace_char(w[k + 1]));
        }
        lemma_skip_ws_run(cs, i + 1, w1);
    }
}

/// The digits of a number end right after a run of digits when what follows
/// is not a digit.
proof fn lemma_digits_run(cs: Seq<char>, j: int, d: Seq<char>)
    requires
        0 <= j,
        j + d.len() <= cs.len(),
        cs.subrange(j, j + d.len()) == d,
        all_digits(d),
        j + d.len() < cs.len() ==> !is_digit_char(cs[j + d.len()]),
    ensures
        digits_end(cs, j) == j + d.len(),
    decreases d.len(),
{
    if d.len() > 0 {
        assert(cs[j] == cs.subrange(j, j + d.len())[0]);
        assert(is_digit_char(d[0]));
        let d1 = d.drop_first();
        assert(cs.subrange(j + 1, j + 1 + d1.len()) =~= d1) by {
            assert forall|k: int| 0 <= k < d1.len() implies cs.subrange(j + 1, j + 1 + d1.len())[k]
                == d1[k] by {
                assert(cs.subrange(j, j + d.len())[k + 1] == d[k + 1]);
            }
        }
        assert forall|k: int| 0 <= k < d1.len() implies is_digit_char(#[trigger] d1[k]) by {
            assert(is_digit_char(d[k + 1]));
        }
        lemma_digits_run(cs, j + 1, d1);
    }
}

/// The first character of a token's spelling is neither whitespace nor,
/// unless the token is a number, a digit.
proof fn lemma_spelling_first_char(text: Seq<char>, t: Token)
    requires
        token_spelling(text, t),
    ensures
        text.len() > 0,
        !is_whitespace_char(text[0]),
        !(t is Number) ==> !is_digit_char(text[0]) && text.len() == 1,
{
    if t is Number {
        assert(is_digit_char(text[0]));
    }
}

/// Lexing from index `i`, where the rest of the input is a spelling of
/// `toks`, gives exactly `toks` and ends cleanly.
pub proof fn lemma_lex_spelled(
    cs: Seq<char>,
    i: int,
    ws: Seq<Seq<char>>,
    texts: Seq<Seq<char>>,
    toks: Seq<Token>,
)
    requires
        0 <= i <= cs.len(),
        cs.skip(i) == spelled(ws, texts),
        spelling_of(ws, texts, toks),
    ensures
        lex_from(cs, i).error is None,
        stream_tokens(lex_from(cs, i)) == toks,
    decreases toks.len(),
{
    let w = ws[0];
    assert(all_whitespace(ws[0]));
    if toks.len() == 0 {
        assert(cs.skip(i) == w);
        lemma_skip_concat(cs, i, w, Seq::empty());
        lemma_skip_ws_run(cs, i, w);
        assert(stream_tokens(lex_from(cs, i)) =~= toks);
    } else {
        let text = texts[0];
        let t = toks[0];
        assert(token_spelling(texts[0], toks[0]));
        let ws1 = ws.drop_first();
        let texts1 = texts.drop_first();
        let rest = spelled(ws1, texts1);
        assert(cs.skip(i) == w + text + rest);
        assert(w + text + rest == w + (text + rest));
        lemma_skip_concat(cs, i, w, text + rest);
        let j = i + w.len();
        lemma_skip_concat(cs, j, text, rest);
        let k = j + text.len();
        lemma_spelling_first_char(text, t);
        assert(cs[j] == cs.subrange(j, k)[0]);
        lemma_skip_ws_run(cs, i, w);
        lemma_spelling_tail(ws, texts, toks);
        if t is Number {
            // what follows the digits is whitespace, a token other than a
            // number, or the end
            if k < cs.len() {
                assert(cs[k] == rest[0]) by {
                    assert(cs.skip(k)[0] == cs[k]);
                }
                assert(all_whitespace(ws1[0]));
                if ws1[0].len() > 0 {
                    assert(rest == ws1[0] + texts1[0] + spelled(ws1.drop_first(), texts1.drop_first())
                        || texts1.len() == 0);
                    if texts1.len() == 0 {
                        assert(rest == ws1[0]);
                    }
                    assert(rest[0] == ws1[0][0]);
                    assert(is_whitespace_char(ws1[0][0]));
                    assert(!is_digit_char(rest[0]));
                } else {
                    if texts1.len() == 0 {
                        assert(rest == ws1[0]);
                        assert(false);
                    }
                    assert(toks.len() > 1);
                    assert(!(toks[1] is Number)) by {
                        if toks[1] is Number {
                            assert(ws[1].len() > 0);
                        }
                    }
                    assert(token_spelling(texts1[0], toks[1]));
                    lemma_spelling_first_char(texts1[0], toks[1]);
                    assert(rest == ws1[0] + texts1[0] + spelled(
                        ws1.drop_first(),
                        texts1.drop_first(),
                    ));
                    assert(ws1[0] + texts1[0] + spelled(ws1.drop_first(), texts1.drop_first()) =~= texts1[0]
                        + spelled(ws1.drop_first(), texts1.drop_first()));
                    assert(rest[0] == texts1[0][0]);
                }
            }
            lemma_digits_run(cs, j, text);
        }
        assert(spec_next_token(cs, i) == Ok::<(Option<Token>, int), crate::lexer::ParseError>(
            (Some(t), k),
        ));
        lemma_lex_spelled(cs, k, ws1, texts1, toks.drop_first());
        assert(stream_tokens(lex_from(cs, i)) =~= seq![t] + stream_tokens(lex_from(cs, k)));
        assert(seq![t] + toks.drop_first() =~= toks);
    }
}

/// A spelling of `toks` lexes to exactly `toks`, without error.
pub proof fn lemma_lex_spelling(ws: Seq<Seq<char>>, texts: Seq<Seq<char>>, toks: Seq<Token>)
    requires
        spelling_of(ws, texts, toks),
    ensures
        lex_stream(spelled(ws, texts)).error is None,
        stream_tokens(lex_stream(spelled(ws, texts))) == toks,
{
    let cs = spelled(ws, texts);
    assert(cs.skip(0) =~= cs);
    lemma_lex_spelled(cs, 0, ws, texts, toks);
}

/// Whitespace around tokens and the case of `v` and `h` do not change a
/// parse: two spellings of the same tokens are both accepted or both
/// rejected, and when accepted they give the same layout.
pub proof fn lemma_parse_independent_of_spelling(
    ws1: Seq<Seq<char>>,
    texts1: Seq<Seq<char>>,
    ws2: Seq<Seq<char>>,
    texts2: Seq<Seq<char>>,
    toks: Seq<Token>,
)
    requires
        spelling_of(ws1, texts1, toks),
        spelling_of(ws2, texts2, toks),
    ensures
        spec_parse(spelled(ws1, texts1)) is Ok <==> spec_parse(spelled(ws2, texts2)) is Ok,
        forall|l: LayoutView|
            #[trigger] spec_parse(spelled(ws1, texts1)) == Ok::<LayoutView, crate::lexer::ParseError>(l)
                <==> spec_parse(spelled(ws2, texts2)) == Ok::<LayoutView, crate::lexer::ParseError>(
                l,
            ),
{
    let a = spelled(ws1, texts1);
    let b = spelled(ws2, texts2);
    lemma_lex_spelling(ws1, texts1, toks);
    lemma_lex_spelling(ws2, texts2, toks);
    assert forall|l: LayoutView|
        #[trigger] spec_parse(a) == Ok::<LayoutView, crate::lexer::ParseError>(l) <==> spec_parse(b)
            == Ok::<LayoutView, crate::lexer::ParseError>(l) by {
        lemma_parse_iff_derived(a, l);
        lemma_parse_iff_derived(b, l);
    }
    if spec_parse(a) is Ok {
        let l = spec_parse(a)->Ok_0;
        assert(spec_parse(a) == Ok::<LayoutView, crate::lexer::ParseError>(l));
    }
    if spec_parse(b) is Ok {
        let l = spec_parse(b)->Ok_0;
        assert(spec_parse(b) == Ok::<LayoutView, crate::lexer::ParseError>(l));
    }
}

/// `c` begins a token: `v`, `V`, `h`, `H`, a parenthesis, a comma or an
/// ASCII digit.
pub open spec fn starts_token(c: char) -> bool {
    c == 'v' || c == 'V' || c == 'h' || c == 'H' || c == '(' || c == ')' || c == ','
        || is_digit_char(c)
}

/// `bad` is where the lexer stops with an error: a single character that is
/// neither whitespace nor the start of a token, or a run of digits whose
/// value does not fit in `u32`.
pub open spec fn rejected_start(bad: Seq<char>) -> bool {
    ||| bad.len() == 1 && !is_whitespace_char(bad[0]) && !starts_token(bad[0])
    ||| bad.len() > 0 && all_digits(bad) && digits_value(bad) > u32::MAX
}

/// `texts` spell `toks` with the whitespace `ws`, and `bad` follows them as a
/// separate piece: digits of `bad` are not glued to a number just before.
pub open spec fn rejected_spelling_of(
    ws: Seq<Seq<char>>,
    texts: Seq<Seq<char>>,
    toks: Seq<Token>,
    bad: Seq<char>,
) -> bool {
    &&& spelling_of(ws, texts, toks)
    &&& rejected_start(bad)
    &&& toks.len() > 0 && toks[toks.len() - 1] is Number && is_digit_char(bad[0]) ==> ws[ws.len()
        - 1].len() > 0
}

/// A run of `n` digits from index `j` on lies inside the number that starts
/// there.
proof fn lemma_digits_through(cs: Seq<char>, j: int, n: int)
    requires
        0 <= j,
        0 <= n,
        j + n <= cs.len(),
        forall|k: int| j <= k < j + n ==> is_digit_char(#[trigger] cs[k]),
    ensures
        j + n <= digits_end(cs, j),
    decreases n,
{
    if n > 0 {
        assert(is_digit_char(cs[j]));
        lemma_digits_through(cs, j + 1, n - 1);
    } else {
        crate::lexer::lemma_digits_end_bounds(cs, j);
    }
}

/// Where the rest of the input starts with a rejected piece, the lexer stops
/// there with an error.
proof fn lemma_rejected_start_errs(cs: Seq<char>, j: int, bad: Seq<char>, rest: Seq<char>)
    requires
        0 <= j <= cs.len(),
        cs.skip(j) == bad + rest,
        rejected_start(bad),
    ensures
        lex_from(cs, j).error is Some,
{
    lemma_skip_concat(cs, j, bad, rest);
    assert(cs[j] == cs.subrange(j, j + bad.len())[0]);
    assert(skip_ws(cs, j) == j);
    if bad.len() > 0 && all_digits(bad) && digits_value(bad) > u32::MAX {
        assert forall|k: int| j <= k < j + bad.len() implies is_digit_char(#[trigger] cs[k]) by {
            assert(cs.subrange(j, j + bad.len())[k - j] == bad[k - j]);
        }
        lemma_digits_through(cs, j, bad.len() as int);
        crate::lexer::lemma_digits_end_bounds(cs, j);
        let e = digits_end(cs, j);
        let ds = cs.subrange(j, e);
        lemma_digits_value_prefix_grows(ds, bad.len() as int);
        assert(ds.take(bad.len() as int) =~= bad) by {
            assert forall|k: int| 0 <= k < bad.len() implies ds.take(bad.len() as int)[k] == bad[k] by {
                assert(cs.subrange(j, j + bad.len())[k] == bad[k]);
            }
        }
    }
    assert(spec_next_token(cs, j) is Err);
}

/// Lexing through a spelling of some tokens followed by `tail` ends as
/// lexing from the start of `tail` does.
proof fn lemma_lex_spelled_then(
    cs: Seq<char>,
    i: int,
    ws: Seq<Seq<char>>,
    texts: Seq<Seq<char>>,
    toks: Seq<Token>,
    tail: Seq<char>,
)
    requires
        0 <= i <= cs.len(),
        cs.skip(i) == spelled(ws, texts) + tail,
        spelling_of(ws, texts, toks),
        tail.len() > 0 ==> !is_whitespace_char(tail[0]),
        tail.len() > 0 && is_digit_char(tail[0]) && toks.len() > 0 && toks[toks.len() - 1] is Number
            ==> ws[ws.len() - 1].len() > 0,
    ensures
        i + spelled(ws, texts).len() <= cs.len(),
        lex_from(cs, i).error == lex_from(cs, i + spelled(ws, texts).len()).error,
    decreases toks.len(),
{
    let w = ws[0];
    assert(all_whitespace(ws[0]));
    if toks.len() == 0 {
        assert(spelled(ws, texts) == w);
        lemma_skip_concat(cs, i, w, tail);
        let j = i + w.len();
        if j < cs.len() {
            assert(cs[j] == tail[0]) by {
                assert(cs.skip(j)[0] == cs[j]);
            }
        }
        lemma_skip_ws_run(cs, i, w);
        assert(skip_ws(cs, j) == j);
        assert(spec_next_token(cs, i) == spec_next_token(cs, j));
    } else {
        let text = texts[0];
        let t = toks[0];
        assert(token_spelling(texts[0], toks[0]));
        let ws1 = ws.drop_first();
        let texts1 = texts.drop_first();
        let toks1 = toks.drop_first();
        let rest = spelled(ws1, texts1);
        assert(spelled(ws, texts) == w + text + rest);
        assert(w + text + rest + tail == w + (text + (rest + tail)));
        lemma_skip_concat(cs, i, w, text + (rest + tail));
        let j = i + w.len();
        lemma_skip_concat(cs, j, text, rest + tail);
        let k = j + text.len();
        lemma_spelling_first_char(text, t);
        assert(cs[j] == cs.subrange(j, k)[0]);
        lemma_skip_ws_run(cs, i, w);
        lemma_spelling_tail(ws, texts, toks);
        if t is Number {
            if k < cs.len() {
                assert(cs[k] == (rest + tail)[0]) by {
                    assert(cs.skip(k)[0] == cs[k]);
                }
                assert(all_whitespace(ws1[0]));
                if ws1[0].len() > 0 {
                    if texts1.len() == 0 {
                        assert(rest == ws1[0]);
                    } else {
                        assert(rest == ws1[0] + texts1[0] + spelled(
                            ws1.drop_first(),
                            texts1.drop_first(),
                        ));
                    }
                    assert((rest + tail)[0] == ws1[0][0]);
                    assert(is_whitespace_char(ws1[0][0]));
                } else if texts1.len() == 0 {
                    assert(rest == ws1[0]);
                    assert(rest + tail =~= tail);
                    assert(toks[toks.len() - 1] == t);
                    assert(ws[ws.len() - 1] == ws1[0]);
                } else {
                    assert(!(toks[1] is Number)) by {
                        if toks[1] is Number {
                            assert(ws[1].len() > 0);
                        }
                    }
                    assert(token_spelling(texts1[0], toks[1]));
                    lemma_spelling_first_char(texts1[0], toks[1]);
                    assert(rest == ws1[0] + texts1[0] + spelled(
                        ws1.drop_first(),
                        texts1.drop_first(),
                    ));
                    assert(ws1[0] + texts1[0] + spelled(ws1.drop_first(), texts1.drop_first())
                        =~= texts1[0] + spelled(ws1.drop_first(), texts1.drop_first()));
                    assert((rest + tail)[0] == texts1[0][0]);
                }
            }
            lemma_digits_run(cs, j, text);
        }
        assert(spec_next_token(cs, i) == Ok::<(Option<Token>, int), crate::lexer::ParseError>(
            (Some(t), k),
        ));
        if toks1.len() > 0 {
            assert(toks1[toks1.len() - 1] == toks[toks.len() - 1]);
            assert(ws1[ws1.len() - 1] == ws[ws.len() - 1]);
        }
        lemma_lex_spelled_then(cs, k, ws1, texts1, toks1, tail);
    }
}

/// A spelling of some tokens followed by a rejected piece, whatever comes
/// after it, ends in a lexing error.
pub proof fn lemma_lex_rejects_spelling(
    ws: Seq<Seq<char>>,
    texts: Seq<Seq<char>>,
    toks: Seq<Token>,
    bad: Seq<char>,
    rest: Seq<char>,
)
    requires
        rejected_spelling_of(ws, texts, toks, bad),
    ensures
        lex_stream(spelled(ws, texts) + bad + rest).error is Some,
{
    let a = spelled(ws, texts);
    let cs = a + bad + rest;
    assert(cs.skip(0) =~= a + (bad + rest));
    assert((bad + rest)[0] == bad[0]);
    lemma_lex_spelled_then(cs, 0, ws, texts, toks, bad + rest);
    assert(cs.skip(a.len() as int) =~= bad + rest);
    lemma_rejected_start_errs(cs, a.len() as int, bad, rest);
}

/// Whitespace around tokens and the case of `v` and `h` do not change a
/// rejection by the lexer either: two spellings of the same tokens, each
/// followed by a piece the lexer rejects (a stray character or a number
/// over `u32`) and then anything, are both rejected.
pub proof fn lemma_rejected_spellings_alike(
    ws1: Seq<Seq<char>>,
    texts1: Seq<Seq<char>>,
    bad1: Seq<char>,
    rest1: Seq<char>,
    ws2: Seq<Seq<char>>,
    texts2: Seq<Seq<char>>,
    bad2: Seq<char>,
    rest2: Seq<char>,
    toks: Seq<Token>,
)
    requires
        rejected_spelling_of(ws1, texts1, toks, bad1),
        rejected_spelling_of(ws2, texts2, toks, bad2),
    ensures
        spec_parse(spelled(ws1, texts1) + bad1 + rest1) is Err,
        spec_parse(spelled(ws2, texts2) + bad2 + rest2) is Err,
{
    lemma_lex_rejects_spelling(ws1, texts1, toks, bad1, rest1);
    lemma_lex_error_rejects(spelled(ws1, texts1) + bad1 + rest1);
    lemma_lex_rejects_spelling(ws2, texts2, toks, bad2, rest2);
    lemma_lex_error_rejects(spelled(ws2, texts2) + bad2 + rest2);
}

} // verus!
