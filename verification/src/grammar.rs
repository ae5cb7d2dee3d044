//! The layout DSL's grammar as a derivation of token sequences, and the
//! proof that the parser accepts exactly the derived sequences and returns
//! the tree they derive.
//!
//! ```text
//! layout  := 'v' '(' entries ')' | 'h' '(' entries ')' | number
//! entries := layout (',' layout)*
//! ```

use vstd::prelude::*;

use crate::layout::{Direction, LayoutView};
use crate::lexer::Token;
use crate::parser::{
    lex_stream, sp_advance, sp_expect, sp_layout, sp_list, sp_more, spec_parse, spec_parse_stream,
    TokenStream,
};

verus! {

/// The token that opens a split in `direction`.
pub open spec fn split_token(direction: Direction) -> Token {
    match direction {
        Direction::Vertical => Token::V,
        Direction::Horizontal => Token::H,
    }
}

/// The tokens that derive `l` with weight `w`: a pane is its weight; a split
/// is `v` or `h`, then its entries in parentheses.
pub open spec fn layout_tokens(w: u32, l: LayoutView) -> Seq<Token>
    decreases l,
{
    match l {
        LayoutView::Pane => seq![Token::Number(w)],
        LayoutView::Split { direction, children } => seq![split_token(direction), Token::LParen]
            + entries_tokens(children) + seq![Token::RParen],
    }
}

/// The tokens of weighted layouts separated by commas.
pub open spec fn entries_tokens(cs: Seq<(u32, LayoutView)>) -> Seq<Token>
    decreases cs,
{
    if cs.len() == 0 {
        Seq::empty()
    } else if cs.len() == 1 {
        layout_tokens(cs[0].0, cs[0].1)
    } else {
        layout_tokens(cs[0].0, cs[0].1) + seq![Token::Comma] + entries_tokens(cs.drop_first())
    }
}

/// The trees the grammar derives: every split has at least one child, and a
/// split that is a child has weight 1 (the DSL gives splits no weight).
pub open spec fn dsl_layout(l: LayoutView) -> bool
    decreases l,
{
    match l {
        LayoutView::Pane => true,
        LayoutView::Split { children, .. } => children.len() >= 1 && dsl_children(children),
    }
}

/// Every child is a DSL tree, with weight 1 when it is a split.
pub open spec fn dsl_children(cs: Seq<(u32, LayoutView)>) -> bool
    decreases cs,
{
    if cs.len() == 0 {
        true
    } else {
        &&& (cs[0].1 is Split ==> cs[0].0 == 1)
        &&& dsl_layout(cs[0].1)
        &&& dsl_children(cs.drop_first())
    }
}

/// The tokens of a stream, without their positions.
pub open spec fn stream_tokens(s: TokenStream) -> Seq<Token> {
    s.toks.map_values(|p: (Token, usize)| p.0)
}

/// The weight the parser gives a layout: a pane keeps its number, a split
/// has weight 1.
pub open spec fn parsed_weight(w: u32, l: LayoutView) -> u32 {
    if l is Pane {
        w
    } else {
        1
    }
}

/// A derivation has at least one token.
proof fn lemma_layout_tokens_nonempty(w: u32, l: LayoutView)
    ensures
        layout_tokens(w, l).len() >= 1,
{
}

/// Splitting a window of a sequence that equals `x + y`.
proof fn lemma_window_split(t: Seq<Token>, a: int, b: int, x: Seq<Token>, y: Seq<Token>)
    requires
        0 <= a <= b <= t.len(),
        t.subrange(a, b) == x + y,
    ensures
        a + x.len() <= b,
        t.subrange(a, a + x.len()) == x,
        t.subrange(a + x.len(), b) == y,
{
    assert(t.subrange(a, b).len() == x.len() + y.len());
    assert(t.subrange(a, a + x.len()) =~= t.subrange(a, b).subrange(0, x.len() as int));
    assert(t.subrange(a + x.len(), b) =~= t.subrange(a, b).subrange(x.len() as int, b - a));
}

// ---------------------------------------------------------------------------
// Completeness: a derived token sequence parses to its tree
// ---------------------------------------------------------------------------

proof fn lemma_layout_complete(s: TokenStream, k: int, w: u32, l: LayoutView)
    requires
        0 <= k,
        dsl_layout(l),
        k + layout_tokens(w, l).len() <= s.toks.len(),
        stream_tokens(s).subrange(k, k + layout_tokens(w, l).len()) == layout_tokens(w, l),
        k + layout_tokens(w, l).len() < s.toks.len() || s.error is None,
    ensures
        sp_layout(s, k) == Ok::<((u32, LayoutView), int), crate::lexer::ParseError>(
            ((parsed_weight(w, l), l), k + layout_tokens(w, l).len()),
        ),
    decreases l,
{
    let t = layout_tokens(w, l);
    let ts = stream_tokens(s);
    assert(ts[k] == ts.subrange(k, k + t.len())[0]);
    match l {
        LayoutView::Pane => {
            assert(s.toks[k].0 == ts[k]);
        },
        LayoutView::Split { direction, children } => {
            let e = entries_tokens(children);
            let n = t.len();
            assert(t == seq![split_token(direction), Token::LParen] + e + seq![Token::RParen]);
            lemma_layout_tokens_nonempty(children[0].0, children[0].1);
            lemma_entries_tokens_nonempty(children);
            assert(s.toks[k].0 == ts[k]);
            assert(ts[k + 1] == ts.subrange(k, k + n)[1]);
            assert(s.toks[k + 1].0 == ts[k + 1]);
            assert(sp_advance(s, k) == Ok::<int, crate::lexer::ParseError>(k + 1));
            assert(sp_expect(s, k + 1, Token::LParen) == Ok::<int, crate::lexer::ParseError>(
                k + 2,
            ));
            let ke = k + 2 + e.len();
            assert(ts.subrange(k + 2, ke) =~= e) by {
                assert forall|j: int| 0 <= j < e.len() implies ts.subrange(k + 2, ke)[j] == e[j] by {
                    assert(ts.subrange(k + 2, ke)[j] == ts.subrange(k, k + n)[j + 2]);
                }
            }
            assert(ts[ke] == ts.subrange(k, k + n)[n - 1]);
            assert(s.toks[ke].0 == ts[ke]);
            lemma_entries_complete(s, k + 2, children, Seq::empty());
            assert(Seq::<(u32, LayoutView)>::empty() + children =~= children);
            assert(sp_expect(s, ke, Token::RParen) == Ok::<int, crate::lexer::ParseError>(ke + 1));
        },
    }
}

proof fn lemma_entries_tokens_nonempty(cs: Seq<(u32, LayoutView)>)
    requires
        cs.len() >= 1,
    ensures
        entries_tokens(cs).len() >= 1,
{
    lemma_layout_tokens_nonempty(cs[0].0, cs[0].1);
}

proof fn lemma_entries_complete(
    s: TokenStream,
    k: int,
    cs: Seq<(u32, LayoutView)>,
    acc: Seq<(u32, LayoutView)>,
)
    requires
        0 <= k,
        cs.len() >= 1,
        dsl_children(cs),
        k + entries_tokens(cs).len() < s.toks.len(),
        stream_tokens(s).subrange(k, k + entries_tokens(cs).len()) == entries_tokens(cs),
        s.toks[k + entries_tokens(cs).len()].0 != Token::Comma,
    ensures
        sp_list(s, k, acc) == Ok::<(Seq<(u32, LayoutView)>, int), crate::lexer::ParseError>(
            (acc + cs, k + entries_tokens(cs).len()),
        ),
    decreases cs,
{
    let ts = stream_tokens(s);
    let e = entries_tokens(cs);
    let first = layout_tokens(cs[0].0, cs[0].1);
    let kf = k + first.len();
    if cs.len() == 1 {
        assert(e == first);
        lemma_layout_complete(s, k, cs[0].0, cs[0].1);
        assert(parsed_weight(cs[0].0, cs[0].1) == cs[0].0);
        assert((parsed_weight(cs[0].0, cs[0].1), cs[0].1) == cs[0]);
        assert(sp_more(s, kf, acc.push(cs[0])) == Ok::<
            (Seq<(u32, LayoutView)>, int),
            crate::lexer::ParseError,
        >((acc.push(cs[0]), kf)));
        assert(acc.push(cs[0]) =~= acc + cs);
    } else {
        let rest = cs.drop_first();
        let er = entries_tokens(rest);
        assert(e == first + seq![Token::Comma] + er);
        lemma_window_split(ts, k, k + e.len(), first + seq![Token::Comma], er);
        lemma_window_split(ts, k, k + first.len() + 1, first, seq![Token::Comma]);
        lemma_entries_tokens_nonempty(rest);
        lemma_layout_complete(s, k, cs[0].0, cs[0].1);
        assert((parsed_weight(cs[0].0, cs[0].1), cs[0].1) == cs[0]);
        assert(ts[kf] == ts.subrange(kf, kf + 1)[0]);
        assert(s.toks[kf].0 == ts[kf]);
        assert(sp_advance(s, kf) == Ok::<int, crate::lexer::ParseError>(kf + 1));
        lemma_entries_complete(s, kf + 1, rest, acc.push(cs[0]));
        assert(acc.push(cs[0]) + rest =~= acc + cs);
    }
}

// ---------------------------------------------------------------------------
// Soundness: what parses is a derived token sequence of its tree
// ---------------------------------------------------------------------------

/// After an advance, the stream either goes on or ended cleanly.
pub open spec fn clean_stop(s: TokenStream, k: int) -> bool {
    k < s.toks.len() || s.error is None
}

proof fn lemma_layout_sound(s: TokenStream, k: int)
    requires
        0 <= k,
    ensures
        sp_layout(s, k) matches Ok(((w, l), k1)) ==> {
            &&& k < k1 <= s.toks.len()
            &&& clean_stop(s, k1)
            &&& dsl_layout(l)
            &&& w == parsed_weight(w, l)
            &&& stream_tokens(s).subrange(k, k1) == layout_tokens(w, l)
        },
    decreases s.toks.len() - k, 0nat,
{
    let ts = stream_tokens(s);
    if 0 <= k < s.toks.len() {
        match s.toks[k].0 {
            Token::V | Token::H => {
                if let Ok(((w, l), k4)) = sp_layout(s, k) {
                    let direction = if s.toks[k].0 == Token::V {
                        Direction::Vertical
                    } else {
                        Direction::Horizontal
                    };
                    let k2 = k + 2;
                    assert(sp_advance(s, k) == Ok::<int, crate::lexer::ParseError>(k + 1));
                    assert(sp_expect(s, k + 1, Token::LParen) == Ok::<int, crate::lexer::ParseError>(
                        k2,
                    ));
                    lemma_list_sound(s, k2, Seq::empty());
                    let (children, k3) = sp_list(s, k2, Seq::empty())->Ok_0;
                    assert(sp_expect(s, k3, Token::RParen) == Ok::<int, crate::lexer::ParseError>(
                        k4,
                    ));
                    assert(k4 == k3 + 1);
                    assert(children.skip(0) =~= children);
                    assert(l == LayoutView::Split { direction, children });
                    let e = entries_tokens(children);
                    assert(ts.subrange(k, k4) =~= seq![split_token(direction), Token::LParen] + e
                        + seq![Token::RParen]) by {
                        assert(ts.subrange(k2, k3) == e);
                        assert forall|j: int| 0 <= j < k4 - k implies ts.subrange(k, k4)[j] == (
                        seq![split_token(direction), Token::LParen] + e + seq![Token::RParen])[j] by {
                            if j >= 2 && j < k3 - k {
                                assert(ts.subrange(k, k4)[j] == ts.subrange(k2, k3)[j - 2]);
                            }
                        }
                    }
                }
            },
            Token::Number(n) => {},
            _ => {},
        }
    }
}

proof fn lemma_list_sound(s: TokenStream, k: int, acc: Seq<(u32, LayoutView)>)
    requires
        0 <= k,
    ensures
        sp_list(s, k, acc) matches Ok((res, k1)) ==> {
            &&& k < k1 <= s.toks.len()
            &&& clean_stop(s, k1)
            &&& acc.len() < res.len()
            &&& res.take(acc.len() as int) == acc
            &&& dsl_children(res.skip(acc.len() as int))
            &&& stream_tokens(s).subrange(k, k1) == entries_tokens(res.skip(acc.len() as int))
        },
    decreases s.toks.len() - k, 1nat,
{
    lemma_layout_sound(s, k);
    if let Ok((entry, k1)) = sp_layout(s, k) {
        if k < k1 <= s.toks.len() {
            let acc1 = acc.push(entry);
            lemma_more_sound(s, k1, acc1);
            if let Ok((res, k2)) = sp_list(s, k, acc) {
                assert(sp_more(s, k1, acc1) == Ok::<
                    (Seq<(u32, LayoutView)>, int),
                    crate::lexer::ParseError,
                >((res, k2)));
                let new = res.skip(acc.len() as int);
                let more = res.skip(acc1.len() as int);
                assert(res.take(acc.len() as int) =~= acc1.take(acc.len() as int));
                assert(new.drop_first() =~= more);
                assert(new[0] == entry) by {
                    assert(res.take(acc1.len() as int)[acc.len() as int] == acc1[acc.len() as int]);
                }
                let ts = stream_tokens(s);
                let first = layout_tokens(entry.0, entry.1);
                if more.len() == 0 {
                    assert(k2 == k1);
                    assert(new.len() == 1);
                } else {
                    let em = entries_tokens(more);
                    assert(entries_tokens(new) == first + seq![Token::Comma] + em);
                    assert(ts.subrange(k, k2) =~= first + seq![Token::Comma] + em) by {
                        assert(ts.subrange(k, k1) == first);
                        assert(ts.subrange(k1 + 1, k2) == em);
                        assert(ts[k1] == Token::Comma) by {
                            assert(s.toks[k1].0 == Token::Comma);
                        }
                        assert forall|j: int| 0 <= j < k2 - k implies ts.subrange(k, k2)[j] == (
                        first + seq![Token::Comma] + em)[j] by {
                            if j < k1 - k {
                                assert(ts.subrange(k, k2)[j] == ts.subrange(k, k1)[j]);
                            } else if j > k1 - k {
                                assert(ts.subrange(k, k2)[j] == ts.subrange(k1 + 1, k2)[j - (k1 + 1
                                    - k)]);
                            }
                        }
                    }
                }
            }
        }
    }
}

proof fn lemma_more_sound(s: TokenStream, k: int, acc: Seq<(u32, LayoutView)>)
    requires
        0 <= k,
        clean_stop(s, k),
        k <= s.toks.len(),
    ensures
        sp_more(s, k, acc) matches Ok((res, k1)) ==> {
            &&& k <= k1 <= s.toks.len()
            &&& clean_stop(s, k1)
            &&& acc.len() <= res.len()
            &&& res.take(acc.len() as int) == acc
            &&& dsl_children(res.skip(acc.len() as int))
            &&& (res.len() == acc.len() ==> k1 == k)
            &&& (res.len() > acc.len() ==> {
                &&& k < k1
                &&& s.toks[k].0 == Token::Comma
                &&& stream_tokens(s).subrange(k + 1, k1) == entries_tokens(
                    res.skip(acc.len() as int),
                )
            })
        },
    decreases s.toks.len() - k, 2nat,
{
    if 0 <= k < s.toks.len() && s.toks[k].0 == Token::Comma {
        if let Ok(k2) = sp_advance(s, k) {
            lemma_list_sound(s, k2, acc);
        }
    } else {
        assert(acc.skip(acc.len() as int) =~= Seq::<(u32, LayoutView)>::empty());
        assert(acc.take(acc.len() as int) =~= acc);
    }
}

// ---------------------------------------------------------------------------
// The law
// ---------------------------------------------------------------------------

/// A token stream parses to `l` exactly when it ends without a lexing error
/// and its tokens derive `l` in the grammar (with some weight, which parsing
/// drops); `l` is then a tree the grammar derives.
pub proof fn lemma_parse_stream_iff_derived(s: TokenStream, l: LayoutView)
    ensures
        spec_parse_stream(s) == Ok::<LayoutView, crate::lexer::ParseError>(l) <==> {
            &&& s.error is None
            &&& dsl_layout(l)
            &&& exists|w: u32| stream_tokens(s) == #[trigger] layout_tokens(w, l)
        },
{
    let ts = stream_tokens(s);
    lemma_layout_sound(s, 0);
    if spec_parse_stream(s) == Ok::<LayoutView, crate::lexer::ParseError>(l) {
        let ((w, l2), k) = sp_layout(s, 0)->Ok_0;
        assert(k == s.toks.len());
        assert(ts.subrange(0, k) =~= ts);
        assert(ts == layout_tokens(w, l));
    }
    if s.error is None && dsl_layout(l) && exists|w: u32| ts == #[trigger] layout_tokens(w, l) {
        let w = choose|w: u32| ts == #[trigger] layout_tokens(w, l);
        lemma_layout_tokens_nonempty(w, l);
        assert(ts.subrange(0, ts.len() as int) =~= ts);
        lemma_layout_complete(s, 0, w, l);
    }
}

/// The DSL parser accepts exactly the inputs whose tokens the grammar
/// derives: `parse` returns `Ok(l)` on an input exactly when the input lexes
/// without error into the tokens of `l` (for some weight), and `l` is then a
/// tree of the grammar.
pub proof fn lemma_parse_iff_derived(cs: Seq<char>, l: LayoutView)
    ensures
        spec_parse(cs) == Ok::<LayoutView, crate::lexer::ParseError>(l) <==> {
            &&& lex_stream(cs).error is None
            &&& dsl_layout(l)
            &&& exists|w: u32| stream_tokens(lex_stream(cs)) == #[trigger] layout_tokens(w, l)
        },
{
    lemma_parse_stream_iff_derived(lex_stream(cs), l);
}

} // verus!
