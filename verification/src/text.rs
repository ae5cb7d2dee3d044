//! Character-level helpers shared by the DSL lexer and the argument parsers:
//! the characters of a string, Unicode whitespace, UTF-8 widths, decimal
//! numbers, trimming and splitting.

use vstd::prelude::*;
use vstd::utf8::*;

verus! {

// ---------------------------------------------------------------------------
// Characters of a string
// ---------------------------------------------------------------------------

/// Number of bytes in the UTF-8 encoding of `c`.
pub open spec fn utf8_width(c: char) -> nat {
    if (c as u32) < 0x80 {
        1
    } else if (c as u32) < 0x800 {
        2
    } else if (c as u32) < 0x10000 {
        3
    } else {
        4
    }
}

/// Number of bytes in the UTF-8 encoding of `cs`.
pub open spec fn byte_len(cs: Seq<char>) -> nat
    decreases cs.len(),
{
    if cs.len() == 0 {
        0
    } else {
        utf8_width(cs[0]) + byte_len(cs.drop_first())
    }
}

/// Byte offset of the character at index `i` of `cs`.
pub open spec fn byte_offset(cs: Seq<char>, i: int) -> nat {
    byte_len(cs.take(i))
}

/// `byte_len` is the length of the UTF-8 encoding.
pub proof fn lemma_byte_len_encode(cs: Seq<char>)
    ensures
        byte_len(cs) == encode_utf8(cs).len(),
    decreases cs.len(),
{
    if cs.len() > 0 {
        char_is_scalar(cs[0]);
        lemma_byte_len_encode(cs.drop_first());
    }
}

/// `byte_len` adds up over concatenation.
pub proof fn lemma_byte_len_concat(a: Seq<char>, b: Seq<char>)
    ensures
        byte_len(a + b) == byte_len(a) + byte_len(b),
    decreases a.len(),
{
    if a.len() > 0 {
        assert((a + b).drop_first() =~= a.drop_first() + b);
        lemma_byte_len_concat(a.drop_first(), b);
    }
}

/// The byte offset of the next character is that of this one plus its width.
pub proof fn lemma_byte_offset_step(cs: Seq<char>, i: int)
    requires
        0 <= i < cs.len(),
    ensures
        byte_offset(cs, i + 1) == byte_offset(cs, i) + utf8_width(cs[i]),
{
    assert(cs.take(i + 1) =~= cs.take(i) + seq![cs[i]]);
    lemma_byte_len_concat(cs.take(i), seq![cs[i]]);
    assert(byte_len(seq![cs[i]]) == utf8_width(cs[i])) by {
        assert(seq![cs[i]].drop_first() =~= Seq::<char>::empty());
        reveal_with_fuel(byte_len, 2);
    }
}

/// Byte offsets grow with the index and stay within the whole length.
pub proof fn lemma_byte_offset_bound(cs: Seq<char>, i: int)
    requires
        0 <= i <= cs.len(),
    ensures
        byte_offset(cs, i) <= byte_len(cs),
{
    assert(cs =~= cs.take(i) + cs.skip(i));
    lemma_byte_len_concat(cs.take(i), cs.skip(i));
}

/// Byte offsets never decrease as the index grows.
pub proof fn lemma_byte_offset_monotone(cs: Seq<char>, i: int, j: int)
    requires
        0 <= i <= j <= cs.len(),
    ensures
        byte_offset(cs, i) <= byte_offset(cs, j),
{
    lemma_byte_offset_bound(cs.take(j), i);
    assert(cs.take(j).take(i) =~= cs.take(i));
}

/// The byte offset of any character index falls on a character boundary of
/// the UTF-8 encoding.
pub proof fn lemma_byte_offset_char_boundary(cs: Seq<char>, i: int)
    requires
        0 <= i <= cs.len(),
    ensures
        is_char_boundary(encode_utf8(cs), byte_offset(cs, i) as int),
    decreases cs.len(),
{
    encode_utf8_valid_utf8(cs);
    if i > 0 {
        let bytes = encode_utf8(cs);
        let rest = cs.drop_first();
        encode_utf8_first_scalar(cs);
        char_is_scalar(cs[0]);
        assert(pop_first_scalar(bytes) =~= encode_utf8(rest));
        lemma_byte_offset_step(cs, 0);
        assert(cs.take(i) =~= cs.take(1) + rest.take(i - 1));
        lemma_byte_len_concat(cs.take(1), rest.take(i - 1));
        assert(cs.take(1) =~= seq![cs[0]]);
        assert(cs.take(0) =~= Seq::<char>::empty());
        lemma_byte_offset_bound(cs, i);
        lemma_byte_len_encode(cs);
        lemma_byte_offset_char_boundary(rest, i - 1);
    }
}

/// The characters of `s`, in order.
pub fn str_chars(s: &str) -> (v: Vec<char>)
    ensures
        v@ == s@,
        byte_len(s@) <= usize::MAX,
{
    let bytes = s.as_bytes();
    let _n = bytes.len();
    proof {
        lemma_byte_len_encode(s@);
    }
    let mut v: Vec<char> = Vec::new();
    for c in it: s.chars()
        invariant
            it.seq() == s@,
            v@ == s@.take(it.index()),
    {
        proof {
            assert(s@.take(it.index() + 1) =~= v@.push(c));
        }
        v.push(c);
    }
    assert(v@ =~= s@);
    v
}

// ---------------------------------------------------------------------------
// Character classes
// ---------------------------------------------------------------------------

/// The characters with the Unicode `White_Space` property, which are the
/// ones `char::is_whitespace` accepts.
pub open spec fn is_whitespace_char(c: char) -> bool {
    let u = c as u32;
    ||| 0x09 <= u <= 0x0D
    ||| u == 0x20
    ||| u == 0x85
    ||| u == 0xA0
    ||| u == 0x1680
    ||| 0x2000 <= u <= 0x200A
    ||| u == 0x2028
    ||| u == 0x2029
    ||| u == 0x202F
    ||| u == 0x205F
    ||| u == 0x3000
}

/// Whether `c` is Unicode whitespace.
pub fn is_whitespace(c: char) -> (b: bool)
    ensures
        b == is_whitespace_char(c),
{
    let u = c as u32;
    (0x09 <= u && u <= 0x0D) || u == 0x20 || u == 0x85 || u == 0xA0 || u == 0x1680 || (0x2000
        <= u && u <= 0x200A) || u == 0x2028 || u == 0x2029 || u == 0x202F || u == 0x205F || u
        == 0x3000
}

/// ASCII decimal digit.
pub open spec fn is_digit_char(c: char) -> bool {
    '0' <= c && c <= '9'
}

/// Value of an ASCII decimal digit.
pub open spec fn digit_value(c: char) -> nat {
    (c as u32 - '0' as u32) as nat
}

/// Value of a string of decimal digits (0 for the empty string).
pub open spec fn digits_value(ds: Seq<char>) -> nat
    decreases ds.len(),
{
    if ds.len() == 0 {
        0
    } else {
        digits_value(ds.drop_last()) * 10 + digit_value(ds.last())
    }
}

/// Every character of `ds` is an ASCII digit.
pub open spec fn all_digits(ds: Seq<char>) -> bool {
    forall|i: int| 0 <= i < ds.len() ==> is_digit_char(#[trigger] ds[i])
}

/// The value of `cs[start..end]`, all ASCII digits, when it fits in
/// `max`; `None` when it does not.
pub fn digits_to_u32(cs: &Vec<char>, start: usize, end: usize, max: u32) -> (r: Option<u32>)
    requires
        start <= end <= cs@.len(),
        all_digits(cs@.subrange(start as int, end as int)),
    ensures
        match r {
            Some(v) => v as nat == digits_value(cs@.subrange(start as int, end as int)) && v
                <= max,
            None => digits_value(cs@.subrange(start as int, end as int)) > max,
        },
{
    let mut acc: u32 = 0;
    let mut i = start;
    while i < end
        invariant
            start <= i <= end <= cs@.len(),
            all_digits(cs@.subrange(start as int, end as int)),
            acc as nat == digits_value(cs@.subrange(start as int, i as int)),
            acc <= max,
        decreases end - i,
    {
        let ghost prefix = cs@.subrange(start as int, i as int);
        let ghost next = cs@.subrange(start as int, i + 1);
        assert(next.drop_last() =~= prefix);
        assert(cs@.subrange(start as int, end as int)[i - start] == cs@[i as int]);
        let d = cs[i] as u32 - '0' as u32;
        assert(digits_value(next) == acc * 10 + d);
        if d > max || acc > (max - d) / 10 {
            proof {
                lemma_digits_value_prefix_grows(cs@.subrange(start as int, end as int), i + 1 - start);
                assert(cs@.subrange(start as int, end as int).take(i + 1 - start) =~= next);
                if d <= max {
                    assert(acc * 10 + d > max) by (nonlinear_arith)
                        requires
                            acc > (max - d) / 10,
                            d <= max,
                    ;
                }
            }
            return None;
        }
        assert(acc * 10 + d <= max) by (nonlinear_arith)
            requires
                acc <= (max - d) / 10,
                d <= max,
        ;
        acc = acc * 10 + d;
        i = i + 1;
    }
    Some(acc)
}

/// The value of a digit string is at least that of any of its prefixes.
pub proof fn lemma_digits_value_prefix_grows(ds: Seq<char>, k: int)
    requires
        0 <= k <= ds.len(),
    ensures
        digits_value(ds.take(k)) <= digits_value(ds),
    decreases ds.len() - k,
{
    if k < ds.len() {
        lemma_digits_value_prefix_grows(ds.drop_last(), k);
        assert(ds.drop_last().take(k) =~= ds.take(k));
    } else {
        assert(ds.take(k) =~= ds);
    }
}

} // verus!
