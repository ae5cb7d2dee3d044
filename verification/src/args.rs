//! The command-line arguments of czor: a split direction, a ratio such as
//! `2:1`, and grid dimensions such as `2x3`.

use vstd::prelude::*;

use crate::layout::Direction;
use crate::lexer::skip_ws;
use crate::lexer::lemma_skip_ws_bounds;
use crate::text::{all_digits, digits_to_u32, digits_value, is_whitespace, is_whitespace_char, str_chars};

verus! {

/// Why a command-line argument was rejected.
#[derive(Debug, Clone, Copy, PartialEq, Eq, Structural)]
pub enum ArgError {
    /// The direction is none of `v`, `vertical`, `h`, `horizontal`.
    InvalidDirection,
    /// A part of the ratio is not a `u32`.
    InvalidRatio,
    /// A part of the ratio is 0.
    ZeroWeight,
    /// The dimensions are not two parts around one `x`.
    InvalidGridFormat,
    /// The row count is not a `u8`.
    InvalidRowCount,
    /// The column count is not a `u8`.
    InvalidColumnCount,
    /// A dimension is 0.
    ZeroGridDimension,
}

// ---------------------------------------------------------------------------
// Splitting, trimming, unsigned numbers
// ---------------------------------------------------------------------------

/// The parts of `cs` between occurrences of `sep` (`str::split` with a
/// character): one more part than there are separators, possibly empty.
pub open spec fn split_on(cs: Seq<char>, sep: char) -> Seq<Seq<char>>
    decreases cs.len(),
{
    if cs.len() == 0 {
        seq![Seq::empty()]
    } else {
        let p = split_on(cs.drop_last(), sep);
        if cs.last() == sep {
            p.push(Seq::empty())
        } else {
            p.update(p.len() - 1, p.last().push(cs.last()))
        }
    }
}

pub proof fn lemma_split_on_nonempty(cs: Seq<char>, sep: char)
    ensures
        split_on(cs, sep).len() >= 1,
    decreases cs.len(),
{
    if cs.len() > 0 {
        lemma_split_on_nonempty(cs.drop_last(), sep);
    }
}

/// A text without the separator is a single part.
pub proof fn lemma_split_on_none(cs: Seq<char>, sep: char)
    requires
        !cs.contains(sep),
    ensures
        split_on(cs, sep) == seq![cs],
    decreases cs.len(),
{
    if cs.len() > 0 {
        assert(!cs.drop_last().contains(sep)) by {
            if cs.drop_last().contains(sep) {
                let k = choose|k: int| 0 <= k < cs.drop_last().len() && cs.drop_last()[k] == sep;
                assert(cs[k] == sep);
            }
        }
        lemma_split_on_none(cs.drop_last(), sep);
        assert(cs.last() != sep) by {
            if cs.last() == sep {
                assert(cs[cs.len() - 1] == sep);
            }
        }
        assert(cs.drop_last().push(cs.last()) =~= cs);
        assert(split_on(cs, sep) =~= seq![cs]);
    } else {
        assert(cs =~= Seq::<char>::empty());
        assert(split_on(cs, sep) =~= seq![cs]);
    }
}

/// Splitting at a separator splits the parts before it from those after it.
pub proof fn lemma_split_on_concat(a: Seq<char>, b: Seq<char>, sep: char)
    ensures
        split_on(a + seq![sep] + b, sep) == split_on(a, sep) + split_on(b, sep),
    decreases b.len(),
{
    let cs = a + seq![sep] + b;
    if b.len() == 0 {
        assert(cs.drop_last() =~= a);
        assert(split_on(b, sep) =~= seq![Seq::<char>::empty()]);
        assert(split_on(cs, sep) =~= split_on(a, sep) + split_on(b, sep));
    } else {
        assert(cs.drop_last() =~= a + seq![sep] + b.drop_last());
        lemma_split_on_concat(a, b.drop_last(), sep);
        lemma_split_on_nonempty(b.drop_last(), sep);
        lemma_split_on_nonempty(a, sep);
        assert(cs.last() == b.last());
        let pa = split_on(a, sep);
        let pb = split_on(b.drop_last(), sep);
        if b.last() == sep {
            assert(split_on(cs, sep) =~= pa + pb.push(Seq::empty()));
        } else {
            assert((pa + pb).last() == pb.last());
            assert(split_on(cs, sep) =~= pa + pb.update(pb.len() - 1, pb.last().push(b.last())));
        }
    }
}

/// Index just after the last character before `j` that is not whitespace
/// (0 when there is none).
pub open spec fn trim_end(cs: Seq<char>, j: int) -> int
    decreases j,
{
    if 0 < j <= cs.len() && is_whitespace_char(cs[j - 1]) {
        trim_end(cs, j - 1)
    } else {
        j
    }
}

/// `cs` without leading and trailing whitespace (`str::trim`).
pub open spec fn trimmed(cs: Seq<char>) -> Seq<char> {
    let a = skip_ws(cs, 0);
    let b = trim_end(cs, cs.len() as int);
    if a < b {
        cs.subrange(a, b)
    } else {
        Seq::empty()
    }
}

/// The value of `cs` as an unsigned integer of at most `max`, as `str::parse`
/// reads one: an optional `+`, then one or more ASCII digits.
pub open spec fn parse_unsigned(cs: Seq<char>, max: nat) -> Option<nat> {
    let ds = if cs.len() > 0 && cs[0] == '+' {
        cs.drop_first()
    } else {
        cs
    };
    if ds.len() > 0 && all_digits(ds) && digits_value(ds) <= max {
        Some(digits_value(ds))
    } else {
        None
    }
}

/// The bounds of the parts of `cs` between occurrences of `sep`.
fn split_bounds(cs: &Vec<char>, sep: char) -> (parts: Vec<(usize, usize)>)
    ensures
        parts@.len() == split_on(cs@, sep).len(),
        forall|i: int|
            #![trigger parts@[i]] 0 <= i < parts@.len() ==> parts@[i].0 <= parts@[i].1 && parts@[i].1
                <= cs@.len(),
        forall|i: int|
            0 <= i < parts@.len() ==> cs@.subrange(parts@[i].0 as int, parts@[i].1 as int)
                == #[trigger] split_on(cs@, sep)[i],
{
    let n = cs.len();
    let mut parts: Vec<(usize, usize)> = Vec::new();
    let mut start: usize = 0;
    let mut i: usize = 0;
    proof {
        assert(cs@.take(0) =~= Seq::<char>::empty());
        assert(cs@.subrange(0, 0) =~= Seq::<char>::empty());
    }
    while i < n
        invariant
            n == cs@.len(),
            start <= i <= n,
            split_on(cs@.take(i as int), sep).len() == parts@.len() + 1,
            split_on(cs@.take(i as int), sep).last() == cs@.subrange(start as int, i as int),
            forall|k: int|
                #![trigger parts@[k]] 0 <= k < parts@.len() ==> parts@[k].0 <= parts@[k].1 && parts@[k].1
                    <= start,
            forall|k: int|
                0 <= k < parts@.len() ==> cs@.subrange(parts@[k].0 as int, parts@[k].1 as int)
                    == #[trigger] split_on(cs@.take(i as int), sep)[k],
        decreases n - i,
    {
        let ghost before = split_on(cs@.take(i as int), sep);
        let ghost old_parts = parts@;
        assert(cs@.take(i + 1).drop_last() =~= cs@.take(i as int));
        assert(cs@.take(i + 1).last() == cs@[i as int]);
        if cs[i] == sep {
            assert(split_on(cs@.take(i + 1), sep) == before.push(Seq::empty()));
            parts.push((start, i));
            start = i + 1;
            assert(cs@.subrange(start as int, i + 1) =~= Seq::<char>::empty());
            assert forall|k: int| 0 <= k < parts@.len() implies cs@.subrange(
                parts@[k].0 as int,
                parts@[k].1 as int,
            ) == #[trigger] split_on(cs@.take(i + 1), sep)[k] by {
                assert(split_on(cs@.take(i + 1), sep)[k] == before[k]);
                if k < old_parts.len() {
                    assert(parts@[k] == old_parts[k]);
                } else {
                    assert(before[k] == before.last());
                }
            }
            assert forall|k: int| #![trigger parts@[k]] 0 <= k < parts@.len() implies parts@[k].0
                <= parts@[k].1 && parts@[k].1 <= start by {
                if k < old_parts.len() {
                    assert(parts@[k] == old_parts[k]);
                }
            }
        } else {
            let ghost seg = cs@.subrange(start as int, i + 1);
            assert(seg =~= cs@.subrange(start as int, i as int).push(cs@[i as int]));
            assert(split_on(cs@.take(i + 1), sep) == before.update(
                before.len() - 1,
                before.last().push(cs@[i as int]),
            ));
            assert forall|k: int| 0 <= k < parts@.len() implies cs@.subrange(
                parts@[k].0 as int,
                parts@[k].1 as int,
            ) == #[trigger] split_on(cs@.take(i + 1), sep)[k] by {
                assert(split_on(cs@.take(i + 1), sep)[k] == before[k]);
            }
        }
        i = i + 1;
    }
    let ghost all = split_on(cs@.take(n as int), sep);
    let ghost old_parts = parts@;
    parts.push((start, n));
    assert(cs@.take(n as int) =~= cs@);
    assert forall|k: int| 0 <= k < parts@.len() implies cs@.subrange(
        parts@[k].0 as int,
        parts@[k].1 as int,
    ) == #[trigger] split_on(cs@, sep)[k] by {
        if k < old_parts.len() {
            assert(parts@[k] == old_parts[k]);
            assert(all[k] == split_on(cs@, sep)[k]);
        } else {
            assert(all[all.len() - 1] == all.last());
        }
    }
    assert forall|k: int| #![trigger parts@[k]] 0 <= k < parts@.len() implies parts@[k].0 <= parts@[k].1
        && parts@[k].1 <= cs@.len() by {
        if k < old_parts.len() {
            assert(parts@[k] == old_parts[k]);
        }
    }
    parts
}

/// The bounds of `cs[start..end]` without leading and trailing whitespace.
fn trim_bounds(cs: &Vec<char>, start: usize, end: usize) -> (r: (usize, usize))
    requires
        start <= end <= cs@.len(),
    ensures
        start <= r.0 <= r.1 <= end,
        cs@.subrange(r.0 as int, r.1 as int) == trimmed(cs@.subrange(start as int, end as int)),
{
    let ghost seg = cs@.subrange(start as int, end as int);
    let mut a = start;
    while a < end && is_whitespace(cs[a])
        invariant
            start <= a <= end <= cs@.len(),
            seg == cs@.subrange(start as int, end as int),
            skip_ws(seg, (a - start) as int) == skip_ws(seg, 0),
        decreases end - a,
    {
        assert(seg[a - start] == cs@[a as int]);
        a = a + 1;
    }
    proof {
        if a < end {
            assert(seg[a - start] == cs@[a as int]);
        }
    }
    assert(skip_ws(seg, (a - start) as int) == a - start);
    let mut b = end;
    while b > a && is_whitespace(cs[b - 1])
        invariant
            start <= a <= b <= end <= cs@.len(),
            seg == cs@.subrange(start as int, end as int),
            a < end ==> !is_whitespace_char(cs@[a as int]),
            a < end ==> a < b,
            trim_end(seg, (b - start) as int) == trim_end(seg, seg.len() as int),
        decreases b,
    {
        assert(seg[b - 1 - start] == cs@[b - 1]);
        b = b - 1;
    }
    proof {
        lemma_skip_ws_bounds(seg, 0);
        lemma_trim_end_le(seg, seg.len() as int);
        if a < end {
            assert(seg[b - 1 - start] == cs@[b - 1]);
            assert(trim_end(seg, (b - start) as int) == b - start);
            assert(cs@.subrange(a as int, b as int) =~= seg.subrange(a - start, b - start));
        } else {
            assert(cs@.subrange(a as int, b as int) =~= Seq::<char>::empty());
        }
    }
    (a, b)
}

/// Trimming the end never moves past `j`.
proof fn lemma_trim_end_le(cs: Seq<char>, j: int)
    requires
        0 <= j,
    ensures
        trim_end(cs, j) <= j,
    decreases j,
{
    if 0 < j <= cs.len() && is_whitespace_char(cs[j - 1]) {
        lemma_trim_end_le(cs, j - 1);
    }
}

/// When `cs[a]` is not whitespace, trimming the end before `j > a` stops
/// after `a`.
proof fn lemma_trim_end_at_least(cs: Seq<char>, j: int, a: int)
    requires
        0 <= a < j <= cs.len(),
        !is_whitespace_char(cs[a]),
    ensures
        a < trim_end(cs, j),
    decreases j,
{
    if is_whitespace_char(cs[j - 1]) {
        lemma_trim_end_at_least(cs, j - 1, a);
    }
}

/// The value of `cs[start..end]` as `str::parse` reads an unsigned integer
/// of at most `max`.
fn parse_unsigned_range(cs: &Vec<char>, start: usize, end: usize, max: u32) -> (r: Option<u32>)
    requires
        start <= end <= cs@.len(),
    ensures
        match parse_unsigned(cs@.subrange(start as int, end as int), max as nat) {
            Some(v) => r == Some(v as u32),
            None => r is None,
        },
{
    let ghost seg = cs@.subrange(start as int, end as int);
    let mut s = start;
    if s < end && cs[s] == '+' {
        s = s + 1;
    }
    let ghost ds = cs@.subrange(s as int, end as int);
    proof {
        if seg.len() > 0 {
            assert(seg[0] == cs@[start as int]);
        }
        if s > start {
            assert(ds =~= seg.drop_first());
        } else {
            assert(ds =~= seg);
        }
    }
    assert(ds == (if seg.len() > 0 && seg[0] == '+' {
        seg.drop_first()
    } else {
        seg
    }));
    if s == end {
        return None;
    }
    let mut i = s;
    while i < end
        invariant
            s <= i <= end <= cs@.len(),
            start <= s,
            seg == cs@.subrange(start as int, end as int),
            ds == cs@.subrange(s as int, end as int),
            ds == (if seg.len() > 0 && seg[0] == '+' {
                seg.drop_first()
            } else {
                seg
            }),
            all_digits(cs@.subrange(s as int, i as int)),
        decreases end - i,
    {
        if !('0' <= cs[i] && cs[i] <= '9') {
            assert(ds[i - s] == cs@[i as int]);
            assert(!crate::text::is_digit_char(ds[i - s]));
            return None;
        }
        i = i + 1;
        assert forall|k: int| 0 <= k < i - s implies crate::text::is_digit_char(
            #[trigger] cs@.subrange(s as int, i as int)[k],
        ) by {
            if k < i - 1 - s {
                assert(cs@.subrange(s as int, i as int)[k] == cs@.subrange(s as int, i - 1)[k]);
            }
        }
    }
    digits_to_u32(cs, s, end, max)
}

// ---------------------------------------------------------------------------
// The three arguments
// ---------------------------------------------------------------------------

/// `c` in ASCII lower case.
pub open spec fn ascii_lower(c: char) -> char {
    if 'A' <= c && c <= 'Z' {
        ((c as u32) + 32) as char
    } else {
        c
    }
}

/// `cs` lower-cased is `target`, a word of lower-case ASCII letters. (No
/// character outside ASCII lower-cases to such a word, so ASCII case
/// folding decides it as `str::to_lowercase` does.)
pub open spec fn lowercases_to(cs: Seq<char>, target: Seq<char>) -> bool {
    &&& cs.len() == target.len()
    &&& forall|i: int| 0 <= i < cs.len() ==> ascii_lower(#[trigger] cs[i]) == target[i]
}

/// The direction an argument names, case aside: `v` or `vertical`, `h` or
/// `horizontal`.
pub open spec fn spec_parse_direction(cs: Seq<char>) -> Result<Direction, ArgError> {
    if lowercases_to(cs, seq!['v']) || lowercases_to(
        cs,
        seq!['v', 'e', 'r', 't', 'i', 'c', 'a', 'l'],
    ) {
        Ok(Direction::Vertical)
    } else if lowercases_to(cs, seq!['h']) || lowercases_to(
        cs,
        seq!['h', 'o', 'r', 'i', 'z', 'o', 'n', 't', 'a', 'l'],
    ) {
        Ok(Direction::Horizontal)
    } else {
        Err(ArgError::InvalidDirection)
    }
}

pub(crate) fn lowercases_to_exec(cs: &Vec<char>, target: &[char]) -> (b: bool)
    ensures
        b == lowercases_to(cs@, target@),
{
    if cs.len() != target.len() {
        return false;
    }
    let mut i: usize = 0;
    while i < cs.len()
        invariant
            cs@.len() == target@.len(),
            i <= cs@.len(),
            forall|k: int| 0 <= k < i ==> ascii_lower(#[trigger] cs@[k]) == target@[k],
        decreases cs@.len() - i,
    {
        let c = cs[i];
        let lower = if 'A' <= c && c <= 'Z' {
            ((c as u32) + 32) as u8 as char
        } else {
            c
        };
        assert(lower == ascii_lower(c)) by {
            if 'A' <= c && c <= 'Z' {
                assert(((c as u32) + 32) as u8 as char == ((c as u32) + 32) as char);
            }
        }
        if lower != target[i] {
            return false;
        }
        i = i + 1;
    }
    true
}

/// Parse a split direction: `v`/`vertical` or `h`/`horizontal`, in any case.
pub fn parse_direction(s: &str) -> (r: Result<Direction, ArgError>)
    ensures
        r == spec_parse_direction(s@),
{
    let cs = str_chars(s);
    let v = ['v'];
    let vertical = ['v', 'e', 'r', 't', 'i', 'c', 'a', 'l'];
    let h = ['h'];
    let horizontal = ['h', 'o', 'r', 'i', 'z', 'o', 'n', 't', 'a', 'l'];
    assert(v@ =~= seq!['v']);
    assert(vertical@ =~= seq!['v', 'e', 'r', 't', 'i', 'c', 'a', 'l']);
    assert(h@ =~= seq!['h']);
    assert(horizontal@ =~= seq!['h', 'o', 'r', 'i', 'z', 'o', 'n', 't', 'a', 'l']);
    if lowercases_to_exec(&cs, &v) || lowercases_to_exec(&cs, &vertical) {
        Ok(Direction::Vertical)
    } else if lowercases_to_exec(&cs, &h) || lowercases_to_exec(&cs, &horizontal) {
        Ok(Direction::Horizontal)
    } else {
        Err(ArgError::InvalidDirection)
    }
}

/// The weights a ratio such as `2:1` gives: its parts between `:`, each
/// trimmed of whitespace, read as `u32`. Any part that does not read is an
/// invalid ratio; otherwise any weight of 0 is rejected.
pub open spec fn spec_parse_ratio(cs: Seq<char>) -> Result<Seq<u32>, ArgError> {
    let parts = split_on(cs, ':');
    if exists|i: int|
        0 <= i < parts.len() && #[trigger] parse_unsigned(trimmed(parts[i]), u32::MAX as nat)
            is None {
        Err(ArgError::InvalidRatio)
    } else if exists|i: int|
        0 <= i < parts.len() && #[trigger] parse_unsigned(trimmed(parts[i]), u32::MAX as nat)
            == Some(0nat) {
        Err(ArgError::ZeroWeight)
    } else {
        Ok(
            Seq::new(
                parts.len(),
                |i: int| parse_unsigned(trimmed(parts[i]), u32::MAX as nat)->0 as u32,
            ),
        )
    }
}

/// Parse a ratio such as `2:1` or `1:1:1` into weights.
pub fn parse_ratio(s: &str) -> (r: Result<Vec<u32>, ArgError>)
    ensures
        match r {
            Ok(w) => spec_parse_ratio(s@) == Ok::<Seq<u32>, ArgError>(w@),
            Err(e) => spec_parse_ratio(s@) == Err::<Seq<u32>, ArgError>(e),
        },
{
    let cs = str_chars(s);
    let bounds = split_bounds(&cs, ':');
    let ghost parts = split_on(cs@, ':');
    let mut weights: Vec<u32> = Vec::new();
    let mut i: usize = 0;
    while i < bounds.len()
        invariant
            cs@ == s@,
            parts == split_on(cs@, ':'),
            bounds@.len() == parts.len(),
            forall|k: int|
                #![trigger bounds@[k]] 0 <= k < bounds@.len() ==> bounds@[k].0 <= bounds@[k].1 && bounds@[k].1
                    <= cs@.len(),
            forall|k: int|
                0 <= k < bounds@.len() ==> cs@.subrange(bounds@[k].0 as int, bounds@[k].1 as int)
                    == #[trigger] parts[k],
            i <= bounds@.len(),
            weights@.len() == i,
            forall|k: int|
                0 <= k < i ==> parse_unsigned(trimmed(parts[k]), u32::MAX as nat) == Some(
                    #[trigger] weights@[k] as nat,
                ),
        decreases bounds@.len() - i,
    {
        let (start, end) = bounds[i];
        let (a, b) = trim_bounds(&cs, start, end);
        assert(cs@.subrange(start as int, end as int) == parts[i as int]);
        match parse_unsigned_range(&cs, a, b, u32::MAX) {
            Some(w) => weights.push(w),
            None => {
                assert(parse_unsigned(trimmed(parts[i as int]), u32::MAX as nat) is None);
                assert(cs@ == s@);
                assert(exists|k: int|
                    0 <= k < parts.len() && #[trigger] parse_unsigned(
                        trimmed(parts[k]),
                        u32::MAX as nat,
                    ) is None);
                return Err(ArgError::InvalidRatio);
            },
        }
        i = i + 1;
    }
    assert(!exists|k: int|
        0 <= k < parts.len() && #[trigger] parse_unsigned(trimmed(parts[k]), u32::MAX as nat)
            is None) by {
        assert forall|k: int| 0 <= k < parts.len() implies #[trigger] parse_unsigned(
            trimmed(parts[k]),
            u32::MAX as nat,
        ) is Some by {
            assert(parse_unsigned(trimmed(parts[k]), u32::MAX as nat) == Some(
                weights@[k] as nat,
            ));
        }
    }
    let mut j: usize = 0;
    while j < weights.len()
        invariant
            cs@ == s@,
            parts == split_on(cs@, ':'),
            !exists|k: int|
                0 <= k < parts.len() && #[trigger] parse_unsigned(trimmed(parts[k]), u32::MAX as nat)
                    is None,
            weights@.len() == parts.len(),
            j <= weights@.len(),
            forall|k: int|
                0 <= k < weights@.len() ==> parse_unsigned(trimmed(parts[k]), u32::MAX as nat)
                    == Some(#[trigger] weights@[k] as nat),
            forall|k: int| 0 <= k < j ==> #[trigger] weights@[k] != 0,
        decreases weights@.len() - j,
    {
        if weights[j] == 0 {
            assert(parse_unsigned(trimmed(parts[j as int]), u32::MAX as nat) == Some(0nat));
            assert(exists|k: int|
                0 <= k < parts.len() && #[trigger] parse_unsigned(trimmed(parts[k]), u32::MAX as nat)
                    == Some(0nat));
            return Err(ArgError::ZeroWeight);
        }
        j = j + 1;
    }
    assert(!exists|k: int|
        0 <= k < parts.len() && #[trigger] parse_unsigned(trimmed(parts[k]), u32::MAX as nat)
            == Some(0nat)) by {
        assert forall|k: int| 0 <= k < parts.len() implies #[trigger] parse_unsigned(
            trimmed(parts[k]),
            u32::MAX as nat,
        ) != Some(0nat) by {
            assert(weights@[k] != 0);
        }
    }
    assert(weights@ =~= Seq::new(
        parts.len(),
        |i: int| parse_unsigned(trimmed(parts[i]), u32::MAX as nat)->0 as u32,
    ));
    Ok(weights)
}

/// The dimensions `ROWSxCOLS`: exactly two parts around an `x`, each a `u8`
/// (not trimmed), neither of them 0.
pub open spec fn spec_parse_grid_dimensions(cs: Seq<char>) -> Result<(u8, u8), ArgError> {
    let parts = split_on(cs, 'x');
    if parts.len() != 2 {
        Err(ArgError::InvalidGridFormat)
    } else {
        match parse_unsigned(parts[0], u8::MAX as nat) {
            None => Err(ArgError::InvalidRowCount),
            Some(rows) => match parse_unsigned(parts[1], u8::MAX as nat) {
                None => Err(ArgError::InvalidColumnCount),
                Some(cols) => if rows == 0 || cols == 0 {
                    Err(ArgError::ZeroGridDimension)
                } else {
                    Ok((rows as u8, cols as u8))
                },
            },
        }
    }
}

/// Parse grid dimensions such as `2x3` (2 rows, 3 columns).
pub fn parse_grid_dimensions(s: &str) -> (r: Result<(u8, u8), ArgError>)
    ensures
        r == spec_parse_grid_dimensions(s@),
{
    let cs = str_chars(s);
    let parts = split_bounds(&cs, 'x');
    if parts.len() != 2 {
        return Err(ArgError::InvalidGridFormat);
    }
    let (r0, r1) = parts[0];
    let (c0, c1) = parts[1];
    let rows = match parse_unsigned_range(&cs, r0, r1, 255) {
        Some(v) => v,
        None => return Err(ArgError::InvalidRowCount),
    };
    let cols = match parse_unsigned_range(&cs, c0, c1, 255) {
        Some(v) => v,
        None => return Err(ArgError::InvalidColumnCount),
    };
    if rows == 0 || cols == 0 {
        return Err(ArgError::ZeroGridDimension);
    }
    Ok((rows as u8, cols as u8))
}

/// A ratio that parses gives at least one weight, and every weight is
/// greater than 0.
pub proof fn lemma_parsed_ratio_positive(cs: Seq<char>)
    ensures
        spec_parse_ratio(cs) matches Ok(w) ==> {
            &&& w.len() >= 1
            &&& forall|i: int| 0 <= i < w.len() ==> #[trigger] w[i] > 0
        },
{
    lemma_split_on_nonempty(cs, ':');
    let parts = split_on(cs, ':');
    if let Ok(w) = spec_parse_ratio(cs) {
        assert forall|i: int| 0 <= i < w.len() implies #[trigger] w[i] > 0 by {
            let v = parse_unsigned(trimmed(parts[i]), u32::MAX as nat);
            assert(v is Some);
            assert(v != Some(0nat));
        }
    }
}

/// Dimensions that parse are at least 1x1.
pub proof fn lemma_parsed_grid_positive(cs: Seq<char>)
    ensures
        spec_parse_grid_dimensions(cs) matches Ok((rows, cols)) ==> rows >= 1 && cols >= 1,
{
}

/// A ratio without `:` is a single weight: the value of the trimmed text.
pub proof fn lemma_ratio_single(a: Seq<char>)
    requires
        !a.contains(':'),
    ensures
        spec_parse_ratio(a) matches Ok(w) ==> w.len() == 1 && parse_unsigned(
            trimmed(a),
            u32::MAX as nat,
        ) == Some(w[0] as nat),
{
    lemma_split_on_none(a, ':');
    let parts = split_on(a, ':');
    if let Ok(w) = spec_parse_ratio(a) {
        let v = parse_unsigned(trimmed(parts[0]), u32::MAX as nat);
        assert(v is Some);
        assert(parts[0] == a);
    }
}

/// The weights of `a:b`, where `a` holds no `:`, are the value of the
/// trimmed `a` followed by the weights of `b`: the first weight comes from
/// the text before the first `:`, and the order of the parts is kept.
pub proof fn lemma_ratio_first_then_rest(a: Seq<char>, b: Seq<char>)
    requires
        !a.contains(':'),
    ensures
        spec_parse_ratio(a + seq![':'] + b) matches Ok(w) ==> {
            &&& w.len() >= 1
            &&& parse_unsigned(trimmed(a), u32::MAX as nat) == Some(w[0] as nat)
            &&& spec_parse_ratio(b) == Ok::<Seq<u32>, ArgError>(w.drop_first())
        },
        ({
            let v = parse_unsigned(trimmed(a), u32::MAX as nat);
            spec_parse_ratio(b) is Ok && v is Some && v->0 > 0 ==> spec_parse_ratio(
                a + seq![':'] + b,
            ) == Ok::<Seq<u32>, ArgError>(seq![v->0 as u32] + spec_parse_ratio(b)->Ok_0)
        }),
{
    let cs = a + seq![':'] + b;
    lemma_split_on_none(a, ':');
    lemma_split_on_concat(a, b, ':');
    let parts = split_on(cs, ':');
    let pb = split_on(b, ':');
    assert(parts == seq![a] + pb);
    assert(parts[0] == a);
    assert forall|i: int| 0 <= i < pb.len() implies #[trigger] pb[i] == parts[i + 1] by {}
    let val = |p: Seq<char>| parse_unsigned(trimmed(p), u32::MAX as nat);
    if let Ok(w) = spec_parse_ratio(cs) {
        assert(val(parts[0]) is Some);
        assert(!exists|i: int| 0 <= i < pb.len() && #[trigger] parse_unsigned(
            trimmed(pb[i]),
            u32::MAX as nat,
        ) is None) by {
            if exists|i: int| 0 <= i < pb.len() && #[trigger] parse_unsigned(
                trimmed(pb[i]),
                u32::MAX as nat,
            ) is None {
                let i = choose|i: int| 0 <= i < pb.len() && #[trigger] parse_unsigned(
                    trimmed(pb[i]),
                    u32::MAX as nat,
                ) is None;
                assert(parse_unsigned(trimmed(parts[i + 1]), u32::MAX as nat) is None);
            }
        }
        assert(!exists|i: int| 0 <= i < pb.len() && #[trigger] parse_unsigned(
            trimmed(pb[i]),
            u32::MAX as nat,
        ) == Some(0nat)) by {
            if exists|i: int| 0 <= i < pb.len() && #[trigger] parse_unsigned(
                trimmed(pb[i]),
                u32::MAX as nat,
            ) == Some(0nat) {
                let i = choose|i: int| 0 <= i < pb.len() && #[trigger] parse_unsigned(
                    trimmed(pb[i]),
                    u32::MAX as nat,
                ) == Some(0nat);
                assert(parse_unsigned(trimmed(parts[i + 1]), u32::MAX as nat) == Some(0nat));
            }
        }
        assert(spec_parse_ratio(b) == Ok::<Seq<u32>, ArgError>(w.drop_first())) by {
            assert(Seq::new(
                pb.len(),
                |i: int| parse_unsigned(trimmed(pb[i]), u32::MAX as nat)->0 as u32,
            ) =~= w.drop_first());
        }
    }
    if let Ok(wb) = spec_parse_ratio(b) {
        if let Some(v) = val(a) {
            if v > 0 {
                assert(!exists|i: int| 0 <= i < parts.len() && #[trigger] parse_unsigned(
                    trimmed(parts[i]),
                    u32::MAX as nat,
                ) is None) by {
                    if exists|i: int| 0 <= i < parts.len() && #[trigger] parse_unsigned(
                        trimmed(parts[i]),
                        u32::MAX as nat,
                    ) is None {
                        let i = choose|i: int| 0 <= i < parts.len() && #[trigger] parse_unsigned(
                            trimmed(parts[i]),
                            u32::MAX as nat,
                        ) is None;
                        if i > 0 {
                            assert(parse_unsigned(trimmed(pb[i - 1]), u32::MAX as nat) is None);
                        }
                    }
                }
                assert(!exists|i: int| 0 <= i < parts.len() && #[trigger] parse_unsigned(
                    trimmed(parts[i]),
                    u32::MAX as nat,
                ) == Some(0nat)) by {
                    if exists|i: int| 0 <= i < parts.len() && #[trigger] parse_unsigned(
                        trimmed(parts[i]),
                        u32::MAX as nat,
                    ) == Some(0nat) {
                        let i = choose|i: int| 0 <= i < parts.len() && #[trigger] parse_unsigned(
                            trimmed(parts[i]),
                            u32::MAX as nat,
                        ) == Some(0nat);
                        if i > 0 {
                            assert(parse_unsigned(trimmed(pb[i - 1]), u32::MAX as nat) == Some(0nat));
                        }
                    }
                }
                assert(Seq::new(
                    parts.len(),
                    |i: int| parse_unsigned(trimmed(parts[i]), u32::MAX as nat)->0 as u32,
                ) =~= seq![v as u32] + wb);
            }
        }
    }
}

/// In `ROWSxCOLS` the rows are the number before the `x` and the columns
/// the number after it, in that order: the dimensions are accepted exactly
/// when both are `u8` values other than 0.
pub proof fn lemma_grid_dimensions_in_order(a: Seq<char>, b: Seq<char>)
    requires
        !a.contains('x'),
        !b.contains('x'),
    ensures
        spec_parse_grid_dimensions(a + seq!['x'] + b) matches Ok((rows, cols)) ==> {
            &&& parse_unsigned(a, u8::MAX as nat) == Some(rows as nat)
            &&& parse_unsigned(b, u8::MAX as nat) == Some(cols as nat)
        },
        ({
            let r = parse_unsigned(a, u8::MAX as nat);
            let c = parse_unsigned(b, u8::MAX as nat);
            r is Some && r->0 > 0 && c is Some && c->0 > 0 ==> spec_parse_grid_dimensions(
                a + seq!['x'] + b,
            ) == Ok::<(u8, u8), ArgError>((r->0 as u8, c->0 as u8))
        }),
{
    lemma_split_on_none(a, 'x');
    lemma_split_on_none(b, 'x');
    lemma_split_on_concat(a, b, 'x');
    let parts = split_on(a + seq!['x'] + b, 'x');
    assert(parts =~= seq![a, b]);
}

} // verus!
