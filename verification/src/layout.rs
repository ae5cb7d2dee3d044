//! Core layout types: the split direction and the layout tree, with the
//! mathematical model the contracts speak of.

use vstd::arithmetic::div_mod::{lemma_fundamental_div_mod, lemma_fundamental_div_mod_converse_div};
use vstd::prelude::*;

verus! {

/// Split direction for panes.
#[derive(Debug, Clone, Copy, PartialEq, Eq, Structural)]
pub enum Direction {
    /// Horizontal split (-h): panes arranged left/right
    Horizontal,
    /// Vertical split (-v): panes arranged top/bottom
    Vertical,
}

/// A layout tree node representing either a single pane or a split container.
#[derive(Debug, PartialEq, Eq)]
pub enum Layout {
    /// A terminal pane (leaf node)
    Pane,
    /// A split container with weighted children
    Split {
        direction: Direction,
        /// (weight, child) pairs - weights are relative to siblings
        children: Vec<(u32, Layout)>,
    },
}

/// The mathematical value of a [`Layout`]: the same tree, with sequences in
/// place of vectors.
pub enum LayoutView {
    Pane,
    Split { direction: Direction, children: Seq<(u32, LayoutView)> },
}

/// The model of a layout tree.
pub open spec fn layout_view(l: Layout) -> LayoutView
    decreases l,
{
    match l {
        Layout::Pane => LayoutView::Pane,
        Layout::Split { direction, children } => {
            LayoutView::Split { direction, children: children_view(children@) }
        },
    }
}

/// The model of a sequence of weighted children.
pub open spec fn children_view(cs: Seq<(u32, Layout)>) -> Seq<(u32, LayoutView)>
    decreases cs,
{
    if cs.len() == 0 {
        Seq::empty()
    } else {
        let last = cs.last();
        children_view(cs.drop_last()).push((last.0, layout_view(last.1)))
    }
}

impl View for Layout {
    type V = LayoutView;

    open spec fn view(&self) -> LayoutView {
        layout_view(*self)
    }
}

impl Clone for Layout {
    /// A copy of the tree: the same model.
    fn clone(&self) -> (r: Self)
        ensures
            r@ == self@,
        decreases self,
    {
        match self {
            Layout::Pane => Layout::Pane,
            Layout::Split { direction, children } => {
                proof {
                    lemma_children_view(children@);
                }
                let n = children.len();
                let mut out: Vec<(u32, Layout)> = Vec::new();
                let mut i: usize = 0;
                assert(decreases_to!(*self => *children));
                while i < n
                    invariant
                        decreases_to!(*self => *children),
                        n == children@.len(),
                        i <= n,
                        children_view(children@).len() == n,
                        forall|k: int|
                            0 <= k < n ==> #[trigger] children_view(children@)[k] == (
                                children@[k].0,
                                children@[k].1@,
                            ),
                        children_view(out@) == children_view(children@).take(i as int),
                    decreases n - i,
                {
                    proof {
                        assert(decreases_to!(*children => children[i as int]));
                    }
                    let child = children[i].1.clone();
                    proof {
                        lemma_children_view_push(out@, (children[i as int].0, child));
                    }
                    out.push((children[i].0, child));
                    i = i + 1;
                    assert(children_view(out@) =~= children_view(children@).take(i as int));
                }
                assert(children_view(children@).take(n as int) =~= children_view(children@));
                Layout::Split { direction: *direction, children: out }
            },
        }
    }
}

/// The model of the children keeps their order, their weights, and maps each
/// child to its own model.
pub proof fn lemma_children_view(cs: Seq<(u32, Layout)>)
    ensures
        children_view(cs).len() == cs.len(),
        forall|i: int|
            0 <= i < cs.len() ==> #[trigger] children_view(cs)[i] == (cs[i].0, layout_view(cs[i].1)),
    decreases cs.len(),
{
    if cs.len() > 0 {
        lemma_children_view(cs.drop_last());
    }
}

/// Appending a child appends its model.
pub proof fn lemma_children_view_push(cs: Seq<(u32, Layout)>, c: (u32, Layout))
    ensures
        children_view(cs.push(c)) == children_view(cs).push((c.0, layout_view(c.1))),
{
    assert(cs.push(c).drop_last() =~= cs);
}

// ---------------------------------------------------------------------------
// Weights to tmux split percentages
// ---------------------------------------------------------------------------

/// Sum of `w[i..]`.
pub open spec fn suffix_sum(w: Seq<u32>, i: int) -> nat
    decreases w.len() - i,
{
    if i < 0 || i >= w.len() {
        0
    } else {
        w[i] as nat + suffix_sum(w, i + 1)
    }
}

/// `part / whole` as a percentage, rounded to the nearest integer (halves
/// round up).
pub open spec fn rounded_percent(part: nat, whole: nat) -> nat {
    (part * 100 + whole / 2) / whole
}

/// The `-p` value of the split that separates child `i - 1` from the children
/// after it: the share of `w[i..]` in `w[i - 1..]`.
pub open spec fn split_percentage(w: Seq<u32>, i: int) -> nat {
    rounded_percent(suffix_sum(w, i), suffix_sum(w, i - 1))
}

/// The `-p` values for a split into children of weights `w`: one for each
/// child after the first.
pub open spec fn split_percentages(w: Seq<u32>) -> Seq<nat> {
    if w.len() <= 1 {
        Seq::empty()
    } else {
        Seq::new((w.len() - 1) as nat, |k: int| split_percentage(w, k + 1))
    }
}

/// The weights on which the conversion runs without overflow or division by
/// zero: the total fits in `u32`, no tail of the weights after the first sums
/// to zero together with the weight before it, and `100 * tail + half of the
/// rest` fits in `u32`.
pub open spec fn percentages_computable(w: Seq<u32>) -> bool {
    w.len() <= 1 || {
        &&& suffix_sum(w, 0) <= u32::MAX
        &&& forall|i: int|
            1 <= i < w.len() ==> {
                &&& #[trigger] suffix_sum(w, i - 1) > 0
                &&& suffix_sum(w, i) * 100 + suffix_sum(w, i - 1) / 2 <= u32::MAX
            }
    }
}

/// Suffix sums never grow as the start moves right.
pub proof fn lemma_suffix_sum_monotone(w: Seq<u32>, i: int, j: int)
    requires
        0 <= i <= j,
    ensures
        suffix_sum(w, j) <= suffix_sum(w, i),
    decreases j - i,
{
    if i < j && i < w.len() {
        lemma_suffix_sum_monotone(w, i + 1, j);
    }
}

/// A rounded share of a whole is at most 100.
pub proof fn lemma_rounded_percent_bound(part: nat, whole: nat)
    requires
        0 < whole,
        part <= whole,
    ensures
        rounded_percent(part, whole) <= 100,
{
    assert(part * 100 <= whole * 100) by (nonlinear_arith)
        requires
            part <= whole,
    ;
    assert(part * 100 + whole / 2 < whole * 101) by (nonlinear_arith)
        requires
            part * 100 <= whole * 100,
            0 < whole,
    ;
    assert((part * 100 + whole / 2) / whole < 101) by (nonlinear_arith)
        requires
            part * 100 + whole / 2 < whole * 101,
            0 < whole,
    ;
}

/// Scaling a part and its whole alike does not change the rounded
/// percentage.
pub proof fn lemma_rounded_percent_scale(a: nat, b: nat, k: nat)
    requires
        b > 0,
        k > 0,
    ensures
        rounded_percent(a * k, b * k) == rounded_percent(a, b),
{
    let bi = b as int;
    let ki = k as int;
    let h = bi / 2;
    let e = bi % 2;
    lemma_fundamental_div_mod(bi, 2);
    let x = (a as int) * 100 + h;
    let q = x / bi;
    let r = x % bi;
    lemma_fundamental_div_mod(x, bi);
    assert(0 <= r < bi);
    let t = e * ki;
    lemma_fundamental_div_mod(t, 2);
    assert(bi * ki == 2 * (h * ki + t / 2) + t % 2) by (nonlinear_arith)
        requires
            bi == 2 * (bi / 2) + bi % 2,
            h == bi / 2,
            e == bi % 2,
            t == e * ki,
            t == 2 * (t / 2) + t % 2,
    ;
    assert(0 <= t % 2 < 2);
    lemma_fundamental_div_mod_converse_div(bi * ki, 2, h * ki + t / 2, t % 2);
    let rr = r * ki + t / 2;
    assert(0 <= e <= 1);
    assert(t / 2 <= ki / 2) by (nonlinear_arith)
        requires
            t == e * ki,
            0 <= e <= 1,
            ki > 0,
    ;
    assert(0 <= rr < bi * ki) by (nonlinear_arith)
        requires
            rr == r * ki + t / 2,
            0 <= r < bi,
            0 <= t,
            t / 2 <= ki / 2,
            ki > 0,
    ;
    assert((a as int) * ki * 100 + (bi * ki) / 2 == q * (bi * ki) + rr) by (nonlinear_arith)
        requires
            (bi * ki) / 2 == h * ki + t / 2,
            x == (a as int) * 100 + h,
            x == bi * q + r,
            rr == r * ki + t / 2,
    ;
    lemma_fundamental_div_mod_converse_div(
        (a as int) * ki * 100 + (bi * ki) / 2,
        bi * ki,
        q,
        rr,
    );
}

/// Suffix sums of weights scaled by `k` are the suffix sums scaled by `k`.
proof fn lemma_suffix_sum_scale(w: Seq<u32>, v: Seq<u32>, k: nat, i: int)
    requires
        v.len() == w.len(),
        forall|j: int| 0 <= j < w.len() ==> #[trigger] v[j] == k * w[j],
    ensures
        suffix_sum(v, i) == k * suffix_sum(w, i),
    decreases w.len() - i,
{
    if 0 <= i < w.len() {
        lemma_suffix_sum_scale(w, v, k, i + 1);
        assert(v[i] == k * w[i]);
        assert(k * (w[i] + suffix_sum(w, i + 1)) == k * w[i] + k * suffix_sum(w, i + 1))
            by (nonlinear_arith);
    } else {
        assert(k * 0 == 0) by (nonlinear_arith);
    }
}

/// Ratios are fractional weights: multiplying every weight by the same
/// `k >= 1` gives the same split percentages (`2:1`, `4:2` and `200:100`
/// produce the same layout).
pub proof fn lemma_split_percentages_scale_invariant(w: Seq<u32>, v: Seq<u32>, k: nat)
    requires
        k >= 1,
        v.len() == w.len(),
        forall|j: int| 0 <= j < w.len() ==> #[trigger] v[j] == k * w[j],
    ensures
        split_percentages(v) == split_percentages(w),
{
    if w.len() > 1 {
        assert forall|i: int| 0 <= i < w.len() - 1 implies #[trigger] split_percentages(v)[i]
            == split_percentages(w)[i] by {
            lemma_suffix_sum_scale(w, v, k, i);
            lemma_suffix_sum_scale(w, v, k, i + 1);
            let a = suffix_sum(w, i + 1);
            let b = suffix_sum(w, i);
            if b > 0 {
                lemma_rounded_percent_scale(a, b, k);
                assert(a * k == k * a && b * k == k * b) by (nonlinear_arith);
            } else {
                lemma_suffix_sum_monotone(w, i, i + 1);
                assert(a == 0);
                assert(k * a == 0 && k * b == 0) by (nonlinear_arith)
                    requires
                        a == 0,
                        b == 0,
                ;
            }
        }
        assert(split_percentages(v) =~= split_percentages(w));
    } else {
        assert(split_percentages(v) =~= split_percentages(w));
    }
}

/// Convert fractional weights to the series of -p values tmux needs.
///
/// tmux's -p is "percentage of the pane being split", not of the whole window.
/// Split `i` separates child `i - 1` from the children after it, so its value
/// is the share of `w[i..]` in `w[i - 1..]`, rounded to the nearest percent.
///
/// For [1, 1, 1, 1] the percentages are [75, 67, 50].
pub fn weights_to_split_percentages(weights: &[u32]) -> (result: Vec<u8>)
    requires
        percentages_computable(weights@),
    ensures
        result@.len() == split_percentages(weights@).len(),
        forall|k: int|
            0 <= k < result@.len() ==> result@[k] as nat == #[trigger] split_percentages(
                weights@,
            )[k],
        forall|k: int| 0 <= k < result@.len() ==> #[trigger] result@[k] <= 100,
{
    let n = weights.len();
    if n <= 1 {
        return Vec::new();
    }
    // total = w[0..].sum(), accumulated from the right

    let mut total: u32 = 0;
    let mut j: usize = n;
    while j > 0
        invariant
            0 <= j <= n,
            n == weights@.len(),
            n > 1,
            percentages_computable(weights@),
            total as nat == suffix_sum(weights@, j as int),
        decreases j,
    {
        proof {
            lemma_suffix_sum_monotone(weights@, 0, j - 1);
        }
        total = total + weights[j - 1];
        j = j - 1;
    }
    let mut result: Vec<u8> = Vec::with_capacity(n - 1);
    let mut remaining = total;
    let mut i: usize = 1;
    while i < n
        invariant
            1 <= i <= n,
            n == weights@.len(),
            n > 1,
            percentages_computable(weights@),
            remaining as nat == suffix_sum(weights@, i as int - 1),
            result@.len() == i - 1,
            forall|k: int|
                0 <= k < i - 1 ==> result@[k] as nat == #[trigger] split_percentage(
                    weights@,
                    k + 1,
                ),
            forall|k: int| 0 <= k < i - 1 ==> #[trigger] result@[k] <= 100,
        decreases n - i,
    {
        let ghost iv = i as int;
        assert(suffix_sum(weights@, iv - 1) > 0);
        assert(suffix_sum(weights@, iv) * 100 + suffix_sum(weights@, iv - 1) / 2 <= u32::MAX);
        // the tail that goes to the new pane, and the pane being split
        remaining = remaining - weights[i - 1];
        let sum_for_new_pane = remaining;
        let sum_remaining_before = remaining + weights[i - 1];
        let pct = ((sum_for_new_pane * 100) + (sum_remaining_before / 2)) / sum_remaining_before;
        proof {
            lemma_rounded_percent_bound(
                suffix_sum(weights@, iv),
                suffix_sum(weights@, iv - 1),
            );
        }
        result.push(pct as u8);
        i = i + 1;
    }
    proof {
        assert forall|k: int| 0 <= k < result@.len() implies result@[k] as nat
            == #[trigger] split_percentages(weights@)[k] by {
            assert(result@[k] as nat == split_percentage(weights@, k + 1));
        }
    }
    result
}

// ---------------------------------------------------------------------------
// Grids
// ---------------------------------------------------------------------------

/// A split of `n` panes of weight 1 in the given direction.
pub open spec fn uniform_split(direction: Direction, n: nat) -> LayoutView {
    LayoutView::Split { direction, children: Seq::new(n, |_i: int| (1u32, LayoutView::Pane)) }
}

/// The layout of a `rows` x `cols` grid of equal panes: a single pane for
/// 1x1, one horizontal split for a single row, one vertical split for a
/// single column, and otherwise a vertical split into `rows` horizontal
/// splits of `cols` panes each.
pub open spec fn grid_view(rows: nat, cols: nat) -> LayoutView {
    if rows == 1 && cols == 1 {
        LayoutView::Pane
    } else if rows == 1 {
        uniform_split(Direction::Horizontal, cols)
    } else if cols == 1 {
        uniform_split(Direction::Vertical, rows)
    } else {
        LayoutView::Split {
            direction: Direction::Vertical,
            children: Seq::new(
                rows,
                |_i: int| (1u32, uniform_split(Direction::Horizontal, cols)),
            ),
        }
    }
}

/// `l` is a split in direction `d` of exactly `n` panes, each of weight 1.
pub open spec fn is_row_of_panes(l: LayoutView, d: Direction, n: nat) -> bool {
    &&& l matches LayoutView::Split { direction, children }
    &&& direction == d
    &&& children.len() == n
    &&& forall|j: int| 0 <= j < n ==> #[trigger] children[j] == (1u32, LayoutView::Pane)
}

/// The shape of a `rows` x `cols` grid: with two or more of each, a vertical
/// split into exactly `rows` rows of weight 1, each a horizontal split of
/// exactly `cols` panes of weight 1; a single row is a horizontal split of
/// `cols` panes, a single column a vertical split of `rows` panes, and 1x1 a
/// single pane.
pub proof fn lemma_grid_shape(rows: nat, cols: nat)
    ensures
        rows >= 2 && cols >= 2 ==> {
            &&& grid_view(rows, cols) matches LayoutView::Split { direction, children }
            &&& direction == Direction::Vertical
            &&& children.len() == rows
            &&& forall|i: int|
                0 <= i < rows ==> #[trigger] children[i].0 == 1u32 && is_row_of_panes(
                    children[i].1,
                    Direction::Horizontal,
                    cols,
                )
        },
        rows == 1 && cols >= 2 ==> is_row_of_panes(grid_view(rows, cols), Direction::Horizontal, cols),
        rows >= 2 && cols == 1 ==> is_row_of_panes(grid_view(rows, cols), Direction::Vertical, rows),
        rows == 1 && cols == 1 ==> grid_view(rows, cols) == LayoutView::Pane,
{
}

/// A split of `n` panes of weight 1.
fn uniform_row(direction: Direction, n: u8) -> (l: Layout)
    ensures
        l@ == uniform_split(direction, n as nat),
{
    let mut children: Vec<(u32, Layout)> = Vec::new();
    let mut i: u8 = 0;
    while i < n
        invariant
            i <= n,
            children_view(children@) == Seq::new(i as nat, |_i: int| (1u32, LayoutView::Pane)),
        decreases n - i,
    {
        proof {
            lemma_children_view_push(children@, (1u32, Layout::Pane));
        }
        children.push((1, Layout::Pane));
        i = i + 1;
        assert(children_view(children@) =~= Seq::new(
            i as nat,
            |_i: int| (1u32, LayoutView::Pane),
        ));
    }
    Layout::Split { direction, children }
}

/// Create a grid layout with equal-sized panes.
///
/// - `grid(2, 3)` creates a 2x3 grid (2 rows, 3 columns)
/// - `grid(1, 1)` returns a single `Layout::Pane`
pub fn grid(rows: u8, cols: u8) -> (l: Layout)
    ensures
        l@ == grid_view(rows as nat, cols as nat),
{
    if rows == 1 && cols == 1 {
        return Layout::Pane;
    }
    if rows == 1 {
        // Single row, multiple columns
        return uniform_row(Direction::Horizontal, cols);
    }
    if cols == 1 {
        // Single column, multiple rows
        return uniform_row(Direction::Vertical, rows);
    }
    // Multiple rows and columns: rows of columns
    let ghost row_view = uniform_split(Direction::Horizontal, cols as nat);
    let mut children: Vec<(u32, Layout)> = Vec::new();
    let mut i: u8 = 0;
    while i < rows
        invariant
            i <= rows,
            row_view == uniform_split(Direction::Horizontal, cols as nat),
            children_view(children@) == Seq::new(i as nat, |_i: int| (1u32, row_view)),
        decreases rows - i,
    {
        let row = uniform_row(Direction::Horizontal, cols);
        proof {
            lemma_children_view_push(children@, (1u32, row));
        }
        children.push((1, row));
        i = i + 1;
        assert(children_view(children@) =~= Seq::new(i as nat, |_i: int| (1u32, row_view)));
    }
    Layout::Split { direction: Direction::Vertical, children }
}

/// A split in `direction` into panes of the given weights, in order (the
/// layout of `czor split`).
pub fn split_layout(direction: Direction, weights: Vec<u32>) -> (l: Layout)
    ensures
        l@ == (LayoutView::Split {
            direction,
            children: Seq::new(weights@.len(), |i: int| (weights@[i], LayoutView::Pane)),
        }),
{
    let mut children: Vec<(u32, Layout)> = Vec::new();
    let mut i: usize = 0;
    while i < weights.len()
        invariant
            i <= weights@.len(),
            children_view(children@) == Seq::new(i as nat, |k: int| (weights@[k], LayoutView::Pane)),
        decreases weights@.len() - i,
    {
        proof {
            lemma_children_view_push(children@, (weights@[i as int], Layout::Pane));
        }
        children.push((weights[i], Layout::Pane));
        i = i + 1;
        assert(children_view(children@) =~= Seq::new(
            i as nat,
            |k: int| (weights@[k], LayoutView::Pane),
        ));
    }
    Layout::Split { direction, children }
}

} // verus!
