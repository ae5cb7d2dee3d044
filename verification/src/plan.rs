//! The tmux splits that build a layout, in the order they are run.
//!
//! Panes are named by slot: slot 0 is the pane the layout is built in, and
//! the `k`-th split (counting from 0) creates the pane of slot `k + 1`. A
//! runner keeps the tmux id of each slot and replaces each slot by its id.

use vstd::prelude::*;

use crate::layout::{
    grid_view, uniform_split, children_view, lemma_children_view, percentages_computable, split_percentages,
    weights_to_split_percentages, Direction, Layout, LayoutView, suffix_sum,
    lemma_suffix_sum_monotone, lemma_rounded_percent_bound, split_percentage,
};

verus! {

/// One `tmux split-window`: split the pane of slot `target` in `direction`,
/// giving the new pane `percentage` percent of it.
#[derive(Debug, Clone, Copy, PartialEq, Eq, Structural)]
pub struct SplitStep {
    pub target: usize,
    pub direction: Direction,
    pub percentage: u8,
}

/// The weights of a split's children, in order.
pub open spec fn child_weights(cs: Seq<(u32, LayoutView)>) -> Seq<u32> {
    cs.map_values(|c: (u32, LayoutView)| c.0)
}

/// Slot of child `i` of a split whose first child stays in `target` and
/// whose other children go to the new panes `first_new`, `first_new + 1`, ...
pub open spec fn child_slot(target: nat, first_new: nat, i: int) -> nat {
    if i == 0 {
        target
    } else {
        (first_new + i - 1) as nat
    }
}

/// The splits that build `l` in the pane of slot `target`, when the next pane
/// created gets slot `next`.
///
/// A pane or an empty split needs none; a split of one child is that child.
/// A split of `n >= 2` children first splits `n - 1` times, each time the
/// pane created last (the first time, `target`), with the percentages of the
/// children's weights; the children then follow in order, child 0 in
/// `target` and child `i` in the `i`-th new pane.
pub open spec fn spec_plan(l: LayoutView, target: nat, next: nat) -> Seq<SplitStep>
    decreases l, 0int,
{
    match l {
        LayoutView::Pane => Seq::empty(),
        LayoutView::Split { direction, children } => {
            if children.len() == 0 {
                Seq::empty()
            } else if children.len() == 1 {
                spec_plan(children[0].1, target, next)
            } else {
                let n = children.len();
                let pcts = split_percentages(child_weights(children));
                let own = Seq::new(
                    (n - 1) as nat,
                    |j: int|
                        SplitStep {
                            target: child_slot(target, next, j) as usize,
                            direction,
                            percentage: pcts[j] as u8,
                        },
                );
                own + plan_children(children, 0, target, next, (next + n - 1) as nat)
            }
        },
    }
}

/// The splits of children `i..` of a split, the first of them starting with
/// slot `counter` for the panes they create.
pub open spec fn plan_children(
    cs: Seq<(u32, LayoutView)>,
    i: int,
    target: nat,
    first_new: nat,
    counter: nat,
) -> Seq<SplitStep>
    decreases cs, cs.len() - i,
{
    if 0 <= i < cs.len() {
        let p = spec_plan(cs[i].1, child_slot(target, first_new, i), counter);
        p + plan_children(cs, i + 1, target, first_new, counter + p.len())
    } else {
        Seq::empty()
    }
}

/// The number of panes a layout ends up with: a pane or an empty split is
/// one pane, a split is the panes of its children together.
pub open spec fn pane_count(l: LayoutView) -> nat
    decreases l, 0int,
{
    match l {
        LayoutView::Pane => 1,
        LayoutView::Split { children, .. } => if children.len() == 0 {
            1
        } else {
            children_panes(children, 0)
        },
    }
}

/// The panes of children `i..`.
pub open spec fn children_panes(cs: Seq<(u32, LayoutView)>, i: int) -> nat
    decreases cs, cs.len() - i,
{
    if 0 <= i < cs.len() {
        pane_count(cs[i].1) + children_panes(cs, i + 1)
    } else {
        0
    }
}

/// The layouts whose splits can all be computed: every split of two or more
/// children has weights that convert to percentages without overflow or
/// division by zero.
pub open spec fn executable(l: LayoutView) -> bool
    decreases l, 0int,
{
    match l {
        LayoutView::Pane => true,
        LayoutView::Split { children, .. } => {
            &&& children.len() >= 2 ==> percentages_computable(child_weights(children))
            &&& children_executable(children, 0)
        },
    }
}

/// Children `i..` are executable.
pub open spec fn children_executable(cs: Seq<(u32, LayoutView)>, i: int) -> bool
    decreases cs, cs.len() - i,
{
    if 0 <= i < cs.len() {
        executable(cs[i].1) && children_executable(cs, i + 1)
    } else {
        true
    }
}

/// All of children `i..` are executable when the list from `i` is.
proof fn lemma_children_executable(cs: Seq<(u32, LayoutView)>, i: int, k: int)
    requires
        0 <= i <= k < cs.len(),
        children_executable(cs, i),
    ensures
        executable(cs[k].1),
    decreases k - i,
{
    if i < k {
        lemma_children_executable(cs, i + 1, k);
    }
}

/// Every pane is at least one; children `i..` hold at least one pane each.
pub proof fn lemma_pane_count_positive(l: LayoutView)
    ensures
        pane_count(l) >= 1,
    decreases l, 0int,
{
    match l {
        LayoutView::Pane => {},
        LayoutView::Split { children, .. } => {
            if children.len() > 0 {
                lemma_children_panes_bound(children, 0);
            }
        },
    }
}

proof fn lemma_children_panes_bound(cs: Seq<(u32, LayoutView)>, i: int)
    requires
        0 <= i <= cs.len(),
    ensures
        children_panes(cs, i) >= cs.len() - i,
    decreases cs, cs.len() - i,
{
    if i < cs.len() {
        lemma_pane_count_positive(cs[i].1);
        lemma_children_panes_bound(cs, i + 1);
    }
}

/// A plan creates one pane per split: building `l` takes `pane_count(l) - 1`
/// splits, and each split targets a slot that exists when it runs (below the
/// slot it creates).
pub proof fn lemma_plan_shape(l: LayoutView, target: nat, next: nat)
    requires
        target < next,
    ensures
        spec_plan(l, target, next).len() + 1 == pane_count(l),
        forall|k: int|
            0 <= k < spec_plan(l, target, next).len() ==> #[trigger] spec_plan(
                l,
                target,
                next,
            )[k].target < next + k,
    decreases l, 0int,
{
    match l {
        LayoutView::Pane => {},
        LayoutView::Split { direction, children } => {
            if children.len() == 0 {
            } else if children.len() == 1 {
                lemma_plan_shape(children[0].1, target, next);
                assert(children_panes(children, 1) == 0);
            } else {
                let n = children.len();
                lemma_plan_children_shape(children, 0, target, next, (next + n - 1) as nat);
                let p = spec_plan(l, target, next);
                let pcts = split_percentages(child_weights(children));
                let own = Seq::new(
                    (n - 1) as nat,
                    |j: int|
                        SplitStep {
                            target: child_slot(target, next, j) as usize,
                            direction,
                            percentage: pcts[j] as u8,
                        },
                );
                let rest = plan_children(children, 0, target, next, (next + n - 1) as nat);
                assert(p == own + rest);
                assert forall|k: int| 0 <= k < p.len() implies #[trigger] p[k].target < next
                    + k by {
                    if k < n - 1 {
                        assert(p[k] == own[k]);
                    } else {
                        assert(p[k] == rest[k - (n - 1)]);
                    }
                }
            }
        },
    }
}

proof fn lemma_plan_children_shape(
    cs: Seq<(u32, LayoutView)>,
    i: int,
    target: nat,
    first_new: nat,
    counter: nat,
)
    requires
        0 <= i <= cs.len(),
        cs.len() >= 2,
        target < first_new,
        first_new + cs.len() - 1 <= counter,
    ensures
        plan_children(cs, i, target, first_new, counter).len() + cs.len() - i == children_panes(
            cs,
            i,
        ),
        forall|k: int|
            0 <= k < plan_children(cs, i, target, first_new, counter).len() ==> #[trigger] plan_children(
                cs,
                i,
                target,
                first_new,
                counter,
            )[k].target < counter + k,
    decreases cs, cs.len() - i,
{
    if i < cs.len() {
        let slot = child_slot(target, first_new, i);
        lemma_plan_shape(cs[i].1, slot, counter);
        let p = spec_plan(cs[i].1, slot, counter);
        lemma_plan_children_shape(cs, i + 1, target, first_new, counter + p.len());
        let rest = plan_children(cs, i + 1, target, first_new, counter + p.len());
        let all = plan_children(cs, i, target, first_new, counter);
        assert(all == p + rest);
        assert forall|k: int| 0 <= k < all.len() implies #[trigger] all[k].target < counter
            + k by {
            if k < p.len() {
                assert(all[k] == p[k]);
            } else {
                assert(all[k] == rest[k - p.len()]);
            }
        }
    }
}

/// Children `i..` of `n` copies of the same child hold `n - i` times its
/// panes.
proof fn lemma_children_panes_uniform(n: nat, c: LayoutView, i: int)
    requires
        0 <= i <= n,
    ensures
        children_panes(Seq::new(n, |_j: int| (1u32, c)), i) == (n - i) * pane_count(c),
    decreases n - i,
{
    let cs = Seq::new(n, |_j: int| (1u32, c));
    if i < n {
        lemma_children_panes_uniform(n, c, i + 1);
        assert(cs[i].1 == c);
        assert((n - i) * pane_count(c) == pane_count(c) + (n - (i + 1)) * pane_count(c))
            by (nonlinear_arith);
    } else {
        assert((n - i) * pane_count(c) == 0) by (nonlinear_arith)
            requires
                n - i == 0,
        ;
    }
}

/// A grid of `rows` x `cols` (both at least 1) has `rows * cols` panes.
pub proof fn lemma_grid_pane_count(rows: nat, cols: nat)
    requires
        rows >= 1,
        cols >= 1,
    ensures
        pane_count(grid_view(rows, cols)) == rows * cols,
{
    lemma_children_panes_uniform(cols, LayoutView::Pane, 0);
    lemma_children_panes_uniform(rows, LayoutView::Pane, 0);
    let row = uniform_split(Direction::Horizontal, cols);
    assert((cols - 0) * 1 == cols && (rows - 0) * 1 == rows) by (nonlinear_arith);
    assert(pane_count(row) == cols);
    lemma_children_panes_uniform(rows, row, 0);
    if rows == 1 && cols == 1 {
    } else if rows == 1 {
        assert(rows * cols == cols) by (nonlinear_arith)
            requires
                rows == 1,
        ;
        assert(pane_count(uniform_split(Direction::Horizontal, cols)) == cols);
    } else if cols == 1 {
        assert(rows * cols == rows) by (nonlinear_arith)
            requires
                cols == 1,
        ;
        assert(pane_count(uniform_split(Direction::Vertical, rows)) == rows);
    } else {
        assert((rows - 0) * cols == rows * cols) by (nonlinear_arith);
    }
}

/// A split of `n >= 2` children starts with its own `n - 1` splits, all in
/// its direction: the first cuts the pane it is built in, and each later one
/// cuts the pane created by the split just before it (the `k`-th split
/// creates slot `next + k`). The `k`-th split gives the new pane the rounded
/// share of the children after `k` among the children from `k` on. (Slots
/// are `usize`, so they are taken to fit in it.)
pub proof fn lemma_split_cascade(
    direction: Direction,
    children: Seq<(u32, LayoutView)>,
    target: nat,
    next: nat,
)
    requires
        children.len() >= 2,
        target <= usize::MAX,
        next + children.len() <= usize::MAX,
    ensures
        ({
            let p = spec_plan(LayoutView::Split { direction, children }, target, next);
            let w = child_weights(children);
            &&& p.len() >= children.len() - 1
            &&& p[0].target == target
            &&& forall|k: int|
                1 <= k < children.len() - 1 ==> #[trigger] p[k].target == next + (k - 1)
            &&& forall|k: int|
                0 <= k < children.len() - 1 ==> #[trigger] p[k].direction == direction
            &&& percentages_computable(w) ==> forall|k: int|
                0 <= k < children.len() - 1 ==> #[trigger] p[k].percentage as nat == (
                    suffix_sum(w, k + 1) * 100 + suffix_sum(w, k) / 2) / suffix_sum(w, k)
        }),
{
    let n = children.len();
    let p = spec_plan(LayoutView::Split { direction, children }, target, next);
    let pcts = split_percentages(child_weights(children));
    let own = Seq::new(
        (n - 1) as nat,
        |j: int|
            SplitStep {
                target: child_slot(target, next, j) as usize,
                direction,
                percentage: pcts[j] as u8,
            },
    );
    let rest = plan_children(children, 0, target, next, (next + n - 1) as nat);
    assert(p == own + rest);
    assert forall|k: int| 0 <= k < n - 1 implies p[k] == own[k] by {}
    let w = child_weights(children);
    if percentages_computable(w) {
        assert forall|k: int| 0 <= k < n - 1 implies #[trigger] p[k].percentage as nat == (
            suffix_sum(w, k + 1) * 100 + suffix_sum(w, k) / 2) / suffix_sum(w, k) by {
            assert(p[k] == own[k]);
            assert(suffix_sum(w, (k + 1) - 1) > 0);
            lemma_suffix_sum_monotone(w, k, k + 1);
            lemma_rounded_percent_bound(suffix_sum(w, k + 1), suffix_sum(w, k));
            assert(pcts[k] == split_percentage(w, k + 1));
        }
    }
}

/// A split of a single child is that child: it plans no split of its own,
/// whatever its direction and the child's weight, and it can be built exactly
/// when the child can.
pub proof fn lemma_single_child_collapses(
    direction: Direction,
    w: u32,
    c: LayoutView,
    target: nat,
    next: nat,
)
    ensures
        spec_plan(LayoutView::Split { direction, children: seq![(w, c)] }, target, next)
            == spec_plan(c, target, next),
        executable(LayoutView::Split { direction, children: seq![(w, c)] }) == executable(c),
        pane_count(LayoutView::Split { direction, children: seq![(w, c)] }) == pane_count(c),
{
    let cs = seq![(w, c)];
    assert(children_executable(cs, 1));
    assert(children_panes(cs, 1) == 0);
}

/// The splits that build `node` in slot `target`, appended to `steps`.
fn plan_node(node: &Layout, target: usize, steps: &mut Vec<SplitStep>)
    requires
        target < old(steps)@.len() + 1,
        executable(node@),
    ensures
        final(steps)@ == old(steps)@ + spec_plan(node@, target as nat, (old(steps)@.len() + 1) as nat),
        forall|k: int|
            old(steps)@.len() <= k < final(steps)@.len() ==> #[trigger] final(steps)@[k].percentage
                <= 100,
    decreases node,
{
    match node {
        Layout::Pane => {
            assert(steps@ =~= old(steps)@ + Seq::<SplitStep>::empty());
        },
        Layout::Split { direction, children } => {
            proof {
                lemma_children_view(children@);
            }
            let ghost cv = children_view(children@);
            if children.len() == 0 {
                assert(steps@ =~= old(steps)@ + Seq::<SplitStep>::empty());
                return;
            }
            if children.len() == 1 {
                assert(executable(cv[0].1)) by {
                    assert(children_executable(cv, 0));
                }
                plan_node(&children[0].1, target, steps);
                return;
            }
            let n = children.len();
            // the weights of the children
            let mut weights: Vec<u32> = Vec::new();
            let mut i: usize = 0;
            while i < n
                invariant
                    n == children@.len(),
                    cv == children_view(children@),
                    cv.len() == n,
                    forall|k: int|
                        0 <= k < n ==> #[trigger] cv[k] == (
                            children@[k].0,
                            children@[k].1@,
                        ),
                    i <= n,
                    weights@ == child_weights(cv).take(i as int),
                decreases n - i,
            {
                weights.push(children[i].0);
                i = i + 1;
                assert(weights@ =~= child_weights(cv).take(i as int));
            }
            assert(weights@ =~= child_weights(cv));
            let percentages = weights_to_split_percentages(weights.as_slice());
            let ghost start = steps@;
            let ghost next = (start.len() + 1) as nat;
            let ghost pcts = split_percentages(child_weights(cv));
            let ghost own = Seq::new(
                (n - 1) as nat,
                |j: int|
                    SplitStep {
                        target: child_slot(target as nat, next, j) as usize,
                        direction: *direction,
                        percentage: pcts[j] as u8,
                    },
            );
            // First child inherits the target pane; each later split works on
            // the pane created last.
            let mut pane_slots: Vec<usize> = Vec::new();
            pane_slots.push(target);
            let mut split_target = target;
            let mut j: usize = 0;
            while j < n - 1
                invariant
                    n >= 2,
                    percentages@.len() == n - 1,
                    pcts.len() == n - 1,
                    forall|k: int| 0 <= k < n - 1 ==> #[trigger] percentages@[k] <= 100,
                    own.len() == n - 1,
                    forall|k: int|
                        0 <= k < n - 1 ==> #[trigger] own[k] == (SplitStep {
                            target: child_slot(target as nat, next, k) as usize,
                            direction: *direction,
                            percentage: pcts[k] as u8,
                        }),
                    forall|k: int|
                        0 <= k < n - 1 ==> percentages@[k] as nat == #[trigger] pcts[k],
                    next == start.len() + 1,
                    target < next,
                    j <= n - 1,
                    steps@ == start + own.take(j as int),
                    pane_slots@.len() == j + 1,
                    forall|k: int|
                        0 <= k <= j ==> #[trigger] pane_slots@[k] == child_slot(
                            target as nat,
                            next,
                            k,
                        ),
                    split_target == child_slot(target as nat, next, j as int),
                decreases n - 1 - j,
            {
                let step = SplitStep {
                    target: split_target,
                    direction: *direction,
                    percentage: percentages[j],
                };
                assert(percentages@[j as int] as nat == pcts[j as int]);
                assert(step == own[j as int]);
                steps.push(step);
                let new_slot = steps.len();
                assert(new_slot == next + j);
                pane_slots.push(new_slot);
                split_target = new_slot;
                j = j + 1;
                assert(steps@ =~= start + own.take(j as int));
                assert(split_target == child_slot(target as nat, next, j as int));
            }
            assert(own.take((n - 1) as int) =~= own);
            assert forall|k: int| start.len() <= k < steps@.len() implies #[trigger] steps@[k].percentage
                <= 100 by {
                assert(steps@[k] == own[k - start.len()]);
                assert(percentages@[k - start.len()] as nat == pcts[k - start.len()]);
            }
            let ghost counter0 = (next + n - 1) as nat;
            let ghost total = plan_children(cv, 0, target as nat, next, counter0);
            assert(spec_plan(node@, target as nat, next) == own + total);
            assert(decreases_to!(*node => *children));
            let mut i: usize = 0;
            while i < n
                invariant
                    decreases_to!(*node => *children),
                    n == children@.len(),
                    n >= 2,
                    cv == children_view(children@),
                    cv.len() == n,
                    forall|k: int|
                        0 <= k < n ==> #[trigger] cv[k] == (
                            children@[k].0,
                            children@[k].1@,
                        ),
                    i <= n,
                    target < next,
                    pane_slots@.len() == n,
                    forall|k: int|
                        0 <= k < n ==> #[trigger] pane_slots@[k] == child_slot(
                            target as nat,
                            next,
                            k,
                        ),
                    forall|k: int| 0 <= k < n ==> #[trigger] pane_slots@[k] < next + n - 1,
                    children_executable(cv, i as int),
                    steps@.len() + 1 >= next + n - 1,
                    steps@.len() >= start.len(),
                    forall|k: int|
                        start.len() <= k < steps@.len() ==> #[trigger] steps@[k].percentage <= 100,
                    start + own + total == steps@ + plan_children(
                        cv,
                        i as int,
                        target as nat,
                        next,
                        (steps@.len() + 1) as nat,
                    ),
                decreases n - i,
            {
                let ghost before = steps@;
                let ghost c = (steps@.len() + 1) as nat;
                assert(forall|k: int|
                    start.len() <= k < before.len() ==> #[trigger] before[k].percentage <= 100);
                assert(executable(cv[i as int].1));
                proof {
                    assert(decreases_to!(*children => children[i as int]));
                    assert(decreases_to!(*node => children[i as int].1));
                }
                plan_node(&children[i].1, pane_slots[i], steps);
                let ghost p = spec_plan(cv[i as int].1, child_slot(target as nat, next, i as int), c);
                assert(steps@ == before + p);
                assert(plan_children(cv, i as int, target as nat, next, c) == p + plan_children(
                    cv,
                    i + 1,
                    target as nat,
                    next,
                    c + p.len(),
                ));
                assert(before + p + plan_children(cv, i + 1, target as nat, next, c + p.len())
                    =~= before + (p + plan_children(
                    cv,
                    i + 1,
                    target as nat,
                    next,
                    c + p.len(),
                )));
                i = i + 1;
            }
            assert(plan_children(cv, n as int, target as nat, next, (steps@.len() + 1) as nat)
                =~= Seq::<SplitStep>::empty());
            assert(steps@ =~= start + (own + total));
        },
    }
}

/// Whether every split of `layout` can be computed (see [`executable`]).
pub fn is_executable(layout: &Layout) -> (b: bool)
    ensures
        b == executable(layout@),
    decreases layout,
{
    match layout {
        Layout::Pane => true,
        Layout::Split { children, .. } => {
            proof {
                lemma_children_view(children@);
            }
            let ghost cv = children_view(children@);
            let n = children.len();
            let mut weights: Vec<u32> = Vec::new();
            let mut i: usize = 0;
            while i < n
                invariant
                    n == children@.len(),
                    cv == children_view(children@),
                    cv.len() == n,
                    forall|k: int|
                        0 <= k < n ==> #[trigger] cv[k] == (
                            children@[k].0,
                            children@[k].1@,
                        ),
                    i <= n,
                    weights@ == child_weights(cv).take(i as int),
                decreases n - i,
            {
                weights.push(children[i].0);
                i = i + 1;
                assert(weights@ =~= child_weights(cv).take(i as int));
            }
            assert(weights@ =~= child_weights(cv));
            if n >= 2 && !percentages_ok(&weights) {
                return false;
            }
            assert(decreases_to!(*layout => *children));
            assert(executable(layout@) ==> children_executable(cv, 0));
            let mut i: usize = n;
            while i > 0
                invariant
                    decreases_to!(*layout => *children),
                    executable(layout@) ==> children_executable(cv, 0),
                    (n >= 2 ==> percentages_computable(child_weights(cv))) && children_executable(cv, 0) ==> executable(layout@),
                    n == children@.len(),
                    cv == children_view(children@),
                    cv.len() == n,
                    forall|k: int|
                        0 <= k < n ==> #[trigger] cv[k] == (
                            children@[k].0,
                            children@[k].1@,
                        ),
                    i <= n,
                    children_executable(cv, i as int),
                decreases i,
            {
                proof {
                    assert(decreases_to!(*children => children[i - 1]));
                    assert(decreases_to!(*layout => children[i - 1].1));
                }
                if !is_executable(&children[i - 1].1) {
                    proof {
                        if children_executable(cv, 0) {
                            lemma_children_executable(cv, 0, i - 1);
                        }
                    }
                    return false;
                }
                i = i - 1;
            }
            true
        },
    }
}

/// Whether `weights_to_split_percentages` can run on `w`.
pub fn percentages_ok(w: &Vec<u32>) -> (b: bool)
    ensures
        b == percentages_computable(w@),
{
    let n = w.len();
    if n <= 1 {
        return true;
    }
    // the total, summed from the right while it fits in u32
    let mut acc: u64 = 0;
    let mut j: usize = n;
    while j > 0
        invariant
            j <= n,
            n == w@.len(),
            acc as nat == suffix_sum(w@, j as int),
            acc <= u32::MAX,
        decreases j,
    {
        acc = acc + w[j - 1] as u64;
        if acc > u32::MAX as u64 {
            proof {
                crate::layout::lemma_suffix_sum_monotone(w@, 0, j - 1);
            }
            return false;
        }
        j = j - 1;
    }
    let mut remaining: u64 = acc;
    let mut i: usize = 1;
    while i < n
        invariant
            1 <= i <= n,
            n == w@.len(),
            n >= 2,
            suffix_sum(w@, 0) <= u32::MAX,
            remaining as nat == suffix_sum(w@, i - 1),
            remaining <= u32::MAX,
            forall|k: int|
                1 <= k < i ==> {
                    &&& #[trigger] suffix_sum(w@, k - 1) > 0
                    &&& suffix_sum(w@, k) * 100 + suffix_sum(w@, k - 1) / 2 <= u32::MAX
                },
        decreases n - i,
    {
        let before = remaining;
        let after = before - w[i - 1] as u64;
        if before == 0 || after * 100 + before / 2 > u32::MAX as u64 {
            assert(!(suffix_sum(w@, i - 1) > 0 && suffix_sum(w@, i as int) * 100 + suffix_sum(
                w@,
                i - 1,
            ) / 2 <= u32::MAX));
            return false;
        }
        remaining = after;
        i = i + 1;
    }
    true
}

/// The splits that build `layout` in the pane of slot 0, in the order tmux
/// runs them.
pub fn split_plan(layout: &Layout) -> (steps: Vec<SplitStep>)
    requires
        executable(layout@),
    ensures
        steps@ == spec_plan(layout@, 0, 1),
        steps@.len() + 1 == pane_count(layout@),
        forall|k: int| 0 <= k < steps@.len() ==> #[trigger] steps@[k].target <= k,
        forall|k: int| 0 <= k < steps@.len() ==> #[trigger] steps@[k].percentage <= 100,
{
    let mut steps: Vec<SplitStep> = Vec::new();
    plan_node(layout, 0, &mut steps);
    proof {
        lemma_plan_shape(layout@, 0, 1);
        assert(steps@ =~= spec_plan(layout@, 0, 1));
    }
    steps
}

} // verus!
