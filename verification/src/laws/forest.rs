//! In which order the forest of contours is judged, and what comes of it.

use crate::contours::{
    all_nested, depth_bound, first_children, hierarchy_filter, lemma_nested_contours,
    lemma_visit_terminates, nested, nested_contours, nested_rejected, rank_of, ranks, settled,
    size_filter, stack_visits, walkable, walkable_from, ContourLinks, LogicalRect,
};
use vstd::prelude::*;

verus! {

/// A contour is judged, and after it the line of its next sibling.
pub open spec fn visit_order(h: Seq<ContourLinks>, n: nat, i: i32) -> Seq<int>
    decreases depth_bound(h, n, i), 0nat,
    when walkable_from(h, n, i)
{
    if i < 0 {
        Seq::empty()
    } else {
        seq![i as int] + line_order(h, n, h[i as int].next)
    }
}

/// The line of a contour is the contour, its first child, the first child of that,
/// and so on. It is judged from its end, each contour with what it brings along.
pub open spec fn line_order(h: Seq<ContourLinks>, n: nat, c: i32) -> Seq<int>
    decreases depth_bound(h, n, c), 1nat,
    when walkable_from(h, n, c)
{
    if c < 0 {
        Seq::empty()
    } else {
        line_order(h, n, h[c as int].first_child) + visit_order(h, n, c)
    }
}

/// Of the first `k` contours those that lie in another are judged, the last first,
/// each with what it brings along.
pub open spec fn forest_order(h: Seq<ContourLinks>, n: nat, k: nat) -> Seq<int>
    decreases k,
{
    if k == 0 {
        Seq::empty()
    } else if h[k - 1].parent >= 0 {
        visit_order(h, n, (k - 1) as i32) + forest_order(h, n, (k - 1) as nat)
    } else {
        forest_order(h, n, (k - 1) as nat)
    }
}

/// The rejections after contours were judged one after the other. A contour that is
/// judged is rejected if its parent is by then, and if it adds nothing to its
/// parent; a rejection is never taken back.
pub open spec fn judged(
    rects: Seq<LogicalRect>,
    scale: int,
    h: Seq<ContourLinks>,
    f: Seq<bool>,
    order: Seq<int>,
) -> Seq<bool>
    decreases order.len(),
{
    if order.len() == 0 {
        f
    } else {
        let i = order[0];
        let p = h[i].parent as int;
        let g = f.update(i, f[i] || f[p] || nested_rejected(rects[i], rects[p], scale));
        judged(rects, scale, h, g, order.drop_first())
    }
}

/// The forest rejects exactly what is rejected when its contours are judged in that
/// order, beginning with those that size rejects.
pub proof fn law_forest(rects: Seq<LogicalRect>, scale: int, h: Seq<ContourLinks>)
    requires
        walkable(h, rects.len()),
        rects.len() <= i32::MAX,
    ensures
        hierarchy_filter(rects, scale, h) == judged(
            rects,
            scale,
            h,
            size_filter(rects, scale),
            forest_order(h, rects.len(), rects.len()),
        ),
{
    let n = rects.len();
    lemma_nested_contours(h, n, n);
    lemma_settled_in_order(rects, scale, h, size_filter(rects, scale), nested_contours(h, n));
    lemma_forest_order(h, n, n);
}

/// The contours of a stack are judged from its top.
spec fn stack_order(h: Seq<ContourLinks>, n: nat, stack: Seq<usize>) -> Seq<int>
    decreases stack.len(),
{
    if stack.len() == 0 {
        Seq::empty()
    } else {
        visit_order(h, n, stack.last() as i32) + stack_order(h, n, stack.drop_last())
    }
}

proof fn lemma_stack_order(h: Seq<ContourLinks>, n: nat, a: Seq<usize>, b: Seq<usize>)
    ensures
        stack_order(h, n, a + b) == stack_order(h, n, b) + stack_order(h, n, a),
    decreases b.len(),
{
    if b.len() == 0 {
        assert(a + b =~= a);
    } else {
        lemma_stack_order(h, n, a, b.drop_last());
        assert((a + b).drop_last() =~= a + b.drop_last());
        assert(stack_order(h, n, a + b) =~= stack_order(h, n, b) + stack_order(h, n, a));
    }
}

proof fn lemma_line_order(h: Seq<ContourLinks>, n: nat, c: i32)
    requires
        walkable_from(h, n, c),
        n <= i32::MAX,
    ensures
        stack_order(h, n, first_children(h, n, c)) == line_order(h, n, c),
    decreases depth_bound(h, n, c),
{
    if c >= 0 {
        assert(nested(h, n, c as int));
        assert(ranks(h, n, rank_of(h, n)));
        let rest = h[c as int].first_child;
        lemma_line_order(h, n, rest);
        let one = seq![c as usize];
        lemma_stack_order(h, n, one, first_children(h, n, rest));
        assert(one.drop_last() =~= Seq::<usize>::empty());
        assert(stack_order(h, n, one) =~= visit_order(h, n, c)) by {
            assert(stack_order(h, n, one.drop_last()) =~= Seq::<int>::empty());
        }
    }
}

proof fn lemma_forest_order(h: Seq<ContourLinks>, n: nat, k: nat)
    requires
        k <= n,
        n <= i32::MAX,
    ensures
        stack_order(h, n, nested_contours(h, k)) == forest_order(h, n, k),
    decreases k,
{
    if k > 0 {
        lemma_forest_order(h, n, (k - 1) as nat);
        if h[k - 1].parent >= 0 {
            assert(nested_contours(h, k).drop_last() =~= nested_contours(h, (k - 1) as nat));
        }
    }
}

proof fn lemma_settled_in_order(
    rects: Seq<LogicalRect>,
    scale: int,
    h: Seq<ContourLinks>,
    f: Seq<bool>,
    stack: Seq<usize>,
)
    requires
        walkable(h, rects.len()),
        rects.len() <= i32::MAX,
        all_nested(h, rects.len(), stack),
        f.len() == rects.len(),
    ensures
        settled(rects, scale, h, f, stack) == judged(
            rects,
            scale,
            h,
            f,
            stack_order(h, rects.len(), stack),
        ),
    decreases stack_visits(h, rects.len(), stack),
{
    let n = rects.len();
    if stack.len() > 0 {
        lemma_visit_terminates(h, n, stack);
        let i = stack.last() as int;
        assert(nested(h, n, stack[stack.len() - 1] as int));
        let p = h[i].parent as int;
        let g = f.update(i, f[i] || f[p] || nested_rejected(rects[i], rects[p], scale));
        assert(g =~= crate::contours::after_visit(rects, scale, h, f, i));
        let line = first_children(h, n, h[i].next);
        let rest = stack.drop_last() + line;
        lemma_settled_in_order(rects, scale, h, g, rest);
        lemma_stack_order(h, n, stack.drop_last(), line);
        lemma_line_order(h, n, h[i].next);
        let order = stack_order(h, n, stack);
        assert(order =~= seq![i] + (line_order(h, n, h[i].next) + stack_order(
            h,
            n,
            stack.drop_last(),
        )));
        assert(order.drop_first() =~= stack_order(h, n, rest));
    }
}

} // verus!
