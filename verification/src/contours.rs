//! Choosing click targets among the contours found in a captured frame.
//!
//! Contours form a forest. Each carries links to its neighbours, as indices
//! that are negative where there is no neighbour.

use crate::double::{double, to_double};
use crate::fixed::abs;
use vstd::prelude::*;

verus! {

/// The place of one contour in the contour forest.
#[derive(Clone, Copy, Debug, PartialEq, Eq, Structural)]
pub struct ContourLinks {
    pub next: i32,
    pub previous: i32,
    pub first_child: i32,
    pub parent: i32,
}

/// A rectangle in logical coordinates. Each is a double, counted in units of
/// which `scale` make a logical pixel, where `scale` is common to all rectangles
/// of one frame.
#[derive(Clone, Copy, Debug, PartialEq, Eq, Structural)]
pub struct LogicalRect {
    pub x: i128,
    pub y: i128,
    pub w: i128,
    pub h: i128,
}

/// A bound on logical coordinates that keeps sums and small multiples of them
/// inside `i128`.
pub const RECT_LIMIT: i128 = 0x400_0000_0000_0000_0000_0000;

pub open spec fn bounded(r: LogicalRect) -> bool {
    &&& -RECT_LIMIT <= r.x <= RECT_LIMIT
    &&& -RECT_LIMIT <= r.y <= RECT_LIMIT
    &&& -RECT_LIMIT <= r.w <= RECT_LIMIT
    &&& -RECT_LIMIT <= r.h <= RECT_LIMIT
}

// ---------------------------------------------------------------------------
// Rules on single rectangles
// ---------------------------------------------------------------------------

/// A target is between 3 and 50 logical pixels high and between 7 and 500 wide,
/// all bounds excluded.
pub open spec fn size_rejected(r: LogicalRect, scale: int) -> bool {
    r.h >= 50 * scale || r.w >= 500 * scale || r.h <= 3 * scale || r.w <= 7 * scale
}

/// A bound on the scale that keeps multiples of it inside `i128`.
pub const SCALE_LIMIT: i128 = 0x20_0000_0000_0000_0000_0000;

/// The middle between two edges as a double, in half units.
pub open spec fn middle(start: int, length: int) -> int {
    double(2 * start + length, 1)
}

/// Whether the centres of the two rectangles are less than 8 logical pixels
/// apart in each direction, in the arithmetic of doubles.
pub open spec fn concentric(a: LogicalRect, b: LogicalRect, scale: int) -> bool {
    &&& abs(double(middle(a.x as int, a.w as int) - middle(b.x as int, b.w as int), 1)) < 16
        * scale
    &&& abs(double(middle(a.y as int, a.h as int) - middle(b.y as int, b.h as int), 1)) < 16
        * scale
}

/// Whether the rectangle is small and nearly square, as icons and buttons are.
pub open spec fn icon_like(r: LogicalRect, scale: int) -> bool {
    abs(double(r.h - r.w, 1)) < 5 * scale && r.h < 40 * scale && r.w < 40 * scale
}

/// Whether a rectangle inside a parent that is itself a target adds nothing.
pub open spec fn nested_rejected(r: LogicalRect, parent: LogicalRect, scale: int) -> bool {
    r.h <= 6 * scale || concentric(r, parent, scale) || icon_like(parent, scale)
}

fn is_size_rejected(r: &LogicalRect, scale: i128) -> (b: bool)
    requires
        0 < scale <= SCALE_LIMIT,
    ensures
        b == size_rejected(*r, scale as int),
{
    let s: i128 = scale;
    r.h >= 50 * s || r.w >= 500 * s || r.h <= 3 * s || r.w <= 7 * s
}

/// How far apart two numbers are, as a double.
fn distance(a: i128, b: i128) -> (d: i128)
    requires
        -8 * RECT_LIMIT <= a <= 8 * RECT_LIMIT,
        -8 * RECT_LIMIT <= b <= 8 * RECT_LIMIT,
    ensures
        d == abs(double(a - b, 1)),
{
    let d: i128 = to_double(a - b);
    if d < 0 {
        -d
    } else {
        d
    }
}

fn to_middle(start: i128, length: i128) -> (m: i128)
    requires
        -RECT_LIMIT <= start <= RECT_LIMIT,
        -RECT_LIMIT <= length <= RECT_LIMIT,
    ensures
        m == middle(start as int, length as int),
        -8 * RECT_LIMIT <= m <= 8 * RECT_LIMIT,
{
    to_double(2 * start + length)
}

fn is_nested_rejected(r: &LogicalRect, parent: &LogicalRect, scale: i128) -> (b: bool)
    requires
        0 < scale <= SCALE_LIMIT,
        bounded(*r),
        bounded(*parent),
    ensures
        b == nested_rejected(*r, *parent, scale as int),
{
    let s: i128 = scale;
    if r.h <= 6 * s {
        return true;
    }
    if distance(to_middle(r.x, r.w), to_middle(parent.x, parent.w)) < 16 * s && distance(
        to_middle(r.y, r.h),
        to_middle(parent.y, parent.h),
    ) < 16 * s {
        return true;
    }
    distance(parent.h, parent.w) < 5 * s && parent.h < 40 * s && parent.w < 40 * s
}

// ---------------------------------------------------------------------------
// The contour forest
// ---------------------------------------------------------------------------

/// Whether contour `i` lies inside another contour.
pub open spec fn nested(h: Seq<ContourLinks>, n: nat, i: int) -> bool {
    0 <= i < n && h[i].parent >= 0
}

/// Whether the links that start at nested contours lead to contours, and those
/// to siblings and children to nested ones.
pub open spec fn links_valid(h: Seq<ContourLinks>, n: nat) -> bool {
    &&& n <= h.len()
    &&& forall|i: int| n <= i < h.len() ==> (#[trigger] h[i]).parent < 0
    &&& forall|i: int| #[trigger]
        nested(h, n, i) ==> {
            &&& h[i].parent < n
            &&& h[i].next >= 0 ==> nested(h, n, h[i].next as int)
            &&& h[i].first_child >= 0 ==> nested(h, n, h[i].first_child as int)
        }
}

/// Whether `rank` falls along every link from a nested contour to its next
/// sibling and to its first child.
pub open spec fn ranks(h: Seq<ContourLinks>, n: nat, rank: Seq<nat>) -> bool {
    &&& rank.len() == n
    &&& forall|i: int| #[trigger]
        nested(h, n, i) ==> {
            &&& h[i].next >= 0 ==> rank[h[i].next as int] < rank[i]
            &&& h[i].first_child >= 0 ==> rank[h[i].first_child as int] < rank[i]
        }
}

/// Whether the links of the first `n` contours are valid and lead nowhere in a
/// circle, as in every forest.
pub open spec fn walkable(h: Seq<ContourLinks>, n: nat) -> bool {
    links_valid(h, n) && exists|rank: Seq<nat>| ranks(h, n, rank)
}

pub open spec fn rank_of(h: Seq<ContourLinks>, n: nat) -> Seq<nat> {
    choose|rank: Seq<nat>| ranks(h, n, rank)
}

/// How far a walk can go on from `c`, which may be negative for nowhere.
pub open spec fn depth_bound(h: Seq<ContourLinks>, n: nat, c: i32) -> nat {
    if c < 0 {
        0
    } else {
        rank_of(h, n)[c as int] + 1
    }
}

pub open spec fn walkable_from(h: Seq<ContourLinks>, n: nat, c: i32) -> bool {
    walkable(h, n) && (c >= 0 ==> nested(h, n, c as int))
}

/// `c`, its first child, the first child of that, and so on.
pub open spec fn first_children(h: Seq<ContourLinks>, n: nat, c: i32) -> Seq<usize>
    decreases depth_bound(h, n, c),
    when walkable_from(h, n, c)
{
    if c < 0 {
        Seq::empty()
    } else {
        seq![c as usize] + first_children(h, n, h[c as int].first_child)
    }
}

/// The number of visits that a visit of `i` brings about, itself included.
pub open spec fn visits(h: Seq<ContourLinks>, n: nat, i: i32) -> nat
    decreases depth_bound(h, n, i), 0nat,
    when walkable_from(h, n, i)
{
    if i < 0 {
        0
    } else {
        1 + chain_visits(h, n, h[i as int].next)
    }
}

/// The number of visits that visits of `first_children(c)` bring about.
pub open spec fn chain_visits(h: Seq<ContourLinks>, n: nat, c: i32) -> nat
    decreases depth_bound(h, n, c), 1nat,
    when walkable_from(h, n, c)
{
    if c < 0 {
        0
    } else {
        visits(h, n, c) + chain_visits(h, n, h[c as int].first_child)
    }
}

pub open spec fn all_nested(h: Seq<ContourLinks>, n: nat, stack: Seq<usize>) -> bool {
    forall|k: int| 0 <= k < stack.len() ==> #[trigger] nested(h, n, stack[k] as int)
}

pub open spec fn stack_visits(h: Seq<ContourLinks>, n: nat, stack: Seq<usize>) -> nat
    decreases stack.len(),
{
    if stack.len() == 0 {
        0
    } else {
        stack_visits(h, n, stack.drop_last()) + visits(h, n, stack.last() as i32)
    }
}

proof fn lemma_stack_visits_add(h: Seq<ContourLinks>, n: nat, a: Seq<usize>, b: Seq<usize>)
    ensures
        stack_visits(h, n, a + b) == stack_visits(h, n, a) + stack_visits(h, n, b),
    decreases b.len(),
{
    if b.len() == 0 {
        assert(a + b =~= a);
    } else {
        lemma_stack_visits_add(h, n, a, b.drop_last());
        assert((a + b).drop_last() =~= a + b.drop_last());
    }
}

proof fn lemma_first_children(h: Seq<ContourLinks>, n: nat, c: i32)
    requires
        walkable_from(h, n, c),
        n <= i32::MAX,
    ensures
        stack_visits(h, n, first_children(h, n, c)) == chain_visits(h, n, c),
        all_nested(h, n, first_children(h, n, c)),
    decreases depth_bound(h, n, c),
{
    if c >= 0 {
        assert(nested(h, n, c as int));
        let rest = h[c as int].first_child;
        assert(ranks(h, n, rank_of(h, n)));
        lemma_first_children(h, n, rest);
        let one = seq![c as usize];
        lemma_stack_visits_add(h, n, one, first_children(h, n, rest));
        assert(one.drop_last() =~= Seq::<usize>::empty());
        assert(stack_visits(h, n, one.drop_last()) == 0);
        let all = first_children(h, n, c);
        assert forall|k: int| 0 <= k < all.len() implies #[trigger] nested(
            h,
            n,
            all[k] as int,
        ) by {
            if k > 0 {
                assert(all[k] == first_children(h, n, rest)[k - 1]);
            }
        }
    }
}

// ---------------------------------------------------------------------------
// Filtering
// ---------------------------------------------------------------------------

/// For each rectangle, whether its size alone rules it out.
pub open spec fn size_filter(rects: Seq<LogicalRect>, scale: int) -> Seq<bool> {
    Seq::new(rects.len(), |i: int| size_rejected(rects[i], scale))
}

/// The rejections `f` after a visit of the nested contour `i`: it is rejected
/// where its parent is, and where it adds nothing to its parent.
pub open spec fn after_visit(
    rects: Seq<LogicalRect>,
    scale: int,
    h: Seq<ContourLinks>,
    f: Seq<bool>,
    i: int,
) -> Seq<bool> {
    let parent = h[i].parent as int;
    if f[parent] || nested_rejected(rects[i], rects[parent], scale) {
        f.update(i, true)
    } else {
        f
    }
}

/// The rejections `f` once no visit is outstanding. The last contour of `stack`
/// is visited first; its next sibling and the first children below that are
/// visited after it.
pub open spec fn settled(
    rects: Seq<LogicalRect>,
    scale: int,
    h: Seq<ContourLinks>,
    f: Seq<bool>,
    stack: Seq<usize>,
) -> Seq<bool>
    decreases stack_visits(h, rects.len(), stack),
    when walkable(h, rects.len()) && rects.len() <= i32::MAX && all_nested(h, rects.len(), stack)
{
    if stack.len() == 0 {
        f
    } else {
        proof {
            lemma_visit_terminates(h, rects.len(), stack);
        }
        let i = stack.last() as int;
        settled(
            rects,
            scale,
            h,
            after_visit(rects, scale, h, f, i),
            stack.drop_last() + first_children(h, rects.len(), h[i].next),
        )
    }
}

/// A visit leaves fewer visits outstanding than there were.
pub proof fn lemma_visit_terminates(h: Seq<ContourLinks>, n: nat, stack: Seq<usize>)
    requires
        walkable(h, n),
        n <= i32::MAX,
        all_nested(h, n, stack),
        stack.len() > 0,
    ensures
        walkable_from(h, n, h[stack.last() as int].next),
        all_nested(
            h,
            n,
            stack.drop_last() + first_children(h, n, h[stack.last() as int].next),
        ),
        stack_visits(
            h,
            n,
            stack.drop_last() + first_children(h, n, h[stack.last() as int].next),
        ) < stack_visits(h, n, stack),
{
    let i = stack.last();
    assert(nested(h, n, stack[stack.len() - 1] as int));
    let c = h[i as int].next;
    lemma_first_children(h, n, c);
    lemma_stack_visits_add(h, n, stack.drop_last(), first_children(h, n, c));
    let rest = stack.drop_last() + first_children(h, n, c);
    assert forall|k: int| 0 <= k < rest.len() implies #[trigger] nested(h, n, rest[k] as int) by {
        if k < stack.len() - 1 {
            assert(nested(h, n, stack[k] as int));
        } else {
            assert(rest[k] == first_children(h, n, c)[k - (stack.len() - 1)]);
        }
    }
}

/// The nested contours among the first `k`, in order.
pub open spec fn nested_contours(h: Seq<ContourLinks>, k: nat) -> Seq<usize>
    decreases k,
{
    if k == 0 {
        Seq::empty()
    } else if h[k - 1].parent >= 0 {
        nested_contours(h, (k - 1) as nat).push((k - 1) as usize)
    } else {
        nested_contours(h, (k - 1) as nat)
    }
}

/// For each rectangle, whether it is ruled out by its size or by its place in
/// the contour forest.
pub open spec fn hierarchy_filter(
    rects: Seq<LogicalRect>,
    scale: int,
    h: Seq<ContourLinks>,
) -> Seq<bool> {
    settled(rects, scale, h, size_filter(rects, scale), nested_contours(h, rects.len()))
}

/// Marks each rectangle that its size rules out.
pub fn filter_rects_size_only(rects: &Vec<LogicalRect>, scale: i128) -> (filtered: Vec<bool>)
    requires
        0 < scale <= SCALE_LIMIT,
    ensures
        filtered@ == size_filter(rects@, scale as int),
{
    let mut filtered: Vec<bool> = Vec::new();
    let mut i: usize = 0;
    while i < rects.len()
        invariant
            0 < scale <= SCALE_LIMIT,
            i <= rects.len(),
            filtered@ == size_filter(rects@, scale as int).take(i as int),
        decreases rects.len() - i,
    {
        filtered.push(is_size_rejected(&rects[i], scale));
        i = i + 1;
    }
    filtered
}

/// Marks each rectangle that is no target: first by size, then by walking the
/// contour forest.
pub fn filter_rects(
    rects: &Vec<LogicalRect>,
    scale: i128,
    hierarchy: &Vec<ContourLinks>,
) -> (filtered: Vec<bool>)
    requires
        0 < scale <= SCALE_LIMIT,
        rects.len() <= i32::MAX,
        walkable(hierarchy@, rects@.len()),
        forall|i: int| 0 <= i < rects.len() ==> bounded(#[trigger] rects[i]),
    ensures
        filtered@ == hierarchy_filter(rects@, scale as int, hierarchy@),
        filtered.len() == rects.len(),
{
    let ghost n = rects@.len();
    let ghost h = hierarchy@;
    let ghost s = scale as int;
    let mut filtered: Vec<bool> = filter_rects_size_only(rects, scale);
    let mut stack: Vec<usize> = Vec::new();
    let mut i: usize = 0;
    while i < rects.len()
        invariant
            i <= rects.len(),
            n == rects@.len(),
            h == hierarchy@,
            n <= h.len(),
            stack@ == nested_contours(h, i as nat),
            all_nested(h, n, stack@),
        decreases rects.len() - i,
    {
        if hierarchy[i].parent >= 0 {
            let ghost before = stack@;
            stack.push(i);
            assert forall|k: int| 0 <= k < stack@.len() implies #[trigger] nested(
                h,
                n,
                stack@[k] as int,
            ) by {
                if k < before.len() {
                    assert(nested(h, n, before[k] as int));
                }
            }
        }
        i = i + 1;
    }
    while stack.len() > 0
        invariant
            0 < scale <= SCALE_LIMIT,
            s == scale as int,
            n == rects@.len(),
            h == hierarchy@,
            n <= i32::MAX,
            walkable(h, n),
            all_nested(h, n, stack@),
            forall|j: int| 0 <= j < n ==> bounded(#[trigger] rects[j]),
            filtered@.len() == n,
            settled(rects@, s, h, filtered@, stack@) == hierarchy_filter(rects@, s, h),
        decreases stack_visits(h, n, stack@),
    {
        let ghost stack0 = stack@;
        let ghost f0 = filtered@;
        proof {
            lemma_visit_terminates(h, n, stack0);
            assert(nested(h, n, stack0[stack0.len() - 1] as int));
        }
        let i: usize = stack[stack.len() - 1];
        stack.pop();
        let parent: usize = hierarchy[i].parent as usize;
        if !filtered[i] {
            if filtered[parent] || is_nested_rejected(&rects[i], &rects[parent], scale) {
                filtered.set(i, true);
            }
        }
        assert(filtered@ =~= after_visit(rects@, s, h, f0, i as int));
        let ghost base = stack@;
        let mut child: i32 = hierarchy[i].next;
        let ghost link = child;
        assert(base + first_children(h, n, link) =~= stack@ + first_children(h, n, child));
        while child >= 0
            invariant
                h == hierarchy@,
                walkable_from(h, n, child),
                n <= i32::MAX,
                stack@ + first_children(h, n, child) == base + first_children(h, n, link),
            decreases depth_bound(h, n, child),
        {
            assert(nested(h, n, child as int));
            assert(ranks(h, n, rank_of(h, n)));
            stack.push(child as usize);
            child = hierarchy[child as usize].first_child;
        }
        assert(stack@ =~= base + first_children(h, n, link));
    }
    filtered
}

// ---------------------------------------------------------------------------
// What the filter guarantees
// ---------------------------------------------------------------------------

/// The walk only ever adds rejections, and only of nested contours. A contour
/// that waits for its visit ends up rejected where it adds nothing to its
/// parent and where its parent was already rejected.
proof fn lemma_settled(
    rects: Seq<LogicalRect>,
    scale: int,
    h: Seq<ContourLinks>,
    f: Seq<bool>,
    stack: Seq<usize>,
    i: int,
)
    requires
        walkable(h, rects.len()),
        rects.len() <= i32::MAX,
        all_nested(h, rects.len(), stack),
        f.len() == rects.len(),
        0 <= i < rects.len(),
    ensures
        settled(rects, scale, h, f, stack).len() == f.len(),
        f[i] ==> settled(rects, scale, h, f, stack)[i],
        h[i].parent < 0 ==> settled(rects, scale, h, f, stack)[i] == f[i],
        stack.contains(i as usize) && (f[h[i].parent as int] || nested_rejected(
            rects[i],
            rects[h[i].parent as int],
            scale,
        )) ==> settled(rects, scale, h, f, stack)[i],
    decreases stack_visits(h, rects.len(), stack),
{
    if stack.len() > 0 {
        let n = rects.len();
        lemma_visit_terminates(h, n, stack);
        let j = stack.last() as int;
        assert(nested(h, n, stack[stack.len() - 1] as int));
        let g = after_visit(rects, scale, h, f, j);
        let rest = stack.drop_last() + first_children(h, n, h[j].next);
        lemma_settled(rects, scale, h, g, rest, i);
        if stack.contains(i as usize) && j != i {
            let k = choose|k: int| 0 <= k < stack.len() && stack[k] == i as usize;
            assert(rest[k] == i as usize);
            assert(nested(h, n, stack[k] as int));
        }
    }
}

/// The nested contours are nested, and none of them is missing.
pub proof fn lemma_nested_contours(h: Seq<ContourLinks>, n: nat, k: nat)
    requires
        k <= n <= i32::MAX,
        n <= h.len(),
    ensures
        all_nested(h, n, nested_contours(h, k)),
        forall|i: int|
            0 <= i < k && h[i].parent >= 0 ==> #[trigger] nested_contours(h, k).contains(
                i as usize,
            ),
    decreases k,
{
    if k > 0 {
        let before = nested_contours(h, (k - 1) as nat);
        let all = nested_contours(h, k);
        lemma_nested_contours(h, n, (k - 1) as nat);
        assert forall|m: int| 0 <= m < all.len() implies #[trigger] nested(
            h,
            n,
            all[m] as int,
        ) by {
            if m < before.len() {
                assert(nested(h, n, before[m] as int));
            }
        }
        assert forall|i: int| 0 <= i < k && h[i].parent >= 0 implies #[trigger] all.contains(
            i as usize,
        ) by {
            if i < k - 1 {
                assert(before.contains(i as usize));
                let m = choose|m: int| 0 <= m < before.len() && before[m] == i as usize;
                assert(all[m] == i as usize);
            } else {
                assert(all[all.len() - 1] == i as usize);
            }
        }
    }
}

/// Whether each rejection has a reason: the contour's size, its place in its
/// parent, or the rejection of its parent.
spec fn justified(
    rects: Seq<LogicalRect>,
    scale: int,
    h: Seq<ContourLinks>,
    f: Seq<bool>,
) -> bool {
    forall|i: int|
        0 <= i < rects.len() && #[trigger] f[i] ==> rejection_reason(rects, scale, h, f, i)
}

/// Whether contour `i` has a reason for being rejected among the rejections `f`.
pub open spec fn rejection_reason(
    rects: Seq<LogicalRect>,
    scale: int,
    h: Seq<ContourLinks>,
    f: Seq<bool>,
    i: int,
) -> bool {
    ||| size_rejected(rects[i], scale)
    ||| h[i].parent >= 0 && nested_rejected(rects[i], rects[h[i].parent as int], scale)
    ||| h[i].parent >= 0 && f[h[i].parent as int]
}

proof fn lemma_settled_justified(
    rects: Seq<LogicalRect>,
    scale: int,
    h: Seq<ContourLinks>,
    f: Seq<bool>,
    stack: Seq<usize>,
)
    requires
        walkable(h, rects.len()),
        rects.len() <= i32::MAX,
        all_nested(h, rects.len(), stack),
        f.len() == rects.len(),
        justified(rects, scale, h, f),
    ensures
        justified(rects, scale, h, settled(rects, scale, h, f, stack)),
    decreases stack_visits(h, rects.len(), stack),
{
    if stack.len() > 0 {
        let n = rects.len();
        lemma_visit_terminates(h, n, stack);
        let j = stack.last() as int;
        assert(nested(h, n, stack[stack.len() - 1] as int));
        let g = after_visit(rects, scale, h, f, j);
        assert forall|i: int| 0 <= i < n && #[trigger] g[i] implies rejection_reason(
            rects,
            scale,
            h,
            g,
            i,
        ) by {
            if f[i] {
                assert(rejection_reason(rects, scale, h, f, i));
                if h[i].parent >= 0 {
                    assert(nested(h, n, i));
                }
            }
        }
        lemma_settled_justified(
            rects,
            scale,
            h,
            g,
            stack.drop_last() + first_children(h, n, h[j].next),
        );
    }
}

/// The forest filter has a verdict on each contour.
pub proof fn lemma_filter_length(rects: Seq<LogicalRect>, scale: int, h: Seq<ContourLinks>)
    requires
        walkable(h, rects.len()),
        rects.len() <= i32::MAX,
    ensures
        hierarchy_filter(rects, scale, h).len() == rects.len(),
{
    let n = rects.len();
    lemma_nested_contours(h, n, n);
    if n > 0 {
        lemma_settled(rects, scale, h, size_filter(rects, scale), nested_contours(h, n), 0);
    } else {
        assert(nested_contours(h, 0).len() == 0);
    }
}

/// What the forest filter keeps, the size filter keeps too; contours that lie in
/// no other are judged by size alone; a nested contour that is kept adds
/// something to a parent whose own size is that of a target; and a contour is
/// rejected only for its size, for its place in its parent, or with its parent.
pub proof fn law_hierarchy_filter(
    rects: Seq<LogicalRect>,
    scale: int,
    h: Seq<ContourLinks>,
    i: int,
)
    requires
        walkable(h, rects.len()),
        rects.len() <= i32::MAX,
        0 <= i < rects.len(),
    ensures
        size_filter(rects, scale)[i] ==> hierarchy_filter(rects, scale, h)[i],
        h[i].parent < 0 ==> hierarchy_filter(rects, scale, h)[i] == size_rejected(rects[i], scale),
        h[i].parent >= 0 && !hierarchy_filter(rects, scale, h)[i] ==> !size_rejected(
            rects[h[i].parent as int],
            scale,
        ) && !nested_rejected(rects[i], rects[h[i].parent as int], scale),
        hierarchy_filter(rects, scale, h)[i] ==> rejection_reason(
            rects,
            scale,
            h,
            hierarchy_filter(rects, scale, h),
            i,
        ),
{
    let n = rects.len();
    lemma_nested_contours(h, n, n);
    lemma_settled_justified(rects, scale, h, size_filter(rects, scale), nested_contours(h, n));
    lemma_settled(rects, scale, h, size_filter(rects, scale), nested_contours(h, n), i);
    if h[i].parent >= 0 {
        assert(nested(h, n, i));
        assert(nested_contours(h, n).contains(i as usize));
    }
}

/// Where no contour has a sibling, each is judged once, the later ones first: a
/// nested contour is rejected exactly for its size, for its place in its parent,
/// for its parent's size, and with a parent that comes after it.
pub proof fn law_forest_without_siblings(
    rects: Seq<LogicalRect>,
    scale: int,
    h: Seq<ContourLinks>,
    i: int,
)
    requires
        walkable(h, rects.len()),
        rects.len() <= i32::MAX,
        forall|j: int| 0 <= j < rects.len() ==> (#[trigger] h[j]).next < 0,
        0 <= i < rects.len(),
        h[i].parent >= 0,
    ensures
        ({
            let p = h[i].parent as int;
            let by_forest = hierarchy_filter(rects, scale, h);
            let by_size = size_filter(rects, scale);
            by_forest[i] <==> by_size[i] || by_size[p] || nested_rejected(rects[i], rects[p], scale)
                || (p > i && by_forest[p])
        }),
{
    let n = rects.len();
    assert(nested(h, n, i));
    lemma_without_siblings(rects, scale, h, size_filter(rects, scale), n);
    lemma_nested_contours(h, n, n);
    lemma_settled(
        rects,
        scale,
        h,
        size_filter(rects, scale),
        nested_contours(h, n),
        h[i].parent as int,
    );
}

proof fn lemma_without_siblings(
    rects: Seq<LogicalRect>,
    scale: int,
    h: Seq<ContourLinks>,
    f: Seq<bool>,
    k: nat,
)
    requires
        walkable(h, rects.len()),
        rects.len() <= i32::MAX,
        forall|j: int| 0 <= j < rects.len() ==> (#[trigger] h[j]).next < 0,
        k <= rects.len(),
        f.len() == rects.len(),
        forall|j: int| 0 <= j < k ==> #[trigger] f[j] == size_rejected(rects[j], scale),
    ensures
        ({
            let r = settled(rects, scale, h, f, nested_contours(h, k));
            &&& forall|j: int| k <= j < rects.len() ==> #[trigger] r[j] == f[j]
            &&& forall|j: int|
                0 <= j < k && h[j].parent >= 0 ==> (#[trigger] r[j] <==> size_rejected(
                    rects[j],
                    scale,
                ) || nested_rejected(rects[j], rects[h[j].parent as int], scale) || (
                if h[j].parent > j {
                    r[h[j].parent as int]
                } else {
                    size_rejected(rects[h[j].parent as int], scale)
                }))
        }),
    decreases k,
{
    let n = rects.len();
    let stack = nested_contours(h, k);
    lemma_nested_contours(h, n, k);
    if k > 0 {
        let i = k - 1;
        if h[i].parent >= 0 {
            assert(nested(h, n, i));
            let g = after_visit(rects, scale, h, f, i);
            let before = nested_contours(h, (k - 1) as nat);
            assert(stack.drop_last() =~= before);
            assert(h[i].next < 0);
            assert(stack.drop_last() + first_children(h, n, h[i].next) =~= before);
            lemma_visit_terminates(h, n, stack);
            lemma_without_siblings(rects, scale, h, g, (k - 1) as nat);
            let r = settled(rects, scale, h, f, stack);
            assert(r == settled(rects, scale, h, g, before));
            let p = h[i].parent as int;
            assert(r[i] == g[i]);
            assert(f[i] == size_rejected(rects[i], scale));
            if p > i {
                assert(r[p] == g[p] && g[p] == f[p]);
            } else {
                assert(f[p] == size_rejected(rects[p], scale));
            }
            assert forall|j: int| k <= j < n implies #[trigger] r[j] == f[j] by {
                assert(g[j] == f[j]);
            }
            assert forall|j: int| 0 <= j < k && h[j].parent >= 0 implies (#[trigger] r[j]
                <==> size_rejected(rects[j], scale) || nested_rejected(
                rects[j],
                rects[h[j].parent as int],
                scale,
            ) || (if h[j].parent > j {
                r[h[j].parent as int]
            } else {
                size_rejected(rects[h[j].parent as int], scale)
            })) by {
                if j == i {
                    assert(r[i] == g[i]);
                }
            }
        } else {
            assert(stack == nested_contours(h, (k - 1) as nat));
            lemma_without_siblings(rects, scale, h, f, (k - 1) as nat);
        }
    } else {
        assert(stack.len() == 0);
        assert(settled(rects, scale, h, f, stack) == f);
    }
}

/// The walk along the siblings takes in their children: a contour that is
/// rejected by itself and follows a sibling of lower number takes its first child
/// with it.
pub proof fn law_siblings_take_children(
    rects: Seq<LogicalRect>,
    scale: int,
    h: Seq<ContourLinks>,
    j: int,
    i: int,
    c: int,
)
    requires
        walkable(h, rects.len()),
        rects.len() <= i32::MAX,
        0 <= j < i < rects.len(),
        h[j].parent >= 0,
        h[j].next == i,
        0 <= c,
        h[i].first_child == c,
        h[c].parent == i,
        size_filter(rects, scale)[h[i].parent as int] || nested_rejected(
            rects[i],
            rects[h[i].parent as int],
            scale,
        ),
    ensures
        hierarchy_filter(rects, scale, h)[c],
{
    let n = rects.len();
    assert(nested(h, n, j));
    assert(nested(h, n, i));
    assert(nested(h, n, c));
    lemma_nested_contours(h, n, n);
    let (a, b) = lemma_contours_ordered(h, n, j, i);
    lemma_walk_rejects(
        rects,
        scale,
        h,
        size_filter(rects, scale),
        nested_contours(h, n),
        (j, i, c),
        a,
        b,
    );
}

proof fn lemma_contour_at(h: Seq<ContourLinks>, k: nat, j: int) -> (a: int)
    requires
        0 <= j < k <= i32::MAX,
        h[j].parent >= 0,
    ensures
        0 <= a < nested_contours(h, k).len(),
        nested_contours(h, k)[a] == j,
    decreases k,
{
    if j < k - 1 {
        lemma_contour_at(h, (k - 1) as nat, j)
    } else {
        nested_contours(h, k).len() - 1
    }
}

proof fn lemma_contours_ordered(h: Seq<ContourLinks>, k: nat, j: int, i: int) -> (r: (int, int))
    requires
        0 <= j < i < k <= i32::MAX,
        h[j].parent >= 0,
        h[i].parent >= 0,
    ensures
        0 <= r.0 < r.1 < nested_contours(h, k).len(),
        nested_contours(h, k)[r.0] == j,
        nested_contours(h, k)[r.1] == i,
    decreases k,
{
    if i < k - 1 {
        lemma_contours_ordered(h, (k - 1) as nat, j, i)
    } else {
        let a = lemma_contour_at(h, (k - 1) as nat, j);
        (a, nested_contours(h, k).len() - 1)
    }
}

/// Once a contour is rejected, the visit of the sibling before it rejects its
/// first child.
proof fn lemma_walk_takes_child(
    rects: Seq<LogicalRect>,
    scale: int,
    h: Seq<ContourLinks>,
    f: Seq<bool>,
    stack: Seq<usize>,
    links: (int, int, int),
    a: int,
)
    requires
        walkable(h, rects.len()),
        rects.len() <= i32::MAX,
        all_nested(h, rects.len(), stack),
        f.len() == rects.len(),
        0 <= a < stack.len(),
        stack[a] == links.0,
        nested(h, rects.len(), links.0),
        nested(h, rects.len(), links.1),
        nested(h, rects.len(), links.2),
        h[links.0].next == links.1,
        h[links.1].first_child == links.2,
        h[links.2].parent == links.1,
        f[links.1],
    ensures
        settled(rects, scale, h, f, stack)[links.2],
    decreases stack_visits(h, rects.len(), stack),
{
    let n = rects.len();
    let (j, i, c) = links;
    lemma_visit_terminates(h, n, stack);
    let top = stack.last() as int;
    assert(nested(h, n, stack[stack.len() - 1] as int));
    let g = after_visit(rects, scale, h, f, top);
    let chain = first_children(h, n, h[top].next);
    let rest = stack.drop_last() + chain;
    if a == stack.len() - 1 {
        assert(top == j);
        let below = first_children(h, n, c as i32);
        assert(chain =~= seq![i as usize] + below);
        assert(below =~= seq![c as usize] + first_children(h, n, h[c].first_child));
        assert(chain[1] == c as usize);
        assert(rest[stack.len() - 1 + 1] == c as usize);
        assert(rest.contains(c as usize));
        lemma_settled(rects, scale, h, g, rest, c);
    } else {
        assert(rest[a] == stack[a]);
        lemma_walk_takes_child(rects, scale, h, g, rest, links, a);
    }
}

proof fn lemma_walk_rejects(
    rects: Seq<LogicalRect>,
    scale: int,
    h: Seq<ContourLinks>,
    f: Seq<bool>,
    stack: Seq<usize>,
    links: (int, int, int),
    a: int,
    b: int,
)
    requires
        walkable(h, rects.len()),
        rects.len() <= i32::MAX,
        all_nested(h, rects.len(), stack),
        f.len() == rects.len(),
        0 <= a < b < stack.len(),
        stack[a] == links.0,
        stack[b] == links.1,
        nested(h, rects.len(), links.0),
        nested(h, rects.len(), links.1),
        nested(h, rects.len(), links.2),
        h[links.0].next == links.1,
        h[links.1].first_child == links.2,
        h[links.2].parent == links.1,
        f[h[links.1].parent as int] || nested_rejected(
            rects[links.1],
            rects[h[links.1].parent as int],
            scale,
        ),
    ensures
        settled(rects, scale, h, f, stack)[links.2],
    decreases stack_visits(h, rects.len(), stack),
{
    let n = rects.len();
    lemma_visit_terminates(h, n, stack);
    let top = stack.last() as int;
    assert(nested(h, n, stack[stack.len() - 1] as int));
    let g = after_visit(rects, scale, h, f, top);
    let rest = stack.drop_last() + first_children(h, n, h[top].next);
    assert(rest[a] == stack[a]);
    if b == stack.len() - 1 {
        lemma_walk_takes_child(rects, scale, h, g, rest, links, a);
    } else {
        assert(rest[b] == stack[b]);
        lemma_walk_rejects(rects, scale, h, g, rest, links, a, b);
    }
}

// ---------------------------------------------------------------------------
// Checking a contour forest
// ---------------------------------------------------------------------------

/// The length of the longest walk from the nested contour `i`.
pub open spec fn height(h: Seq<ContourLinks>, n: nat, i: i32) -> nat
    decreases depth_bound(h, n, i),
    when walkable_from(h, n, i) && i >= 0
{
    let a = if h[i as int].next >= 0 {
        1 + height(h, n, h[i as int].next)
    } else {
        0
    };
    let b = if h[i as int].first_child >= 0 {
        1 + height(h, n, h[i as int].first_child)
    } else {
        0
    };
    if a >= b {
        a as nat
    } else {
        b as nat
    }
}

/// Every height up to that of `i` is the height of some nested contour.
proof fn lemma_heights_dense(h: Seq<ContourLinks>, n: nat, i: i32, k: nat) -> (j: i32)
    requires
        walkable(h, n),
        nested(h, n, i as int),
        k <= height(h, n, i),
    ensures
        nested(h, n, j as int),
        height(h, n, j) == k,
    decreases depth_bound(h, n, i),
{
    assert(ranks(h, n, rank_of(h, n)));
    if k == height(h, n, i) {
        i
    } else if h[i as int].next >= 0 && k <= height(h, n, h[i as int].next) {
        lemma_heights_dense(h, n, h[i as int].next, k)
    } else {
        lemma_heights_dense(h, n, h[i as int].first_child, k)
    }
}

/// A walk never visits a contour twice, so it is shorter than their number.
proof fn lemma_height_bounded(h: Seq<ContourLinks>, n: nat, i: i32)
    requires
        walkable(h, n),
        n <= i32::MAX,
        nested(h, n, i as int),
    ensures
        height(h, n, i) < n,
{
    let top = height(h, n, i);
    let contours = vstd::set_lib::set_int_range(0, n as int);
    let heights = vstd::set_lib::set_int_range(0, top as int + 1);
    vstd::set_lib::lemma_int_range(0, n as int);
    vstd::set_lib::lemma_int_range(0, top as int + 1);
    let f = |j: int| height(h, n, j as i32) as int;
    let image = contours.map(f);
    vstd::set_lib::lemma_map_size_bound(contours, image, f);
    assert(heights.subset_of(image)) by {
        assert forall|k: int| heights.contains(k) implies image.contains(k) by {
            let j = lemma_heights_dense(h, n, i, k as nat);
            assert(contours.contains(j as int));
            assert(f(j as int) == k);
        }
    }
    vstd::set_lib::lemma_len_subset(heights, image);
}

fn are_links_valid(h: &Vec<ContourLinks>, n: usize) -> (b: bool)
    requires
        n <= i32::MAX,
    ensures
        b == links_valid(h@, n as nat),
{
    if n > h.len() {
        return false;
    }
    let mut i: usize = 0;
    while i < h.len()
        invariant
            i <= h.len(),
            n <= h.len(),
            n <= i32::MAX,
            forall|j: int| n <= j < i ==> (#[trigger] h@[j]).parent < 0,
            forall|j: int|
                j < i && #[trigger] nested(h@, n as nat, j) ==> {
                    &&& h@[j].parent < n
                    &&& h@[j].next >= 0 ==> nested(h@, n as nat, h@[j].next as int)
                    &&& h@[j].first_child >= 0 ==> nested(h@, n as nat, h@[j].first_child as int)
                },
        decreases h.len() - i,
    {
        let links: ContourLinks = h[i];
        if links.parent >= 0 {
            if i >= n {
                return false;
            }
            assert(nested(h@, n as nat, i as int));
            if links.parent as usize >= n {
                return false;
            }
            if links.next >= 0 && (links.next as usize >= n || h[links.next as usize].parent < 0) {
                return false;
            }
            if links.first_child >= 0 && (links.first_child as usize >= n
                || h[links.first_child as usize].parent < 0) {
                return false;
            }
        }
        i = i + 1;
    }
    true
}

/// What the heights computed so far guarantee after `passes` passes.
spec fn heights_so_far(h: Seq<ContourLinks>, n: nat, rank: Seq<usize>, passes: int) -> bool {
    &&& rank.len() == n
    &&& walkable(h, n) ==> forall|i: int| #[trigger]
        nested(h, n, i) ==> {
            &&& rank[i] <= height(h, n, i as i32)
            &&& height(h, n, i as i32) < passes ==> rank[i] == height(h, n, i as i32)
        }
}

/// Whether contour `i` ranks above the contours that its links lead to.
spec fn rank_settled(h: Seq<ContourLinks>, rank: Seq<usize>, i: int) -> bool {
    &&& h[i].next >= 0 ==> rank[h[i].next as int] < rank[i]
    &&& h[i].first_child >= 0 ==> rank[h[i].first_child as int] < rank[i]
}

/// Whether the links of the first `n` contours form a forest that
/// [`filter_rects`] can walk.
pub fn is_walkable(h: &Vec<ContourLinks>, n: usize) -> (b: bool)
    requires
        n <= i32::MAX,
    ensures
        b == walkable(h@, n as nat),
{
    if !are_links_valid(h, n) {
        return false;
    }
    let mut rank: Vec<usize> = Vec::new();
    let mut i: usize = 0;
    while i < n
        invariant
            i <= n,
            rank.len() == i,
            forall|j: int| 0 <= j < i ==> rank@[j] == 0,
        decreases n - i,
    {
        rank.push(0);
        i = i + 1;
    }
    let mut passes: usize = 0;
    while passes <= n
        invariant
            passes <= n + 1,
            n <= i32::MAX,
            n <= h.len(),
            links_valid(h@, n as nat),
            heights_so_far(h@, n as nat, rank@, passes as int),
            forall|j: int| 0 <= j < n ==> rank@[j] < n,
            passes == n + 1 ==> !walkable(h@, n as nat),
        decreases n + 1 - passes,
    {
        let mut changed: bool = false;
        let mut i: usize = n;
        let ghost start = rank@;
        while i > 0
            invariant
                i <= n,
                passes <= n,
                n <= i32::MAX,
                n <= h.len(),
                links_valid(h@, n as nat),
                heights_so_far(h@, n as nat, rank@, passes as int),
                heights_so_far(h@, n as nat, start, passes as int),
                walkable(h@, n as nat) ==> forall|j: int|
                    j >= i && #[trigger] nested(h@, n as nat, j) && height(h@, n as nat, j as i32)
                        <= passes ==> rank@[j] == height(h@, n as nat, j as i32),
                walkable(h@, n as nat) && passes == n ==> !changed,
                !changed ==> rank@ == start,
                !changed ==> forall|j: int|
                    j >= i && #[trigger] nested(h@, n as nat, j) ==> rank_settled(h@, rank@, j),
                forall|j: int| 0 <= j < n ==> rank@[j] < n,
            decreases i,
        {
            i = i - 1;
            let links: ContourLinks = h[i];
            if links.parent >= 0 {
                assert(nested(h@, n as nat, i as int));
                let mut need: usize = 0;
                if links.next >= 0 {
                    need = rank[links.next as usize] + 1;
                }
                if links.first_child >= 0 && rank[links.first_child as usize] + 1 > need {
                    need = rank[links.first_child as usize] + 1;
                }
                proof {
                    if walkable(h@, n as nat) {
                        assert(ranks(h@, n as nat, rank_of(h@, n as nat)));
                        lemma_height_bounded(h@, n as nat, i as i32);
                        if links.next >= 0 {
                            assert(nested(h@, n as nat, links.next as int));
                        }
                        if links.first_child >= 0 {
                            assert(nested(h@, n as nat, links.first_child as int));
                        }
                        assert(need <= height(h@, n as nat, i as i32));
                    }
                }
                if need >= n {
                    return false;
                }
                if rank[i] < need {
                    rank.set(i, need);
                    changed = true;
                }
            }
        }
        if !changed {
            proof {
                let witness = Seq::new(n as nat, |j: int| rank@[j] as nat);
                assert forall|j: int| #[trigger] nested(h@, n as nat, j) implies {
                    &&& h@[j].next >= 0 ==> witness[h@[j].next as int] < witness[j]
                    &&& h@[j].first_child >= 0 ==> witness[h@[j].first_child as int] < witness[j]
                } by {
                    assert(rank_settled(h@, rank@, j));
                    if h@[j].next >= 0 {
                        assert(nested(h@, n as nat, h@[j].next as int));
                    }
                    if h@[j].first_child >= 0 {
                        assert(nested(h@, n as nat, h@[j].first_child as int));
                    }
                }
                assert(ranks(h@, n as nat, witness));
            }
            return true;
        }
        passes = passes + 1;
    }
    false
}

} // verus!
