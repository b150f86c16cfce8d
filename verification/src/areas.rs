//! Target areas: rectangles that hints are placed on.

use crate::text::{chars_of, decimal, string_of, trim, trimmed};
use crate::wayland::Monitor;
use vstd::prelude::*;

verus! {

/// A rectangle worth a hint.
#[derive(Clone, Copy, Debug, PartialEq, Eq, Structural)]
pub struct TargetArea {
    pub x: i32,
    pub y: i32,
    pub w: i32,
    pub h: i32,
}

// ---------------------------------------------------------------------------
// The text form, `wxh+x+y`
// ---------------------------------------------------------------------------

/// The index of the first `c` in `s`, or the length of `s` if there is none.
pub open spec fn find(s: Seq<char>, c: char) -> int
    decreases s.len(),
{
    if s.len() == 0 || s[0] == c {
        0
    } else {
        1 + find(s.drop_first(), c)
    }
}

/// What precedes the first `c`.
pub open spec fn before(s: Seq<char>, c: char) -> Seq<char> {
    s.take(find(s, c))
}

/// What follows the first `c`.
pub open spec fn after(s: Seq<char>, c: char) -> Seq<char> {
    s.skip(find(s, c) + 1)
}

pub open spec fn is_digit(c: char) -> bool {
    '0' <= c <= '9'
}

pub open spec fn all_digits(s: Seq<char>) -> bool {
    forall|i: int| 0 <= i < s.len() ==> is_digit(#[trigger] s[i])
}

/// The value of a sequence of decimal digits.
pub open spec fn value(s: Seq<char>) -> nat
    decreases s.len(),
{
    if s.len() == 0 {
        0
    } else {
        10 * value(s.drop_last()) + (s.last() as u8 - '0' as u8) as nat
    }
}

/// The number that decimal digits stand for.
pub open spec fn natural(s: Seq<char>) -> Option<int> {
    if s.len() > 0 && all_digits(s) {
        Some(value(s) as int)
    } else {
        None
    }
}

/// The number that decimal digits stand for, with a minus sign before them or
/// not.
pub open spec fn signed(s: Seq<char>) -> Option<int> {
    if s.len() > 0 && s[0] == '-' {
        match natural(s.drop_first()) {
            Some(n) => Some(-n),
            None => None,
        }
    } else {
        natural(s)
    }
}

pub open spec fn fits_i32(v: Option<int>) -> bool {
    v is Some && i32::MIN <= v->0 <= i32::MAX
}

/// The area that a text of the form `wxh+x+y` stands for. Width and height are
/// positive, and offsets may be negative.
pub open spec fn area_of_text(s: Seq<char>) -> Option<TargetArea> {
    let rest = after(s, 'x');
    let offsets = after(rest, '+');
    let w = natural(before(s, 'x'));
    let h = natural(before(rest, '+'));
    let x = signed(before(offsets, '+'));
    let y = signed(after(offsets, '+'));
    if find(s, 'x') < s.len() && find(rest, '+') < rest.len() && find(offsets, '+') < offsets.len()
        && fits_i32(w) && fits_i32(h) && fits_i32(x) && fits_i32(y) && w->0 > 0 && h->0 > 0 {
        Some(TargetArea { x: x->0 as i32, y: y->0 as i32, w: w->0 as i32, h: h->0 as i32 })
    } else {
        None
    }
}

/// The areas that the lines of a text stand for. Blanks around a line do not
/// count, and lines that stand for no area are passed over.
pub open spec fn areas_of_lines(text: Seq<char>) -> Seq<TargetArea>
    decreases text.len(),
{
    let first = match area_of_text(trimmed(before(text, '\n'))) {
        Some(area) => seq![area],
        None => Seq::empty(),
    };
    if find(text, '\n') < text.len() {
        proof {
            lemma_find(text, '\n');
        }
        first + areas_of_lines(after(text, '\n'))
    } else {
        first
    }
}

pub proof fn lemma_find(s: Seq<char>, c: char)
    ensures
        0 <= find(s, c) <= s.len(),
        find(s, c) < s.len() ==> s[find(s, c)] == c,
        forall|i: int| 0 <= i < find(s, c) ==> #[trigger] s[i] != c,
    decreases s.len(),
{
    if s.len() > 0 && s[0] != c {
        lemma_find(s.drop_first(), c);
        assert forall|i: int| 0 <= i < find(s, c) implies #[trigger] s[i] != c by {
            if i > 0 {
                assert(s[i] == s.drop_first()[i - 1]);
            }
        }
        if find(s, c) < s.len() {
            assert(s[find(s, c)] == s.drop_first()[find(s, c) - 1]);
        }
    }
}

/// The first `c` is where `c` stands and no `c` stands before.
pub proof fn lemma_find_is(s: Seq<char>, c: char, k: int)
    requires
        0 <= k <= s.len(),
        k < s.len() ==> s[k] == c,
        forall|i: int| 0 <= i < k ==> #[trigger] s[i] != c,
    ensures
        find(s, c) == k,
{
    lemma_find(s, c);
    if find(s, c) < k {
        assert(s[find(s, c)] != c);
    }
    if k < find(s, c) {
        assert(s[k] != c);
    }
}

/// The index of the first `c` in `v[from ..]`, or the length of `v`.
fn find_from(v: &Vec<char>, from: usize, c: char) -> (i: usize)
    requires
        from <= v.len(),
    ensures
        from <= i <= v.len(),
        i - from == find(v@.skip(from as int), c),
{
    let mut i: usize = from;
    while i < v.len() && v[i] != c
        invariant
            from <= i <= v.len(),
            forall|j: int| from <= j < i ==> #[trigger] v@[j] != c,
        decreases v.len() - i,
    {
        i = i + 1;
    }
    proof {
        lemma_find_is(v@.skip(from as int), c, i - from);
    }
    i
}

proof fn lemma_value_grows(s: Seq<char>, k: int)
    requires
        all_digits(s),
        0 <= k <= s.len(),
    ensures
        value(s.take(k)) <= value(s),
    decreases s.len() - k,
{
    if k < s.len() {
        lemma_value_grows(s, k + 1);
        assert(s.take(k + 1).drop_last() =~= s.take(k));
    } else {
        assert(s.take(k) =~= s);
    }
}

/// The number that the digits `v[from .. to]` stand for, if there are any, all
/// are digits, and it is at most `0x8000_0000`.
fn natural_between(v: &Vec<char>, from: usize, to: usize) -> (r: Option<i64>)
    requires
        from <= to <= v.len(),
    ensures
        ({
            let n = natural(v@.subrange(from as int, to as int));
            r == (if n is Some && n->0 <= 0x8000_0000 {
                Some(n->0 as i64)
            } else {
                None
            })
        }),
{
    let ghost s = v@.subrange(from as int, to as int);
    let mut i: usize = from;
    let mut n: i64 = 0;
    assert(s.take(0) =~= Seq::<char>::empty());
    while i < to
        invariant
            from <= i <= to <= v.len(),
            s == v@.subrange(from as int, to as int),
            n == value(s.take(i - from)),
            0 <= n <= 0x8000_0000,
            forall|j: int| 0 <= j < i - from ==> is_digit(#[trigger] s[j]),
        decreases to - i,
    {
        let c: char = v[i];
        assert(s[i - from] == c);
        if c < '0' || '9' < c {
            return None;
        }
        assert(s.take(i - from + 1).drop_last() =~= s.take(i - from));
        let d: i64 = (c as u8 - '0' as u8) as i64;
        n = 10 * n + d;
        i = i + 1;
        if n > 0x8000_0000 {
            proof {
                if all_digits(s) {
                    lemma_value_grows(s, i - from);
                }
            }
            return None;
        }
    }
    assert(s.take(i - from) =~= s);
    if from == to {
        None
    } else {
        Some(n)
    }
}

/// The number that `v[from .. to]` stands for, if it is an `i32`.
fn signed_between(v: &Vec<char>, from: usize, to: usize) -> (r: Option<i32>)
    requires
        from <= to <= v.len(),
    ensures
        ({
            let n = signed(v@.subrange(from as int, to as int));
            r == (if fits_i32(n) {
                Some(n->0 as i32)
            } else {
                None
            })
        }),
{
    let ghost s = v@.subrange(from as int, to as int);
    if from < to && v[from] == '-' {
        assert(s.drop_first() =~= v@.subrange(from + 1, to as int));
        match natural_between(v, from + 1, to) {
            Some(n) => Some((-n) as i32),
            None => None,
        }
    } else {
        match natural_between(v, from, to) {
            Some(n) => if n <= i32::MAX as i64 {
                Some(n as i32)
            } else {
                None
            },
            None => None,
        }
    }
}

/// The area that a text of the form `wxh+x+y` stands for.
pub fn parse_target_area(text: &str) -> (r: Option<TargetArea>)
    ensures
        r == area_of_text(text@),
{
    let v: Vec<char> = chars_of(text);
    let ghost s = v@;
    let n: usize = v.len();
    assert(s.skip(0) =~= s);
    let at_x: usize = find_from(&v, 0, 'x');
    if at_x == n {
        return None;
    }
    let ghost rest = after(s, 'x');
    let at_h: usize = find_from(&v, at_x + 1, '+');
    if at_h == n {
        return None;
    }
    let ghost offsets = after(rest, '+');
    assert(offsets =~= s.skip(at_h + 1));
    let at_y: usize = find_from(&v, at_h + 1, '+');
    if at_y == n {
        return None;
    }
    assert(before(s, 'x') =~= s.subrange(0, at_x as int));
    assert(before(rest, '+') =~= s.subrange(at_x + 1, at_h as int));
    assert(before(offsets, '+') =~= s.subrange(at_h + 1, at_y as int));
    assert(after(offsets, '+') =~= s.subrange(at_y + 1, n as int));
    let w: Option<i64> = natural_between(&v, 0, at_x);
    let h: Option<i64> = natural_between(&v, at_x + 1, at_h);
    let x: Option<i32> = signed_between(&v, at_h + 1, at_y);
    let y: Option<i32> = signed_between(&v, at_y + 1, n);
    match (w, h, x, y) {
        (Some(w), Some(h), Some(x), Some(y)) => {
            if 0 < w && w <= i32::MAX as i64 && 0 < h && h <= i32::MAX as i64 {
                Some(TargetArea { x, y, w: w as i32, h: h as i32 })
            } else {
                None
            }
        },
        _ => None,
    }
}

/// The areas that the lines of a text stand for, one `wxh+x+y` a line.
pub fn parse_target_areas(text: &str) -> (areas: Vec<TargetArea>)
    ensures
        areas@ == areas_of_lines(text@),
{
    let v: Vec<char> = chars_of(text);
    let ghost s = v@;
    let mut areas: Vec<TargetArea> = Vec::new();
    let mut from: usize = 0;
    assert(s.skip(0) =~= s);
    loop
        invariant_except_break
            areas@ + areas_of_lines(s.skip(from as int)) == areas_of_lines(s),
        invariant
            from <= v.len(),
            v@ == s,
            s == text@,
        ensures
            areas@ == areas_of_lines(s),
        decreases v.len() - from,
    {
        let to: usize = find_from(&v, from, '\n');
        let ghost rest = s.skip(from as int);
        assert(before(rest, '\n') =~= s.subrange(from as int, to as int));
        let line: String = string_of(&v, from, to);
        let blank_free: String = trim(line.as_str());
        let ghost done = areas@;
        match parse_target_area(blank_free.as_str()) {
            Some(area) => {
                areas.push(area);
                assert(areas@ =~= done + seq![area]);
            },
            None => {
                assert(areas@ =~= done + Seq::<TargetArea>::empty());
            },
        }
        if to == v.len() {
            break;
        }
        assert(after(rest, '\n') =~= s.skip(to + 1));
        from = to + 1;
        assert(areas@ + areas_of_lines(s.skip(from as int)) =~= done + areas_of_lines(rest));
    }
    areas
}

/// `v` in decimal, with a minus sign where it is negative.
pub open spec fn signed_text(v: int) -> Seq<char> {
    if v < 0 {
        seq!['-'] + decimal((-v) as nat)
    } else {
        decimal(v as nat)
    }
}

/// An area in the form `wxh+x+y`.
pub open spec fn area_text(a: TargetArea) -> Seq<char> {
    decimal(a.w as nat) + (seq!['x'] + (decimal(a.h as nat) + (seq!['+'] + (signed_text(
        a.x as int,
    ) + (seq!['+'] + signed_text(a.y as int))))))
}

/// Reading a number in decimal gives the number back.
pub proof fn lemma_decimal(n: nat)
    ensures
        natural(decimal(n)) == Some(n as int),
    decreases n,
{
    if n >= 10 {
        lemma_decimal(n / 10);
        let s = decimal(n);
        assert(s.drop_last() =~= decimal(n / 10));
        assert forall|i: int| 0 <= i < s.len() implies is_digit(#[trigger] s[i]) by {
            if i < s.len() - 1 {
                assert(is_digit(decimal(n / 10)[i]));
            }
        }
    } else {
        let s = decimal(n);
        assert(s.drop_last() =~= Seq::<char>::empty());
        assert(value(s.drop_last()) == 0);
    }
}

proof fn lemma_signed_text(v: int)
    ensures
        signed(signed_text(v)) == Some(v),
        forall|i: int|
            0 <= i < signed_text(v).len() ==> is_digit(#[trigger] signed_text(v)[i])
                || signed_text(v)[i] == '-',
{
    if v < 0 {
        lemma_decimal((-v) as nat);
        assert(signed_text(v).drop_first() =~= decimal((-v) as nat));
        assert forall|i: int| 0 <= i < signed_text(v).len() implies is_digit(
            #[trigger] signed_text(v)[i],
        ) || signed_text(v)[i] == '-' by {
            if i > 0 {
                assert(signed_text(v)[i] == decimal((-v) as nat)[i - 1]);
            }
        }
    } else {
        lemma_decimal(v as nat);
        assert(is_digit(signed_text(v)[0]));
    }
}

/// A text is cut at the first `c`.
pub proof fn lemma_cut(a: Seq<char>, c: char, b: Seq<char>)
    requires
        forall|i: int| 0 <= i < a.len() ==> #[trigger] a[i] != c,
    ensures
        find(a + (seq![c] + b), c) < (a + (seq![c] + b)).len(),
        before(a + (seq![c] + b), c) == a,
        after(a + (seq![c] + b), c) == b,
{
    let s = a + (seq![c] + b);
    lemma_find_is(s, c, a.len() as int);
    assert(before(s, c) =~= a);
    assert(after(s, c) =~= b);
}

/// Reading the text form of an area gives the area back.
pub proof fn law_area_text_round_trip(a: TargetArea)
    requires
        a.w > 0,
        a.h > 0,
    ensures
        area_of_text(area_text(a)) == Some(a),
{
    lemma_decimal(a.w as nat);
    lemma_decimal(a.h as nat);
    lemma_signed_text(a.x as int);
    lemma_signed_text(a.y as int);
    let y = signed_text(a.y as int);
    let offsets = signed_text(a.x as int) + (seq!['+'] + y);
    let rest = decimal(a.h as nat) + (seq!['+'] + offsets);
    lemma_cut(decimal(a.w as nat), 'x', rest);
    lemma_cut(decimal(a.h as nat), '+', offsets);
    lemma_cut(signed_text(a.x as int), '+', y);
}

// ---------------------------------------------------------------------------
// Areas on a monitor
// ---------------------------------------------------------------------------

/// Whether some of the area shows on the monitor.
pub open spec fn on_monitor(a: TargetArea, m: Monitor) -> bool {
    &&& a.x < m.x + m.width && m.x < a.x + a.w
    &&& a.y < m.y + m.height && m.y < a.y + a.h
}

/// The area as seen from the monitor's corner.
pub open spec fn relative_to(a: TargetArea, m: Monitor) -> TargetArea {
    TargetArea { x: (a.x - m.x) as i32, y: (a.y - m.y) as i32, w: a.w, h: a.h }
}

/// The areas that show on the monitor, as seen from its corner, in order.
pub open spec fn areas_on_monitor(areas: Seq<TargetArea>, m: Monitor) -> Seq<TargetArea>
    decreases areas.len(),
{
    if areas.len() == 0 {
        Seq::empty()
    } else {
        let first = areas_on_monitor(areas.drop_last(), m);
        if on_monitor(areas.last(), m) {
            first.push(relative_to(areas.last(), m))
        } else {
            first
        }
    }
}

/// The areas that show on the monitor, as seen from its corner.
pub fn normalize_areas_for_monitor(monitor: &Monitor, areas: &Vec<TargetArea>) -> (r: Vec<
    TargetArea,
>)
    ensures
        r@ == areas_on_monitor(areas@, *monitor),
{
    let mut r: Vec<TargetArea> = Vec::new();
    let left: i64 = monitor.x as i64;
    let top: i64 = monitor.y as i64;
    let mut i: usize = 0;
    while i < areas.len()
        invariant
            i <= areas.len(),
            left == monitor.x,
            top == monitor.y,
            r@ == areas_on_monitor(areas@.take(i as int), *monitor),
        decreases areas.len() - i,
    {
        assert(areas@.take(i + 1).drop_last() =~= areas@.take(i as int));
        let a: TargetArea = areas[i];
        let x: i64 = a.x as i64;
        let y: i64 = a.y as i64;
        if x < left + monitor.width as i64 && left < x + a.w as i64 && y < top
            + monitor.height as i64 && top < y + a.h as i64 {
            r.push(TargetArea { x: (x - left) as i32, y: (y - top) as i32, w: a.w, h: a.h });
        }
        i = i + 1;
    }
    assert(areas@.take(i as int) =~= areas@);
    r
}

/// Each area that comes out shows on the monitor, and moved back by the
/// monitor's offset it is one that went in.
pub proof fn law_normalized_areas(areas: Seq<TargetArea>, m: Monitor, i: int)
    requires
        0 <= i < areas_on_monitor(areas, m).len(),
    ensures
        ({
            let a = areas_on_monitor(areas, m)[i];
            &&& exists|j: int|
                0 <= j < areas.len() && on_monitor(#[trigger] areas[j], m) && a.x + m.x
                    == areas[j].x && a.y + m.y == areas[j].y && a.w == areas[j].w && a.h
                    == areas[j].h
            &&& a.x < m.width && 0 < a.x + a.w
            &&& a.y < m.height && 0 < a.y + a.h
        }),
    decreases areas.len(),
{
    if areas.len() > 0 {
        let first = areas_on_monitor(areas.drop_last(), m);
        if i < first.len() {
            law_normalized_areas(areas.drop_last(), m, i);
            let a = first[i];
            let j = choose|j: int|
                0 <= j < areas.len() - 1 && on_monitor(#[trigger] areas.drop_last()[j], m) && a.x
                    + m.x == areas.drop_last()[j].x && a.y + m.y == areas.drop_last()[j].y && a.w
                    == areas.drop_last()[j].w && a.h == areas.drop_last()[j].h;
            assert(on_monitor(areas[j], m));
        } else {
            assert(on_monitor(areas[areas.len() - 1], m));
        }
    }
}

/// No area that shows on the monitor is lost.
pub proof fn law_shown_areas_kept(areas: Seq<TargetArea>, m: Monitor, j: int)
    requires
        0 <= j < areas.len(),
        on_monitor(areas[j], m),
    ensures
        areas_on_monitor(areas, m).contains(relative_to(areas[j], m)),
    decreases areas.len(),
{
    let first = areas_on_monitor(areas.drop_last(), m);
    let all = areas_on_monitor(areas, m);
    if j < areas.len() - 1 {
        law_shown_areas_kept(areas.drop_last(), m, j);
        let i = choose|i: int| 0 <= i < first.len() && first[i] == relative_to(areas[j], m);
        assert(all[i] == relative_to(areas[j], m));
    } else {
        assert(all[first.len() as int] == relative_to(areas[j], m));
    }
}

} // verus!
