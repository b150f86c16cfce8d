//! What is read from text, and which areas show.

use crate::areas::{
    after, area_of_text, areas_of_lines, areas_on_monitor, before, find, lemma_cut, lemma_decimal,
    lemma_find, lemma_find_is, natural, signed, value, TargetArea,
};
use crate::text::{decimal, lowered, trimmed, trimmed_end, trimmed_start, white_space};
use crate::wayland::Monitor;
use vstd::prelude::*;

verus! {

// ---------------------------------------------------------------------------
// Blanks and letters
// ---------------------------------------------------------------------------

/// The blanks are these characters, by their numbers.
pub proof fn law_white_space(c: char)
    ensures
        white_space(c) <==> ({
            let n = c as u32;
            ||| n == 9 || n == 10 || n == 11 || n == 12 || n == 13 || n == 32
            ||| n == 133 || n == 160 || n == 5760
            ||| 8192 <= n && n <= 8202
            ||| n == 8232 || n == 8233 || n == 8239 || n == 8287 || n == 12288
        }),
{
}

/// Whether `t` is `s` without so many characters before it and behind it, which
/// are all blanks.
pub open spec fn stripped(s: Seq<char>, t: Seq<char>, lead: int, trail: int) -> bool {
    &&& 0 <= lead
    &&& 0 <= trail
    &&& lead + t.len() + trail == s.len()
    &&& t == s.subrange(lead, lead + t.len())
    &&& forall|i: int| 0 <= i < lead ==> white_space(#[trigger] s[i])
    &&& forall|i: int| lead + t.len() <= i < s.len() ==> white_space(#[trigger] s[i])
}

proof fn lemma_trimmed_start(s: Seq<char>) -> (lead: int)
    ensures
        stripped(s, trimmed_start(s), lead, 0),
        trimmed_start(s).len() > 0 ==> !white_space(trimmed_start(s)[0]),
    decreases s.len(),
{
    if s.len() > 0 && white_space(s[0]) {
        let tail = s.drop_first();
        let lead = lemma_trimmed_start(tail);
        let t = trimmed_start(s);
        assert(t =~= s.subrange(lead + 1, lead + 1 + t.len()));
        assert forall|i: int| 0 <= i < lead + 1 implies white_space(#[trigger] s[i]) by {
            if i > 0 {
                assert(white_space(tail[i - 1]));
            }
        }
        lead + 1
    } else {
        assert(s =~= s.subrange(0, s.len() as int));
        0
    }
}

proof fn lemma_trimmed_end(s: Seq<char>) -> (trail: int)
    ensures
        stripped(s, trimmed_end(s), 0, trail),
        trimmed_end(s).len() > 0 ==> !white_space(trimmed_end(s).last()),
    decreases s.len(),
{
    if s.len() > 0 && white_space(s.last()) {
        let init = s.drop_last();
        let trail = lemma_trimmed_end(init);
        let t = trimmed_end(s);
        assert(t =~= s.subrange(0, t.len() as int));
        assert forall|i: int| t.len() <= i < s.len() implies white_space(#[trigger] s[i]) by {
            if i < s.len() - 1 {
                assert(white_space(init[i]));
            }
        }
        trail + 1
    } else {
        assert(s =~= s.subrange(0, s.len() as int));
        0
    }
}

/// Trimming takes blanks from both ends and nothing else, and leaves none there.
pub proof fn law_trimmed(s: Seq<char>)
    ensures
        exists|lead: int, trail: int| stripped(s, trimmed(s), lead, trail),
        trimmed(s).len() > 0 ==> !white_space(trimmed(s)[0]) && !white_space(trimmed(s).last()),
{
    let m = trimmed_start(s);
    let t = trimmed(s);
    let lead = lemma_trimmed_start(s);
    let trail = lemma_trimmed_end(m);
    assert(t =~= s.subrange(lead, lead + t.len()));
    assert forall|i: int| lead + t.len() <= i < s.len() implies white_space(#[trigger] s[i]) by {
        assert(white_space(m[i - lead]));
    }
    assert(stripped(s, t, lead, trail));
}

/// Lower case moves the 26 capitals up by 32 and leaves every other character.
pub proof fn law_lowered(s: Seq<char>, i: int)
    requires
        0 <= i < s.len(),
    ensures
        lowered(s).len() == s.len(),
        65 <= s[i] as u32 <= 90 ==> lowered(s)[i] as u32 == s[i] as u32 + 32,
        !(65 <= s[i] as u32 <= 90) ==> lowered(s)[i] == s[i],
        lowered(lowered(s)) == lowered(s),
{
    assert forall|j: int| 0 <= j < s.len() implies lowered(lowered(s))[j] == #[trigger] lowered(
        s,
    )[j] by {}
}

// ---------------------------------------------------------------------------
// Numbers
// ---------------------------------------------------------------------------

/// Each further digit makes a number ten times as large and adds itself. Digits
/// alone are a number, and nothing else is; a minus sign before it turns it round.
pub proof fn law_numbers(s: Seq<char>, c: char)
    ensures
        natural(s) is Some <==> s.len() > 0 && forall|i: int|
            0 <= i < s.len() ==> '0' <= #[trigger] s[i] && s[i] <= '9',
        s.len() == 1 && natural(s) is Some ==> natural(s) == Some(s[0] as u32 - 48),
        natural(s) is Some && 48 <= c as u32 <= 57 ==> natural(s.push(c)) == Some(
            10 * natural(s)->0 + (c as u32 - 48),
        ),
        natural(s) matches Some(n) ==> signed(s) == Some(n) && signed(seq!['-'] + s) == Some(-n),
        natural(s) is None ==> signed(seq!['-'] + s) is None,
        natural(s) is None && (s.len() == 0 || s[0] != '-') ==> signed(s) is None,
{
    assert(seq!['-'].add(s).drop_first() =~= s);
    if s.len() == 1 {
        assert(value(s.drop_last()) == 0);
    }
    if natural(s) is Some && 48 <= c as u32 <= 57 {
        let t = s.push(c);
        assert(t.drop_last() =~= s);
        assert forall|i: int| 0 <= i < t.len() implies crate::areas::is_digit(#[trigger] t[i]) by {
            if i < s.len() {
                assert(crate::areas::is_digit(s[i]));
            }
        }
    }
    if natural(s) is Some {
        assert(crate::areas::is_digit(s[0]));
    }
}

/// A number in decimal reads as the number, and begins with no zero but of nought.
pub proof fn law_decimal(n: nat)
    ensures
        natural(decimal(n)) == Some(n as int),
        n > 0 ==> decimal(n)[0] != '0',
        n == 0 ==> decimal(n) == seq!['0'],
    decreases n,
{
    lemma_decimal(n);
    if n >= 10 {
        law_decimal(n / 10);
        assert(decimal(n / 10).len() > 0);
    }
}

// ---------------------------------------------------------------------------
// Areas
// ---------------------------------------------------------------------------

/// The text `wxh+x+y`.
pub open spec fn written(
    w: Seq<char>,
    h: Seq<char>,
    x: Seq<char>,
    y: Seq<char>,
) -> Seq<char> {
    w + (seq!['x'] + (h + (seq!['+'] + (x + (seq!['+'] + y)))))
}

/// A text stands for an area exactly if it is written so, with two numbers for the
/// sides, two for the place, all of them `i32` and the sides positive; and then for
/// the area with these numbers.
pub proof fn law_area_text(w: Seq<char>, h: Seq<char>, x: Seq<char>, y: Seq<char>, a: TargetArea)
    requires
        natural(w) == Some(a.w as int),
        natural(h) == Some(a.h as int),
        signed(x) == Some(a.x as int),
        signed(y) == Some(a.y as int),
    ensures
        area_of_text(written(w, h, x, y)) == if a.w >= 1 && a.h >= 1 {
            Some(a)
        } else {
            None
        },
{
    let offsets = x + (seq!['+'] + y);
    let rest = h + (seq!['+'] + offsets);
    law_numbers(w, '0');
    law_numbers(h, '0');
    law_numbers(x, '0');
    assert forall|i: int| 0 <= i < x.len() implies #[trigger] x[i] != '+' by {
        if x[0] == '-' {
            law_numbers(x.drop_first(), '0');
            assert(seq!['-'] + x.drop_first() =~= x);
            if i > 0 {
                assert(x[i] == x.drop_first()[i - 1]);
            }
        }
    }
    lemma_cut(w, 'x', rest);
    lemma_cut(h, '+', offsets);
    lemma_cut(x, '+', y);
}

/// What stands for an area is written so.
pub proof fn law_area_text_form(s: Seq<char>)
    ensures
        area_of_text(s) matches Some(a) ==> a.w >= 1 && a.h >= 1 && exists|
            w: Seq<char>,
            h: Seq<char>,
            x: Seq<char>,
            y: Seq<char>,
        | #[trigger]
            written(w, h, x, y) == s && natural(w) == Some(a.w as int) && natural(h) == Some(
                a.h as int,
            ) && signed(x) == Some(a.x as int) && signed(y) == Some(a.y as int),
{
    if area_of_text(s) is Some {
        let rest = after(s, 'x');
        let offsets = after(rest, '+');
        lemma_find(s, 'x');
        lemma_find(rest, '+');
        lemma_find(offsets, '+');
        let (w, h, x, y) = (
            before(s, 'x'),
            before(rest, '+'),
            before(offsets, '+'),
            after(offsets, '+'),
        );
        assert(offsets =~= x + (seq!['+'] + y));
        assert(rest =~= h + (seq!['+'] + offsets));
        assert(s =~= w + (seq!['x'] + rest));
        assert(written(w, h, x, y) == s);
    }
}

/// A line stands for the area that it says without the blanks around it, or for
/// none.
pub proof fn law_line(line: Seq<char>)
    requires
        !line.contains('\n'),
    ensures
        area_of_text(trimmed(line)) matches Some(a) ==> areas_of_lines(line) == seq![a],
        area_of_text(trimmed(line)) is None ==> areas_of_lines(line) == Seq::<TargetArea>::empty(),
{
    lemma_find_is(line, '\n', line.len() as int);
    assert(before(line, '\n') =~= line);
}

/// The areas of two texts, one below the other, are those of the first and then
/// those of the second.
pub proof fn law_lines(above: Seq<char>, below: Seq<char>)
    ensures
        areas_of_lines(above + (seq!['\n'] + below)) == areas_of_lines(above) + areas_of_lines(
            below,
        ),
    decreases above.len(),
{
    let all = above + (seq!['\n'] + below);
    lemma_find(above, '\n');
    let k = find(above, '\n');
    lemma_find_is(all, '\n', k);
    assert(before(all, '\n') =~= before(above, '\n'));
    if k < above.len() {
        let tail = after(above, '\n');
        law_lines(tail, below);
        assert(after(all, '\n') =~= tail + (seq!['\n'] + below));
        let first = match area_of_text(trimmed(before(above, '\n'))) {
            Some(area) => seq![area],
            None => Seq::empty(),
        };
        assert(areas_of_lines(all) =~= first + (areas_of_lines(tail) + areas_of_lines(below)));
    } else {
        assert(after(all, '\n') =~= below);
    }
}

/// The areas of a monitor are those that share a part with it, in their order, each
/// moved by the monitor's offset.
pub proof fn law_areas_on_monitor(areas: Seq<TargetArea>, m: Monitor)
    ensures
        areas_on_monitor(areas, m) == areas.filter(
            |a: TargetArea|
                a.x < m.x + m.width && a.x + a.w > m.x && a.y < m.y + m.height && a.y + a.h > m.y,
        ).map_values(
            |a: TargetArea|
                TargetArea { x: (a.x - m.x) as i32, y: (a.y - m.y) as i32, w: a.w, h: a.h },
        ),
    decreases areas.len(),
{
    reveal(Seq::filter);
    let shows = |a: TargetArea|
        a.x < m.x + m.width && a.x + a.w > m.x && a.y < m.y + m.height && a.y + a.h > m.y;
    if areas.len() > 0 {
        law_areas_on_monitor(areas.drop_last(), m);
        let init = areas_on_monitor(areas.drop_last(), m);
        assert(areas_on_monitor(areas, m) == if shows(areas.last()) {
            init.push(areas_on_monitor(areas, m).last())
        } else {
            init
        });
    }
}

/// A single area comes out exactly if it has a pixel of the monitor.
pub proof fn law_area_shows(a: TargetArea, m: Monitor)
    requires
        a.w > 0,
        a.h > 0,
        m.width > 0,
        m.height > 0,
    ensures
        areas_on_monitor(seq![a], m).len() == 1 <==> exists|x: int, y: int|
            has_pixel(a.x as int, a.y as int, a.w as int, a.h as int, x, y) && #[trigger] has_pixel(
                m.x as int,
                m.y as int,
                m.width as int,
                m.height as int,
                x,
                y,
            ),
{
    let one = seq![a];
    assert(one.drop_last() =~= Seq::<TargetArea>::empty());
    reveal_with_fuel(areas_on_monitor, 2);
    let x = if a.x < m.x {
        m.x as int
    } else {
        a.x as int
    };
    let y = if a.y < m.y {
        m.y as int
    } else {
        a.y as int
    };
    if crate::areas::on_monitor(a, m) {
        assert(has_pixel(a.x as int, a.y as int, a.w as int, a.h as int, x, y));
        assert(has_pixel(m.x as int, m.y as int, m.width as int, m.height as int, x, y));
    }
}

/// Whether a rectangle with that corner and those sides has a pixel.
pub open spec fn has_pixel(left: int, top: int, width: int, height: int, x: int, y: int) -> bool {
    left <= x < left + width && top <= y < top + height
}

} // verus!
