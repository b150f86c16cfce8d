use warpd_rs::grid::{draw_grid, GridSelection};
use warpd_rs::number::Double;
use warpd_rs::wayland::{Monitor, Transform};

/// A finite double as the library holds it.
fn number(v: f64) -> Double {
    let bits = v.to_bits();
    let (exponent, fraction) = ((bits >> 52) as u32 & 0x7ff, (bits & ((1 << 52) - 1)) as i128);
    let (m, shift) =
        if exponent == 0 { (fraction, 0) } else { (fraction + (1 << 52), exponent - 1) };
    Double { bits: if v < 0.0 { -m } else { m }, shift }
}

/// The double that the library holds.
fn value(d: Double) -> f64 {
    let e = d.shift as i32 - 1074;
    let power = if e < -1022 { 1 << d.shift } else { ((e + 1023) as u64) << 52 };
    d.bits as f64 * f64::from_bits(power)
}

fn hd_screen() -> Monitor {
    Monitor {
        name: "HDMI-A-1".to_string(),
        x: 100,
        y: 50,
        width: 1921,
        height: 1080,
        scale: 1,
        transform: Transform::Normal,
        output: 2,
    }
}

fn sides(s: &GridSelection) -> (f64, f64, f64, f64) {
    (value(s.x), value(s.y), value(s.w), value(s.h))
}

fn centre(s: &GridSelection) -> (f64, f64) {
    let (x, y) = s.centre();
    (value(x), value(y))
}

#[test]
fn selection_begins_with_the_whole_monitor() {
    let sel = GridSelection::new(&hd_screen());
    assert_eq!(sides(&sel), (0.0, 0.0, 1921.0, 1080.0));
    assert_eq!(centre(&sel), (960.5, 540.0));
}

#[test]
fn quadrants_are_halves_each_way() {
    let whole = GridSelection::new(&hd_screen());
    let (w, h) = (960.5, 540.0);
    for (letter, x, y) in [('u', 0.0, 0.0), ('i', w, 0.0), ('j', 0.0, h), ('k', w, h)] {
        let mut sel = whole;
        sel.subdivide(letter);
        assert_eq!(sides(&sel), (x, y, w, h));
        assert_eq!(centre(&whole), (w, h));
    }
}

#[test]
fn other_letters_leave_the_selection() {
    let whole = GridSelection::new(&hd_screen());
    let mut sel = whole;
    for letter in ['x', 'U', ' ', 'ü'] {
        sel.subdivide(letter);
        assert_eq!(sides(&sel), sides(&whole));
    }
}

#[test]
fn quadrants_tile_the_selection() {
    let mut whole = GridSelection::new(&hd_screen());
    whole.subdivide('k');
    let (x, y, w, h) = sides(&whole);
    let mut area = 0.0;
    for letter in ['u', 'i', 'j', 'k'] {
        let mut sel = whole;
        sel.subdivide(letter);
        let (sx, sy, sw, sh) = sides(&sel);
        assert!(x <= sx && sx + sw <= x + w);
        assert!(y <= sy && sy + sh <= y + h);
        area += sw * sh;
    }
    assert_eq!(area, w * h);
}

#[test]
fn choices_give_cells() {
    let mut sel = GridSelection::new(&hd_screen());
    for n in 1..42 {
        sel.subdivide(if n % 3 == 0 { 'i' } else { 'k' });
        let (x, y, w, h) = sides(&sel);
        assert_eq!((w, h), (1921.0 / 2f64.powi(n), 1080.0 / 2f64.powi(n)));
        assert_eq!((x / w, y / h), ((x / w).floor(), (y / h).floor()));
        assert!(x + w <= 1921.0 && y + h <= 1080.0);
    }
}

#[test]
fn halving_agrees_with_double_precision() {
    let letters = ['u', 'i', 'j', 'k'];
    let mut seed = 11u64;
    for round in 0..20 {
        let mut sel = GridSelection::new(&hd_screen());
        let (mut x, mut y, mut w, mut h) = (0.0, 0.0, 1921.0, 1080.0);
        for step in 0..1100 {
            seed = seed.wrapping_mul(6364136223846793005).wrapping_add(1442695040888963407);
            let letter = if round == 0 { 'k' } else { letters[(seed >> 60) as usize % 4] };
            sel.subdivide(letter);
            let (hw, hh) = (w / 2.0, h / 2.0);
            if letter == 'i' || letter == 'k' {
                x += hw;
            }
            if letter == 'j' || letter == 'k' {
                y += hh;
            }
            w = hw;
            h = hh;
            assert_eq!(sides(&sel), (x, y, w, h), "{step}");
            assert_eq!(centre(&sel), (x + w / 2.0, y + h / 2.0));
        }
    }
}

#[test]
fn any_selection_can_be_halved() {
    let mut sel = GridSelection {
        x: number(-7.5),
        y: number(0.1),
        w: number(5.0),
        h: number(-0.3),
    };
    sel.subdivide('k');
    assert_eq!(sides(&sel), (-5.0, 0.1 - 0.15, 2.5, -0.15));
}

#[test]
fn drawing_has_a_crosshair_and_four_letters() {
    for n in [0, 1, 2, 45, 60] {
        let mut sel = GridSelection::new(&hd_screen());
        sel.subdivide('j');
        for _ in 0..n {
            sel.subdivide('k');
        }
        let (x, y, w, h) = sides(&sel);
        let d = draw_grid(&sel);
        assert_eq!((value(d.left), value(d.top)), (x, y));
        assert_eq!((value(d.right), value(d.bottom)), (x + w, y + h));
        assert_eq!((value(d.mid_x), value(d.mid_y)), (x + w / 2.0, y + h / 2.0));
        let labels: Vec<(char, f64, f64)> =
            d.labels.iter().map(|l| (l.letter, value(l.x), value(l.y))).collect();
        assert_eq!(
            labels,
            vec![
                ('u', x + w * 0.25, y + h * 0.25),
                ('i', x + w * 0.75, y + h * 0.25),
                ('j', x + w * 0.25, y + h * 0.75),
                ('k', x + w * 0.75, y + h * 0.75),
            ]
        );
    }
}
