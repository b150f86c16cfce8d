use warpd_rs::areas::{
    normalize_areas_for_monitor, parse_target_area, parse_target_areas, TargetArea,
};
use warpd_rs::wayland::{Monitor, Transform};

fn area(x: i32, y: i32, w: i32, h: i32) -> TargetArea {
    TargetArea { x, y, w, h }
}

fn wide_screen() -> Monitor {
    Monitor {
        name: "DP-1".to_string(),
        x: 1920,
        y: -200,
        width: 1000,
        height: 500,
        scale: 1,
        transform: Transform::Normal,
        output: 3,
    }
}

#[test]
fn areas_read_back_what_was_written() {
    for a in [
        area(0, 0, 1, 1),
        area(-17, 300, 42, 8),
        area(i32::MIN, i32::MAX, i32::MAX, 5),
        area(2000, -1, 100, 2147483647),
    ] {
        let text = format!("{}x{}+{}+{}", a.w, a.h, a.x, a.y);
        assert_eq!(parse_target_area(&text), Some(a));
    }
}

#[test]
fn malformed_areas_are_refused() {
    for text in [
        "",
        "10x20",
        "10x20+5",
        "x20+5+6",
        "10x+5+6",
        "10x20++6",
        "10x20+5+",
        "0x20+5+6",
        "10x0+5+6",
        "-10x20+5+6",
        "10x20+5+6+7",
        "10x20+5 +6",
        "2147483648x20+5+6",
        "10x20+5+2147483648",
        "10x20+-2147483649+0",
        "10X20+5+6",
        "axb+c+d",
        "99999999999999999999999999x1+0+0",
    ] {
        assert_eq!(parse_target_area(text), None, "{text}");
    }
}

#[test]
fn lines_that_are_no_area_are_skipped() {
    let text = "10x20+5+6\n\n  30x40+-7+8\t\r\nnonsense\n1x1+0+0";
    assert_eq!(
        parse_target_areas(text),
        vec![area(5, 6, 10, 20), area(-7, 8, 30, 40), area(0, 0, 1, 1)]
    );
    assert_eq!(parse_target_areas(""), vec![]);
    assert_eq!(parse_target_areas("\n\n"), vec![]);
    assert_eq!(parse_target_areas("10x20+5+6\n"), vec![area(5, 6, 10, 20)]);
}

#[test]
fn only_areas_that_show_on_the_monitor_stay() {
    let areas = vec![
        area(0, 0, 10, 10),
        area(1920, -200, 10, 10),
        area(1910, -210, 11, 11),
        area(1910, -210, 10, 11),
        area(2919, 299, 50, 50),
        area(2920, 299, 50, 50),
        area(2400, 300, 5, 5),
    ];
    assert_eq!(
        normalize_areas_for_monitor(&wide_screen(), &areas),
        vec![area(0, 0, 10, 10), area(-10, -10, 11, 11), area(999, 499, 50, 50)]
    );
}

#[test]
fn areas_at_the_limits_do_not_overflow() {
    let areas = vec![
        area(i32::MAX, i32::MAX, i32::MAX, i32::MAX),
        area(i32::MIN, i32::MIN, i32::MAX, i32::MAX),
    ];
    assert_eq!(normalize_areas_for_monitor(&wide_screen(), &areas), vec![]);
}
