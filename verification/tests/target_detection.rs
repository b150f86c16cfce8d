use warpd_rs::areas::TargetArea;
use warpd_rs::contours::{
    filter_rects, filter_rects_size_only, is_walkable, ContourLinks, LogicalRect,
};
use warpd_rs::target_detection::{
    apply_transform, count_kept, debug_dump_dir, detect_debug_enabled, detect_target_areas,
    grayscale_from_frame, kernel_size, CapturedFrame, DetectError, MatOp, PixelRect, ShmFormat,
};
use warpd_rs::wayland::{Monitor, Transform};

fn links(next: i32, first_child: i32, parent: i32) -> ContourLinks {
    ContourLinks { next, previous: -1, first_child, parent }
}

fn rect(x: i32, y: i32, width: i32, height: i32) -> PixelRect {
    PixelRect { x, y, width, height }
}

fn logical(x: i128, y: i128, w: i128, h: i128) -> LogicalRect {
    LogicalRect { x, y, w, h }
}

fn captured_screen(x: i32, y: i32, width: i32, height: i32) -> Monitor {
    Monitor {
        name: "DP-2".to_string(),
        x,
        y,
        width,
        height,
        scale: 2,
        transform: Transform::Normal,
        output: 5,
    }
}

fn frame(format: ShmFormat, y_invert: bool) -> CapturedFrame {
    CapturedFrame {
        width: 2,
        height: 2,
        stride: 10,
        format,
        y_invert,
        data: vec![
            10, 20, 30, 0, 255, 255, 255, 0, 9, 9, 0, 0, 0, 0, 100, 150, 200, 255,
        ],
    }
}

#[test]
fn brightness_depends_on_the_byte_order() {
    let weigh = |b: u32, g: u32, r: u32| ((29 * b + 150 * g + 77 * r) / 256) as u8;
    assert_eq!(
        grayscale_from_frame(&frame(ShmFormat::Xrgb8888, false)),
        Ok(vec![weigh(20, 20, 30), 255, 0, weigh(150, 150, 200)])
    );
    assert_eq!(
        grayscale_from_frame(&frame(ShmFormat::Argb8888, false)),
        Ok(vec![23, 255, 0, 165])
    );
    for format in
        [ShmFormat::Abgr8888, ShmFormat::Xbgr8888, ShmFormat::Rgba8888, ShmFormat::Rgbx8888]
    {
        assert_eq!(
            grayscale_from_frame(&frame(format, false)),
            Ok(vec![weigh(30, 20, 10), 255, 0, weigh(200, 150, 100)])
        );
    }
    for format in [ShmFormat::Bgra8888, ShmFormat::Bgrx8888] {
        assert_eq!(
            grayscale_from_frame(&frame(format, false)),
            Ok(vec![weigh(10, 20, 30), 255, 0, weigh(100, 150, 200)])
        );
    }
}

#[test]
fn inverted_frames_are_turned_over() {
    assert_eq!(
        grayscale_from_frame(&frame(ShmFormat::Argb8888, true)),
        Ok(vec![0, 165, 23, 255])
    );
}

#[test]
fn frames_that_cannot_be_read_are_refused() {
    assert_eq!(
        grayscale_from_frame(&frame(ShmFormat::Other, false)),
        Err(DetectError::UnsupportedFormat)
    );
    let mut bare = frame(ShmFormat::Other, true);
    bare.data.truncate(4);
    assert_eq!(grayscale_from_frame(&bare), Err(DetectError::UnsupportedFormat));
    for (width, height, stride) in [(0, 2, 10), (2, 0, 10), (2, 2, 7), (-2, 2, 10), (2, 2, -8)] {
        let f = CapturedFrame {
            width,
            height,
            stride,
            format: ShmFormat::Argb8888,
            y_invert: false,
            data: vec![],
        };
        assert_eq!(grayscale_from_frame(&f), Err(DetectError::InvalidDimensions));
    }
}

#[test]
fn transforms_turn_pictures_upright() {
    assert_eq!(apply_transform(Transform::Normal), vec![]);
    assert_eq!(apply_transform(Transform::_90), vec![MatOp::RotateClockwise]);
    assert_eq!(apply_transform(Transform::_180), vec![MatOp::Rotate180]);
    assert_eq!(apply_transform(Transform::_270), vec![MatOp::RotateCounterclockwise]);
    assert_eq!(apply_transform(Transform::Flipped), vec![MatOp::FlipHorizontally]);
    assert_eq!(apply_transform(Transform::Flipped90), vec![MatOp::RotateClockwise, MatOp::FlipHorizontally]);
    assert_eq!(apply_transform(Transform::Flipped180), vec![MatOp::Rotate180, MatOp::FlipHorizontally]);
    assert_eq!(
        apply_transform(Transform::Flipped270),
        vec![MatOp::RotateCounterclockwise, MatOp::FlipHorizontally]
    );
}

#[test]
fn kernel_grows_with_the_scale() {
    assert_eq!(kernel_size(1080, 1080), (4, 3));
    assert_eq!(kernel_size(2160, 1080), (7, 5));
    assert_eq!(kernel_size(1620, 1080), (5, 4));
    assert_eq!(kernel_size(1, 1080), (1, 1));
    assert_eq!(kernel_size(4, 0), (14, 10));
    assert_eq!(kernel_size(i32::MAX, 1), (i32::MAX, i32::MAX));
}

#[test]
fn size_bounds_are_excluded() {
    let rects = vec![
        logical(0, 0, 8, 4),
        logical(0, 0, 7, 4),
        logical(0, 0, 8, 3),
        logical(0, 0, 499, 49),
        logical(0, 0, 500, 49),
        logical(0, 0, 499, 50),
    ];
    let expected = vec![false, true, true, false, true, true];
    assert_eq!(filter_rects_size_only(&rects, 1), expected);
    let doubled: Vec<LogicalRect> =
        rects.iter().map(|r| logical(r.x, r.y, 2 * r.w, 2 * r.h)).collect();
    assert_eq!(filter_rects_size_only(&doubled, 2), expected);
}

#[test]
fn nested_contours_that_add_nothing_are_dropped() {
    let parent = logical(0, 0, 200, 45);
    let rects = vec![
        parent,
        logical(96, 18, 10, 9),
        logical(5, 5, 20, 6),
        logical(5, 5, 20, 10),
    ];
    let h = vec![links(-1, 1, -1), links(2, -1, 0), links(3, -1, 0), links(-1, -1, 0)];
    assert!(is_walkable(&h, 4));
    assert_eq!(filter_rects(&rects, 1, &h), vec![false, true, true, false]);
}

#[test]
fn contours_inside_icons_are_dropped() {
    let rects = vec![logical(0, 0, 36, 36), logical(1, 1, 10, 10)];
    let h = vec![links(-1, 1, -1), links(-1, -1, 0)];
    assert_eq!(filter_rects(&rects, 1, &h), vec![false, true]);
    let wide = vec![logical(0, 0, 45, 36), logical(1, 1, 10, 10)];
    assert_eq!(filter_rects(&wide, 1, &h), vec![false, false]);
}

#[test]
fn children_of_dropped_contours_are_dropped() {
    let rects = vec![logical(0, 0, 900, 600), logical(5, 5, 100, 20), logical(50, 100, 90, 20)];
    let h = vec![links(-1, 1, -1), links(2, -1, 0), links(-1, -1, 0)];
    assert_eq!(filter_rects(&rects, 1, &h), vec![true, true, true]);
}

#[test]
fn contours_in_no_other_are_judged_by_size() {
    let rects = vec![logical(0, 0, 100, 20), logical(0, 0, 100, 60)];
    let h = vec![links(1, -1, -1), links(-1, -1, -1)];
    assert_eq!(filter_rects(&rects, 1, &h), filter_rects_size_only(&rects, 1));
}

#[test]
fn only_forests_can_be_walked() {
    assert!(is_walkable(&vec![], 0));
    assert!(is_walkable(&vec![links(-1, 1, -1), links(2, -1, 0), links(-1, -1, 0)], 3));
    assert!(!is_walkable(&vec![links(-1, 1, -1)], 2));
    assert!(!is_walkable(&vec![links(-1, 1, -1), links(1, -1, 0)], 2));
    assert!(!is_walkable(&vec![links(-1, 1, -1), links(2, -1, 0), links(1, -1, 0)], 3));
    assert!(!is_walkable(&vec![links(-1, 1, -1), links(9, -1, 0)], 2));
    assert!(!is_walkable(&vec![links(-1, 1, -1), links(-1, -1, 7)], 2));
    assert!(!is_walkable(&vec![links(-1, 1, -1), links(0, -1, 0)], 2));
}

#[test]
fn targets_come_out_in_logical_pixels() {
    let rects = vec![rect(200, 100, 81, 40), rect(0, 0, 2000, 1000), rect(31, 11, 20, 20)];
    let h = vec![links(-1, -1, -1), links(-1, -1, -1), links(-1, -1, -1)];
    let monitor = captured_screen(1920, -50, 1000, 500);
    let d = detect_target_areas(&rects, &h, 1000, &monitor);
    match d {
        Ok(d) => {
            assert_eq!(
                d.areas,
                vec![
                    TargetArea { x: 2020, y: 0, w: 41, h: 20 },
                    TargetArea { x: 1936, y: -45, w: 10, h: 10 },
                ]
            );
            assert!(!d.verdicts.used_fallback);
            assert_eq!(d.verdicts.primary, vec![false, true, false]);
            assert_eq!(d.verdicts.size_only, vec![false, true, false]);
            assert_eq!(d.verdicts.filtered(), &vec![false, true, false]);
        }
        Err(e) => panic!("{e:?}"),
    }
}

#[test]
fn halves_round_away_from_zero() {
    let rects = vec![rect(-5, 5, 21, 21)];
    let d = detect_target_areas(
        &rects,
        &vec![links(-1, -1, -1)],
        2000,
        &captured_screen(0, 0, 1000, 1000),
    );
    match d {
        Ok(d) => assert_eq!(d.areas, vec![TargetArea { x: -3, y: 3, w: 11, h: 11 }]),
        Err(e) => panic!("{e:?}"),
    }
}

#[test]
fn thresholds_are_met_in_double_precision() {
    // 55 rows at 1188 rows to 1080 come out just below 50 logical pixels.
    let alone = vec![links(-1, -1, -1)];
    let monitor = captured_screen(0, 0, 1920, 1080);
    match detect_target_areas(&vec![rect(0, 0, 100, 55)], &alone, 1188, &monitor) {
        Ok(d) => {
            assert_eq!(d.verdicts.size_only, vec![false]);
            assert_eq!(d.areas, vec![TargetArea { x: 0, y: 0, w: 91, h: 50 }]);
        }
        Err(e) => panic!("{e:?}"),
    }
}

/// What double-precision arithmetic makes of a frame, contour by contour.
fn by_doubles(r: &PixelRect, rows: i32, m: &Monitor) -> (bool, TargetArea, (i32, i32)) {
    let scale = rows as f64 / m.height.max(1) as f64;
    let x = r.x as f64 / scale;
    let y = r.y as f64 / scale;
    let w = r.width as f64 / scale;
    let h = r.height as f64 / scale;
    let rejected = h >= 50.0 || w >= 500.0 || h <= 3.0 || w <= 7.0;
    let area = TargetArea {
        x: (x + m.x as f64).round() as i32,
        y: (y + m.y as f64).round() as i32,
        w: w.round() as i32,
        h: h.round() as i32,
    };
    let kernel =
        ((3.5 * scale).round().max(1.0) as i32, (2.5 * scale).round().max(1.0) as i32);
    (rejected, area, kernel)
}

#[test]
fn detection_agrees_with_double_precision() {
    let mut seed = 12345u64;
    let mut next = move |below: u64| {
        seed = seed.wrapping_mul(6364136223846793005).wrapping_add(1442695040888963407);
        ((seed >> 33) % below) as i32
    };
    for _ in 0..20000 {
        let monitor = captured_screen(next(8000) - 4000, next(8000) - 4000, 1920, next(3000) + 1);
        let rows = next(6000) + 1;
        let r = rect(next(9000) - 1000, next(9000) - 1000, next(1200), next(150));
        let (rejected, area, kernel) = by_doubles(&r, rows, &monitor);
        assert_eq!(kernel_size(rows, monitor.height), kernel);
        match detect_target_areas(&vec![r], &vec![links(-1, -1, -1)], rows, &monitor) {
            Ok(d) => {
                assert_eq!(d.verdicts.size_only, vec![rejected], "{r:?} {rows} {monitor:?}");
                if !rejected {
                    assert_eq!(d.areas, vec![area], "{r:?} {rows} {monitor:?}");
                }
            }
            Err(e) => panic!("{e:?}"),
        }
    }
    for (rows, height) in [(1, i32::MAX), (i32::MAX, 1), (i32::MAX, i32::MAX), (7, 3), (3, 7)] {
        let monitor = captured_screen(i32::MAX, i32::MIN, 1, height);
        for r in [rect(i32::MAX, i32::MIN, 1, 1), rect(-1, 1, i32::MAX, i32::MIN)] {
            let (rejected, _, kernel) = by_doubles(&r, rows, &monitor);
            assert_eq!(kernel_size(rows, height), kernel);
            match detect_target_areas(&vec![r], &vec![links(-1, -1, -1)], rows, &monitor) {
                Ok(d) => assert_eq!(d.verdicts.size_only, vec![rejected]),
                Err(e) => panic!("{e:?}"),
            }
        }
    }
}

#[test]
fn nesting_agrees_with_double_precision() {
    let mut seed = 99u64;
    let mut next = move |below: u64| {
        seed = seed.wrapping_mul(6364136223846793005).wrapping_add(1442695040888963407);
        ((seed >> 33) % below) as i32
    };
    let h = vec![links(-1, 1, -1), links(-1, -1, 0)];
    for _ in 0..20000 {
        let monitor = captured_screen(0, 0, 1920, next(2000) + 1);
        let rows = next(4000) + 1;
        let parent = rect(next(500), next(500), next(120) + 8, next(60) + 4);
        let child = rect(next(600), next(600), next(100) + 8, next(50) + 4);
        let scale = rows as f64 / monitor.height as f64;
        let f = |v: i32| v as f64 / scale;
        let size = |r: &PixelRect| {
            let (w, h) = (f(r.width), f(r.height));
            h >= 50.0 || w >= 500.0 || h <= 3.0 || w <= 7.0
        };
        let (p, c) = (&parent, &child);
        let dx = (f(c.x) + f(c.width) / 2.0) - (f(p.x) + f(p.width) / 2.0);
        let dy = (f(c.y) + f(c.height) / 2.0) - (f(p.y) + f(p.height) / 2.0);
        let rejected = size(c)
            || size(p)
            || f(c.height) <= 6.0
            || (dx.abs() < 8.0 && dy.abs() < 8.0)
            || ((f(p.height) - f(p.width)).abs() < 5.0 && f(p.height) < 40.0 && f(p.width) < 40.0);
        match detect_target_areas(&vec![parent, child], &h, rows, &monitor) {
            Ok(d) => assert_eq!(d.verdicts.primary, vec![size(p), rejected]),
            Err(e) => panic!("{e:?}"),
        }
    }
}

#[test]
fn missing_links_are_an_error() {
    let d = detect_target_areas(
        &vec![rect(0, 0, 10, 10)],
        &vec![],
        100,
        &captured_screen(0, 0, 100, 100),
    );
    assert_eq!(d.err(), Some(DetectError::HierarchyMismatch));
}

#[test]
fn many_pruned_contours_fall_back_to_size() {
    let mut rects = vec![rect(0, 0, 900, 600)];
    let mut h = vec![links(-1, 1, -1)];
    for i in 1..=120 {
        rects.push(rect(20 * i, 10, 15, 15));
        h.push(links(if i < 120 { i + 1 } else { -1 }, -1, 0));
    }
    let monitor = captured_screen(0, 0, 3000, 1000);
    match detect_target_areas(&rects, &h, 1000, &monitor) {
        Ok(d) => {
            assert!(d.verdicts.used_fallback);
            assert_eq!(count_kept(&d.verdicts.primary), 0);
            assert_eq!(count_kept(d.verdicts.filtered()), 120);
            assert_eq!(d.areas.len(), 120);
        }
        Err(e) => panic!("{e:?}"),
    }
    rects.pop();
    h.pop();
    h[119] = links(-1, -1, 0);
    match detect_target_areas(&rects, &h, 1000, &monitor) {
        Ok(d) => {
            assert!(!d.verdicts.used_fallback);
            assert!(d.areas.is_empty());
        }
        Err(e) => panic!("{e:?}"),
    }
}

#[test]
fn debug_output_has_to_be_asked_for() {
    for v in ["1", "true", " YES ", "True"] {
        assert!(detect_debug_enabled(Some(v)));
    }
    for v in ["0", "", "on", "11"] {
        assert!(!detect_debug_enabled(Some(v)));
    }
    assert!(!detect_debug_enabled(None));
}

#[test]
fn debug_directory_is_the_given_one_or_dated() {
    assert_eq!(debug_dump_dir(Some(" dir "), 5, 6), " dir ");
    assert_eq!(debug_dump_dir(Some("  "), 1700000000, 42), "/tmp/warpd-rs-detect-1700000000-42");
    assert_eq!(debug_dump_dir(None, 0, 1), "/tmp/warpd-rs-detect-0-1");
}
