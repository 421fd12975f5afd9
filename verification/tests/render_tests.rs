use image_display::{parse, render, render_image, resample, Directive, TerminalGrid};

#[test]
fn render_darkest_and_brightest() {
    // normalized 0 is the first ramp index, normalized 1 the last
    assert_eq!(render(0, 255), 232);
    assert_eq!(render(255, 255), 255);
    assert_eq!(render(0, 1), 232);
    assert_eq!(render(1, 1), 255);
}

#[test]
fn render_interior_shades() {
    // 232 + floor(value * 23), truncating
    assert_eq!(render(85, 255), 239);
    assert_eq!(render(170, 255), 247);
    assert_eq!(render(127, 255), 243);
}

#[test]
fn render_is_monotone_over_a_ramp() {
    let mut last = 0u8;
    for v in 0..=255u32 {
        let idx = render(v, 255);
        assert!(idx >= 232 && idx <= 255);
        assert!(idx >= last);
        last = idx;
    }
}

#[test]
fn resample_identity_case() {
    let img = parse(&b"P2\n2 2\n255\n0 85 170 255\n".to_vec()).unwrap();
    let grid = TerminalGrid { cols: 2, rows: 2 };
    let r = resample(&img, &grid);
    // destination cell (i, j) is exactly source sample (i, j)
    assert_eq!(r[0][0], 0);
    assert_eq!(r[1][0], 85);
    assert_eq!(r[0][1], 170);
    assert_eq!(r[1][1], 255);
}

#[test]
fn resample_downscale_picks_nearest_neighbor() {
    let mut text = b"P2\n4 4\n255\n".to_vec();
    for k in 0..16u8 {
        text.extend_from_slice(format!("{}\n", k).as_bytes());
    }
    let img = parse(&text).unwrap();
    let r = resample(&img, &TerminalGrid { cols: 2, rows: 2 });
    // source column floor(i / 2 * 4) = 2 * i, row floor(j / 2 * 4) = 2 * j
    assert_eq!(r[0][0], 0);
    assert_eq!(r[1][0], 2);
    assert_eq!(r[0][1], 8);
    assert_eq!(r[1][1], 10);
}

#[test]
fn resample_upscale_repeats_samples() {
    let img = parse(&b"P2\n1 1\n255\n9\n".to_vec()).unwrap();
    let r = resample(&img, &TerminalGrid { cols: 3, rows: 2 });
    assert_eq!(r.len(), 3);
    for col in &r {
        assert_eq!(col.len(), 2);
        for &v in col {
            assert_eq!(v, 9);
        }
    }
}

#[test]
fn resample_empty_grid() {
    let img = parse(&b"P2\n2 2\n255\n0 85 170 255\n".to_vec()).unwrap();
    let r = resample(&img, &TerminalGrid { cols: 0, rows: 5 });
    assert!(r.is_empty());
}

#[test]
fn end_to_end_2x2() {
    let mut buf = b"P5\n2 2\n255\n".to_vec();
    buf.extend_from_slice(&[0, 85, 170, 255]);
    let img = parse(&buf).unwrap();
    let out = render_image(&img, &TerminalGrid { cols: 2, rows: 2 });
    // one clear first, the shades in row-major order, one trailing reset
    assert_eq!(
        out,
        vec![
            Directive::Clear,
            Directive::Cell(232),
            Directive::Cell(239),
            Directive::Newline,
            Directive::Cell(247),
            Directive::Cell(255),
            Directive::Newline,
            Directive::Cell(232),
        ],
    );
}

#[test]
fn render_image_empty_grid_is_clear_and_reset() {
    let img = parse(&b"P2\n1 1\n1\n1\n".to_vec()).unwrap();
    let out = render_image(&img, &TerminalGrid { cols: 3, rows: 0 });
    assert_eq!(out, vec![Directive::Clear, Directive::Cell(232)]);
}

#[test]
fn render_image_zero_columns_has_one_newline_per_row() {
    let img = parse(&b"P2\n1 1\n1\n1\n".to_vec()).unwrap();
    let out = render_image(&img, &TerminalGrid { cols: 0, rows: 2 });
    assert_eq!(
        out,
        vec![
            Directive::Clear,
            Directive::Newline,
            Directive::Newline,
            Directive::Cell(232),
        ],
    );
}
