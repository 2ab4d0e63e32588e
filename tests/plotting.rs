use grapher::fixed::UNIT;
use grapher::viewport::{MAX_CENTER, MAX_ZOOM_EXP};
use grapher::{Control, Grapher, Point, Viewport};

fn fixed(v: f64) -> i64 {
    (v * UNIT as f64).round() as i64
}

fn black_pixels(g: &Grapher) -> Vec<(u32, u32)> {
    let dim = g.view.dim;
    let bytes = g.buf.bytes();
    let mut out = Vec::new();
    for row in 0..dim {
        for col in 0..dim {
            let k = (3 * (row * dim + col)) as usize;
            if bytes[k] == 0 && bytes[k + 1] == 0 && bytes[k + 2] == 0 {
                out.push((col, row));
            }
        }
    }
    out
}

fn is_black(g: &Grapher, col: u32, row: u32) -> bool {
    let k = (3 * (row * g.view.dim + col)) as usize;
    let bytes = g.buf.bytes();
    bytes[k] == 0 && bytes[k + 1] == 0 && bytes[k + 2] == 0
}

#[test]
fn center_maps_to_middle_pixel() {
    let v = Viewport::new(20);
    assert_eq!(v.map_point(0, 0), (10, 10));
    let mut w = Viewport::new(20);
    w.center = Point::new(7 * UNIT, -3 * UNIT);
    w.zoom_exp = 3;
    assert_eq!(w.map_point(7 * UNIT, -3 * UNIT), (10, 10));
}

#[test]
fn transform_flips_y_and_scales_with_zoom() {
    let mut v = Viewport::new(20);
    assert_eq!(v.map_point(3 * UNIT, 2 * UNIT), (13, 8));
    v.handle_key('z');
    assert_eq!(v.map_point(3 * UNIT, 2 * UNIT), (16, 6));
}

#[test]
fn transform_rounds_half_up() {
    let v = Viewport::new(20);
    assert_eq!(v.map_point(UNIT / 2, 0).0, 11);
    assert_eq!(v.map_point(-UNIT / 2, 0).0, 10);
    assert_eq!(v.map_point(UNIT / 2 - 1, 0).0, 10);
}

#[test]
fn pixel_round_trip() {
    let mut v = Viewport::new(20);
    v.center = Point::new(5 * UNIT, UNIT);
    v.zoom_exp = -2;
    for col in 0..20 {
        for row in 0..20 {
            let p = v.to_function_space(col, row);
            assert_eq!(v.map_point(p.x, p.y), (col as i128, row as i128));
        }
    }
    let p = v.to_function_space(12, 10);
    assert_eq!(p, Point::new(5 * UNIT + 8 * UNIT, UNIT));
}

#[test]
fn zoom_in_halves_window() {
    let mut v = Viewport::new(20);
    let wide = v.sample_points(4);
    assert_eq!(wide, vec![-20 * UNIT, -10 * UNIT, 0, 10 * UNIT]);
    v.handle_key('z');
    let narrow = v.sample_points(4);
    assert_eq!(narrow, vec![-10 * UNIT, -5 * UNIT, 0, 5 * UNIT]);
}

#[test]
fn zoom_moves_points_away_from_center() {
    let mut v = Viewport::new(100);
    let p = Point::new(UNIT + UNIT / 3, -UNIT / 5);
    let mut last = (0i128, 0i128);
    for _ in 0..5 {
        let (c, r) = v.map_point(p.x, p.y);
        let d = ((c - 50).abs(), (r - 50).abs());
        assert!(d.0 >= last.0 && d.1 >= last.1);
        last = d;
        v.handle_key('z');
    }
    assert!(last.0 > 1);
}

#[test]
fn samples_are_half_open() {
    let v = Viewport::new(20);
    let xs = v.sample_points(1000);
    assert_eq!(xs.len(), 1000);
    assert_eq!(xs[0], -20 * UNIT);
    assert!(xs[999] < 20 * UNIT);
    assert!(xs.windows(2).all(|w| w[0] < w[1]));
}

#[test]
fn new_grapher_is_blank() {
    let g = Grapher::new(20, 10);
    let bytes = g.buf.bytes();
    assert_eq!(bytes.len(), 20 * 20 * 3);
    assert!(bytes.iter().all(|&b| b == 255));
    assert_eq!(g.view.zoom_exp, 0);
    assert!(!g.view.axis_enabled);
}

#[test]
fn set_pixel_paints_mapped_pixel() {
    let mut g = Grapher::new(20, 10);
    g.set_pixel(0, 0);
    assert_eq!(black_pixels(&g), vec![(10, 10)]);
    g.set_pixel(-3 * UNIT, 4 * UNIT);
    assert!(is_black(&g, 7, 6));
    assert_eq!(black_pixels(&g).len(), 2);
}

#[test]
fn far_point_is_clipped() {
    let mut g = Grapher::new(20, 10);
    let before = g.buf.bytes();
    g.set_pixel(1000 * UNIT, 0);
    g.set_pixel(0, -1000 * UNIT);
    g.set_pixel(-11 * UNIT, 0);
    g.set_pixel(0, 11 * UNIT);
    assert_eq!(g.buf.bytes(), before);
}

#[test]
fn interpolation_covers_half_open_span() {
    let a = Point::new(0, 0);
    let b = Point::new(10 * UNIT, 0);
    let pts = a.interpolate(&b, 10);
    let xs: Vec<i64> = pts.iter().map(|p| p.x).collect();
    assert_eq!(xs, (0..10).map(|i| i * UNIT).collect::<Vec<i64>>());
    assert!(pts.iter().all(|p| p.y == 0));
}

#[test]
fn interpolation_of_equal_points() {
    let a = Point::new(3, -4);
    let pts = a.interpolate(&a, 7);
    assert_eq!(pts, vec![a; 7]);
}

#[test]
fn interpolation_goes_backwards() {
    let a = Point::new(0, 0);
    let b = Point::new(-10, 5);
    let pts = a.interpolate(&b, 4);
    assert_eq!(pts, vec![Point::new(0, 0), Point::new(-3, 1), Point::new(-5, 2), Point::new(-8, 3)]);
}

#[test]
fn draw_line_plots_each_step() {
    let mut g = Grapher::new(20, 10);
    g.draw_line(Point::new(0, 0), Point::new(5 * UNIT, 0));
    let px = black_pixels(&g);
    assert_eq!(px, vec![(10, 10), (11, 10), (12, 10), (13, 10), (14, 10), (15, 10)]);
}

#[test]
fn point_distances() {
    let a = Point::new(UNIT, 2 * UNIT);
    let b = Point::new(4 * UNIT, 6 * UNIT);
    assert_eq!(a.distance_x(&b), -3 * UNIT as i128);
    assert_eq!(a.distance_y(&b), -4 * UNIT as i128);
    assert_eq!(b.distance_x(&a), 3 * UNIT as i128);
    assert_eq!(Point::new(0, 0).distance_x(&Point::new(1, 0)), -1);
    assert_eq!(a.distance_x(&a), 0);
    let c = Point::new(-5 * UNIT, 2);
    let d = Point::new(3 * UNIT, -7);
    assert_eq!(c.distance_x(&d), 2 * UNIT as i128);
    assert_eq!(c.distance_y(&d), -5);
    assert_eq!(d.distance_y(&c), 5);
    let m = Point::new(i64::MIN, i64::MAX);
    assert_eq!(m.distance_x(&Point::new(0, 0)), 1i128 << 63);
    assert_eq!(m.distance_y(&Point::new(0, i64::MIN)), -1);
    assert_eq!(a.distance(&b), 5 * UNIT as u64);
    assert_eq!(Point::new(0, 0).distance(&Point::new(1, 1)), 1);
    assert_eq!(Point::new(0, 0).distance(&Point::new(i64::MIN, i64::MIN)), 13043817825332782212);
}

#[test]
fn real_function_parabola_is_symmetric() {
    let mut g = Grapher::new(20, 1000);
    let xs = g.view.sample_points(g.precision);
    assert_eq!(xs[0], -20 * UNIT);
    let ys: Vec<i64> = xs
        .iter()
        .map(|&x| {
            let t = x as f64 / UNIT as f64;
            fixed(t * t)
        })
        .collect();
    g.draw_re_func(&ys);
    let px = black_pixels(&g);
    assert!(px.contains(&(10, 10)));
    assert!(px.len() > 5);
    for &(c, r) in &px {
        assert!(c < 20 && r < 20);
        assert!(r <= 10);
        if c > 0 {
            assert!(px.contains(&(20 - c, r)), "no mirror for {:?}", (c, r));
        }
    }
}

#[test]
fn real_function_plots_isolated_points() {
    let mut g = Grapher::new(20, 4);
    let ys = vec![0, UNIT, 2 * UNIT, 3 * UNIT];
    g.draw_re_func(&ys);
    assert_eq!(black_pixels(&g), vec![(10, 8), (0, 9)]);
    let mut h = Grapher::new(40, 4);
    h.draw_re_func(&ys);
    assert_eq!(black_pixels(&h), vec![(20, 18), (0, 19)]);
}

#[test]
fn complex_unit_circle() {
    let mut g = Grapher::new(40, 200);
    for _ in 0..3 {
        assert_eq!(g.view.handle_key('z'), Control::Redraw);
    }
    let n = 200;
    let zs: Vec<Point> = (0..n)
        .map(|i| {
            let t = i as f64 * 2.0 * std::f64::consts::PI / (n - 1) as f64;
            Point::new(fixed(t.cos()), fixed(t.sin()))
        })
        .collect();
    g.update_plot(&zs);
    let px = black_pixels(&g);
    assert!(px.len() > 30);
    for &(c, r) in &px {
        let d = ((c as f64 - 20.0).powi(2) + (r as f64 - 20.0).powi(2)).sqrt();
        assert!((d - 8.0).abs() <= 1.5, "pixel {:?} at distance {}", (c, r), d);
    }
    for w in zs.windows(2) {
        let pts = w[0].interpolate(&w[1], 200);
        let step_x = (w[1].x - w[0].x).abs() / 200 + 1;
        let step_y = (w[1].y - w[0].y).abs() / 200 + 1;
        for s in pts.windows(2) {
            assert!((s[1].x - s[0].x).abs() <= step_x);
            assert!((s[1].y - s[0].y).abs() <= step_y);
        }
        let last = pts[pts.len() - 1];
        assert!((w[1].x - last.x).abs() <= step_x);
        assert!((w[1].y - last.y).abs() <= step_y);
    }
}

#[test]
fn curve_joins_consecutive_points() {
    let mut g = Grapher::new(20, 4);
    let zs = vec![Point::new(0, 0), Point::new(4 * UNIT, 0), Point::new(4 * UNIT, -4 * UNIT)];
    g.draw_re_z_func(&zs);
    assert_eq!(
        black_pixels(&g),
        vec![(10, 10), (11, 10), (12, 10), (13, 10), (14, 10), (14, 11), (14, 12), (14, 13)]
    );
}

#[test]
fn redraw_is_idempotent() {
    let mut g = Grapher::new(30, 50);
    g.view.handle_key('e');
    let zs: Vec<Point> = (0..50).map(|i| Point::new(i * UNIT / 4, (i % 7) * UNIT)).collect();
    g.update_plot(&zs);
    let first = g.buf.bytes();
    g.update_plot(&zs);
    assert_eq!(g.buf.bytes(), first);
    g.set_pixel(-14 * UNIT, -14 * UNIT);
    assert_ne!(g.buf.bytes(), first);
    g.update_plot(&zs);
    assert_eq!(g.buf.bytes(), first);
}

#[test]
fn axes_through_origin_with_ticks() {
    let mut g = Grapher::new(20, 10);
    g.draw_axes();
    for i in 0..20 {
        assert!(is_black(&g, 10, i));
        assert!(is_black(&g, i, 10));
    }
    assert!(is_black(&g, 9, 5) && is_black(&g, 11, 5) && is_black(&g, 11, 15));
    assert!(!is_black(&g, 11, 6) && !is_black(&g, 9, 7));
    assert!(is_black(&g, 5, 9) && is_black(&g, 5, 11));
    assert!(!is_black(&g, 6, 11));
    assert_eq!(black_pixels(&g).len(), 39 + 12);
}

#[test]
fn axes_follow_the_origin() {
    let mut g = Grapher::new(40, 10);
    g.view.handle_key('d');
    g.view.handle_key('w');
    g.draw_axes();
    assert!(is_black(&g, 10, 3));
    assert!(is_black(&g, 7, 30));
    assert!(is_black(&g, 11, 5) && is_black(&g, 5, 31));
    assert!(!is_black(&g, 20, 3));
    assert!(!is_black(&g, 3, 20));
    let mut h = Grapher::new(20, 10);
    h.view.center = Point::new(500 * UNIT, 500 * UNIT);
    h.draw_axes();
    assert!(black_pixels(&h).is_empty());
}

#[test]
fn update_plot_draws_axes_only_when_enabled() {
    let mut g = Grapher::new(20, 10);
    let zs = vec![Point::new(100 * UNIT, 0)];
    g.update_plot(&zs);
    assert!(black_pixels(&g).is_empty());
    g.view.handle_key('e');
    g.update_plot(&zs);
    assert!(is_black(&g, 10, 0));
    g.view.handle_key('e');
    g.update_plot(&zs);
    assert!(black_pixels(&g).is_empty());
}

#[test]
fn keys_zoom_pan_reset() {
    let mut v = Viewport::new(20);
    assert_eq!(v.handle_key('z'), Control::Redraw);
    assert_eq!(v.handle_key('z'), Control::Redraw);
    assert_eq!(v.zoom_exp, 2);
    v.handle_key('w');
    assert_eq!(v.center, Point::new(0, 10 * UNIT / 4));
    v.handle_key('a');
    assert_eq!(v.center, Point::new(-10 * UNIT / 4, 10 * UNIT / 4));
    v.handle_key('x');
    v.handle_key('s');
    v.handle_key('s');
    v.handle_key('d');
    assert_eq!(v.center, Point::new(10 * UNIT / 4, 10 * UNIT / 4 - 10 * UNIT));
    assert_eq!(v.handle_key('r'), Control::Redraw);
    assert_eq!(v.zoom_exp, 0);
    assert_eq!(v.center, Point::new(0, 0));
}

#[test]
fn key_sequence_z_z_r_resets() {
    let mut v = Viewport::new(50);
    v.handle_key('d');
    v.handle_key('z');
    v.handle_key('w');
    v.handle_key('z');
    v.handle_key('r');
    assert_eq!(v.zoom_exp, 0);
    assert_eq!(v.center, Point::new(0, 0));
}

#[test]
fn other_keys_change_nothing_and_k_quits() {
    let mut v = Viewport::new(20);
    v.handle_key('z');
    let before = v;
    assert_eq!(v.handle_key('q'), Control::Redraw);
    assert_eq!(v.handle_key('1'), Control::Redraw);
    assert_eq!((v.center, v.zoom_exp, v.axis_enabled), (before.center, before.zoom_exp, before.axis_enabled));
    assert_eq!(v.handle_key('k'), Control::Quit);
    assert_eq!(v.zoom_exp, before.zoom_exp);
    v.handle_key('e');
    assert!(v.axis_enabled);
}

#[test]
fn zoom_and_pan_stay_bounded() {
    let mut v = Viewport::new(20);
    for _ in 0..40 {
        v.handle_key('z');
    }
    assert_eq!(v.zoom_exp, MAX_ZOOM_EXP);
    for _ in 0..80 {
        v.handle_key('x');
    }
    assert_eq!(v.zoom_exp, -MAX_ZOOM_EXP);
    for _ in 0..300 {
        v.handle_key('d');
    }
    assert_eq!(v.center.x, MAX_CENTER);
}
