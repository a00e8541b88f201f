use midpoint_foundry::algorithms::cell_text::place_of;
use midpoint_foundry::algorithms::circle::baseline_circle::BaselineCircle;
use midpoint_foundry::algorithms::circle::circle_base::CircleBase;
use midpoint_foundry::algorithms::circle::gap_fill_circle::GapFillCircle;
use midpoint_foundry::algorithms::circle::midpoint_circle::MidpointCircle;
use midpoint_foundry::algorithms::circle::parallel_midpoint_circle::ParallelMidpointCircle;
use midpoint_foundry::algorithms::circle::scanline_circle::ScanlineCircle;
use midpoint_foundry::algorithms::circle::sitaraman_fill_circle::SitaramanFillCircle;
use midpoint_foundry::algorithms::circle_walk::push_octants;
use midpoint_foundry::algorithms::duplicates::{repeated_at, repeated_cached, repeated_flags};
use midpoint_foundry::algorithms::line::midpoint_line::MidpointLine;
use midpoint_foundry::algorithms::ring_steps::locate_step;
use midpoint_foundry::algorithms::scanline::push_span;
use midpoint_foundry::algorithms::{push_repeated, Point};

fn cells_of(ps: &[Point]) -> Vec<(i32, i32)> {
    ps.iter().map(|p| (p.x, p.y)).collect()
}

fn contains(ps: &[(i32, i32)], c: (i32, i32)) -> bool {
    ps.iter().any(|&p| p == c)
}

fn pts(cs: &[(i32, i32)]) -> Vec<Point> {
    cs.iter().map(|&(x, y)| Point { x, y }).collect()
}

#[test]
fn midpoint_line_default() {
    let l = MidpointLine::default();
    assert_eq!(l.name(), "Midpoint Line");
    assert_eq!(l.category(), "line");
    assert_eq!((l.x0, l.y0, l.x1, l.y1), (-10, -5, 15, 10));
    assert_eq!(cells_of(l.points()), vec![(-10, -5), (-9, -4), (-8, -4), (-7, -3), (-6, -3), (-5, -2), (-4, -1), (-3, -1), (-2, 0), (-1, 0), (0, 1), (1, 2), (2, 2), (3, 3), (4, 3), (5, 4), (6, 5), (7, 5), (8, 6), (9, 6), (10, 7), (11, 8), (12, 8), (13, 9), (14, 9), (15, 10)]);
}

#[test]
fn midpoint_line_octants() {
    let mut l = MidpointLine::default();
    let cases: [(i32, i32, i32, i32, &[(i32, i32)]); 5] = [
        (0, 0, 5, 2, &[(0, 0), (1, 0), (2, 1), (3, 1), (4, 2), (5, 2)]),
        (3, 1, -2, 7, &[(3, 1), (2, 2), (1, 3), (1, 4), (0, 5), (-1, 6), (-2, 7)]),
        (0, 0, 0, -4, &[(0, 0), (0, -1), (0, -2), (0, -3), (0, -4)]),
        (4, 4, 4, 4, &[(4, 4)]),
        (-3, 2, 3, -4, &[(-3, 2), (-2, 1), (-1, 0), (0, -1), (1, -2), (2, -3), (3, -4)]),
    ];
    for &(x0, y0, x1, y1, expected) in cases.iter() {
        l.x0 = x0;
        l.y0 = y0;
        l.x1 = x1;
        l.y1 = y1;
        l.compute();
        assert_eq!(cells_of(l.points()), expected.to_vec());
    }
}

#[test]
fn midpoint_line_connects_its_ends() {
    let mut l = MidpointLine::default();
    for &(x0, y0, x1, y1) in &[(0, 0, 17, -6), (-9, 4, 2, 13), (5, -5, -5, 5), (1, 1, -20, 2)] {
        l.x0 = x0;
        l.y0 = y0;
        l.x1 = x1;
        l.y1 = y1;
        l.compute();
        let ps = cells_of(l.points());
        assert_eq!(ps[0], (x0, y0));
        assert_eq!(*ps.last().unwrap(), (x1, y1));
        assert_eq!(ps.len() as i32, (x1 - x0).abs().max((y1 - y0).abs()) + 1);
        for i in 0..ps.len() {
            for j in i + 1..ps.len() {
                assert_ne!(ps[i], ps[j]);
            }
        }
        for w in ps.windows(2) {
            let (dx, dy) = (w[1].0 - w[0].0, w[1].1 - w[0].1);
            assert!(dx.abs() <= 1 && dy.abs() <= 1 && (dx, dy) != (0, 0));
            assert!(dx == 0 || dx == (x1 - x0).signum());
            assert!(dy == 0 || dy == (y1 - y0).signum());
        }
    }
}

#[test]
fn repeated_cells_are_flagged() {
    let ps = pts(&[(0, 0), (1, 0), (0, 0), (2, 2), (1, 0), (0, 0)]);
    assert_eq!(repeated_flags(&ps), vec![true, true, true, false, true, true]);
    assert!(repeated_at(&ps, 2));
    assert!(!repeated_at(&ps, 3));
    assert!(repeated_cached(&None, &ps, 1));
    assert!(!repeated_cached(&None, &ps, 3));
    let cache = Some(repeated_flags(&ps));
    assert!(repeated_cached(&cache, &ps, 5));
    assert!(!repeated_cached(&cache, &ps, 3));
    assert!(repeated_flags(&Vec::new()).is_empty());
}

#[test]
fn place_words() {
    assert_eq!(place_of(-3), "inside");
    assert_eq!(place_of(0), "on");
    assert_eq!(place_of(12), "outside");
}

#[test]
fn locate_step_finds_first_pixel() {
    let ps = pts(&[(0, 1), (1, 0), (0, 2), (2, 0), (1, 0), (0, 3)]);
    let starts = vec![0usize, 2, 5];
    assert_eq!(locate_step(&ps, &starts, 1, 0), Some((2, 1)));
    assert_eq!(locate_step(&ps, &starts, 2, 0), Some((2, 2)));
    assert_eq!(locate_step(&ps, &starts, 0, 3), Some((1, 3)));
    assert_eq!(locate_step(&ps, &starts, 9, 9), None);
}

#[test]
fn pushing_spans_octants_and_labels() {
    let mut v: Vec<Point> = Vec::new();
    push_span(&mut v, 3, -1, 1);
    push_span(&mut v, 4, 2, 1);
    assert_eq!(cells_of(&v), vec![(-1, 3), (0, 3), (1, 3)]);
    let mut o: Vec<Point> = Vec::new();
    push_octants(&mut o, 10, 20, 1, 2);
    assert_eq!(
        cells_of(&o),
        vec![(11, 22), (9, 22), (11, 18), (9, 18), (12, 21), (8, 21), (12, 19), (8, 19)]
    );
    let mut l = vec![1];
    push_repeated(&mut l, 4, 3);
    push_repeated(&mut l, 9, 0);
    assert_eq!(l, vec![1, 4, 4, 4]);
    assert_eq!(Point::default(), Point { x: 0, y: 0 });
}

#[test]
fn circle_base_basics() {
    let mut b = CircleBase::new(2, -3, 4);
    assert_eq!((b.center_x, b.center_y, b.radius), (2, -3, 4));
    assert!(b.points.is_empty() && !b.show_duplicates && !b.show_smooth_overlay);
    assert_eq!(b.overlay_circle_base(), None);
    b.show_smooth_overlay = true;
    assert_eq!(b.overlay_circle_base(), Some((2, -3, 4)));
    assert_eq!(b.decision_parameter(6, -3), 0);
    assert_eq!(b.cell_info_base(2, -3).unwrap(), "x²+y²−r²  =  -16\n(inside  circle)");
    b.points = pts(&[(0, 0), (1, 1), (0, 0)]);
    assert_eq!(b.duplicate_color(1, Some("f"), "red"), Some("f"));
    b.show_duplicates = true;
    assert_eq!(b.duplicate_color(0, Some("f"), "red"), Some("red"));
    assert_eq!(b.duplicate_color(1, Some("f"), "red"), Some("f"));
    b.refresh_duplicate_cache();
    assert_eq!(b.duplicate_cache, Some(vec![true, false, true]));
    b.invalidate_cache();
    assert_eq!(b.duplicate_cache, None);
}

#[test]
fn circle_module_outlines() {
    let mut m = MidpointCircle::default();
    assert_eq!(m.name(), "Midpoint Circle");
    assert_eq!(m.category(), "circle");
    m.base.radius = 4;
    m.base.center_x = -2;
    m.compute();
    assert_eq!(cells_of(m.points()), vec![(-2, 4), (-2, 4), (-2, -4), (-2, -4), (2, 0), (-6, 0), (2, 0), (-6, 0), (-1, 4), (-3, 4), (-1, -4), (-3, -4), (2, 1), (-6, 1), (2, -1), (-6, -1), (0, 3), (-4, 3), (0, -3), (-4, -3), (1, 2), (-5, 2), (1, -2), (-5, -2), (1, 3), (-5, 3), (1, -3), (-5, -3), (1, 3), (-5, 3), (1, -3), (-5, -3)]);
    assert_eq!(m.cell_info(2, 0).unwrap(), "x²+y²−r²  =  0\n(on  circle)");
    let mut b = BaselineCircle::default();
    assert_eq!(b.category(), "circle");
    b.base.radius = 2;
    b.compute();
    assert_eq!(cells_of(b.points()), vec![(0, -2), (-1, -1), (0, -1), (1, -1), (-2, 0), (-1, 0), (0, 0), (1, 0), (2, 0), (-1, 1), (0, 1), (1, 1), (0, 2)]);
    let mut s = ScanlineCircle::default();
    s.base.radius = 2;
    s.compute();
    assert_eq!(cells_of(s.points()), vec![(0, 2), (0, -2), (-2, 0), (-1, 0), (0, 0), (1, 0), (2, 0), (-2, 0), (-1, 0), (0, 0), (1, 0), (2, 0), (-1, 2), (0, 2), (1, 2), (-1, -2), (0, -2), (1, -2), (-2, 1), (-1, 1), (0, 1), (1, 1), (2, 1), (-2, -1), (-1, -1), (0, -1), (1, -1), (2, -1)]);
    assert_eq!(s.category(), "circle");
}

#[test]
fn circle_module_fills() {
    let mut g = GapFillCircle::default();
    g.base.center_x = 1;
    g.base.center_y = 1;
    g.base.radius = 3;
    g.compute();
    assert_eq!(cells_of(g.points()), vec![(1, 2), (1, 2), (1, 0), (1, 0), (2, 1), (0, 1), (2, 1), (0, 1), (1, 3), (1, 3), (1, -1), (1, -1), (3, 1), (-1, 1), (3, 1), (-1, 1), (2, 3), (0, 3), (2, -1), (0, -1), (3, 2), (-1, 2), (3, 0), (-1, 0), (1, 4), (1, 4), (1, -2), (1, -2), (4, 1), (-2, 1), (4, 1), (-2, 1), (2, 4), (0, 4), (2, -2), (0, -2), (4, 2), (-2, 2), (4, 0), (-2, 0), (3, 3), (-1, 3), (3, -1), (-1, -1), (3, 3), (-1, 3), (3, -1), (-1, -1)]);
    assert_eq!(g.point_radii, vec![1, 1, 1, 1, 1, 1, 1, 1, 2, 2, 2, 2, 2, 2, 2, 2, 2, 2, 2, 2, 2, 2, 2, 2, 3, 3, 3, 3, 3, 3, 3, 3, 3, 3, 3, 3, 3, 3, 3, 3, 3, 3, 3, 3, 3, 3, 3, 3]);
    assert_eq!(g.ring_start_indices, vec![0, 8, 24]);
    assert_eq!(g.cell_info(1, 2).unwrap(), "Step 1 (ring 1)");
    let palette = ["a", "b", "c"];
    assert_eq!(g.point_color_override(0, &palette, "red"), Some("b"));
    let mut s = SitaramanFillCircle::default();
    s.base.center_x = 1;
    s.base.center_y = 1;
    s.base.radius = 3;
    s.compute();
    assert_eq!(cells_of(s.points()), vec![(1, 2), (1, 2), (1, 0), (1, 0), (2, 1), (0, 1), (2, 1), (0, 1), (2, 2), (0, 2), (2, 0), (0, 0), (2, 2), (0, 2), (2, 0), (0, 0), (1, 3), (1, 3), (1, -1), (1, -1), (3, 1), (-1, 1), (3, 1), (-1, 1), (2, 3), (0, 3), (2, -1), (0, -1), (3, 2), (-1, 2), (3, 0), (-1, 0), (1, 4), (1, 4), (1, -2), (1, -2), (4, 1), (-2, 1), (4, 1), (-2, 1), (2, 4), (0, 4), (2, -2), (0, -2), (4, 2), (-2, 2), (4, 0), (-2, 0), (3, 3), (-1, 3), (3, -1), (-1, -1), (3, 3), (-1, 3), (3, -1), (-1, -1), (4, 3), (-2, 3), (4, -1), (-2, -1), (3, 4), (-1, 4), (3, -2), (-1, -2)]);
    assert_eq!(s.point_radii, vec![1, 1, 1, 1, 1, 1, 1, 1, 1, 1, 1, 1, 1, 1, 1, 1, 2, 2, 2, 2, 2, 2, 2, 2, 2, 2, 2, 2, 2, 2, 2, 2, 3, 3, 3, 3, 3, 3, 3, 3, 3, 3, 3, 3, 3, 3, 3, 3, 3, 3, 3, 3, 3, 3, 3, 3, 3, 3, 3, 3, 3, 3, 3, 3]);
    assert_eq!(s.ring_start_indices, vec![0, 16, 32]);
    assert_eq!(s.point_color_override(0, &palette, "red"), Some("b"));
}

#[test]
fn circle_module_parallel_phases() {
    let d = ParallelMidpointCircle::default();
    let m = MidpointCircle::default();
    assert_eq!(cells_of(d.points()), cells_of(m.points()));
    assert_eq!(d.points().len(), 88);
    let mut p = ParallelMidpointCircle::default();
    assert_eq!(p.category(), "circle");
    p.base.radius = 6;
    let mut all = Vec::new();
    for (x, y) in p.edge_points() {
        all.extend(p.generate_octants(x, y));
    }
    p.set_points(all);
    assert_eq!(cells_of(p.points()), vec![(0, 6), (0, 6), (0, -6), (0, -6), (6, 0), (-6, 0), (6, 0), (-6, 0), (1, 6), (-1, 6), (1, -6), (-1, -6), (6, 1), (-6, 1), (6, -1), (-6, -1), (2, 6), (-2, 6), (2, -6), (-2, -6), (6, 2), (-6, 2), (6, -2), (-6, -2), (3, 5), (-3, 5), (3, -5), (-3, -5), (5, 3), (-5, 3), (5, -3), (-5, -3), (4, 4), (-4, 4), (4, -4), (-4, -4), (4, 4), (-4, 4), (4, -4), (-4, -4)]);
}

#[test]
fn parallel_generate_octants_reflects_any_pixel() {
    let p = ParallelMidpointCircle::default();
    assert_eq!(
        cells_of(&p.generate_octants(5, 0)),
        vec![(5, 0), (-5, 0), (5, 0), (-5, 0), (0, 5), (0, 5), (0, -5), (0, -5)]
    );
}
