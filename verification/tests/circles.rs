use midpoint_foundry::algorithms::baseline_circle::BaselineCircle;
use midpoint_foundry::algorithms::filled_midpoint_circle_real::FilledMidpointCircleReal;
use midpoint_foundry::algorithms::gap_fill_circle::GapFillCircle;
use midpoint_foundry::algorithms::midpoint_circle::MidpointCircle;
use midpoint_foundry::algorithms::parallel_midpoint_circle::ParallelMidpointCircle;
use midpoint_foundry::algorithms::scanline_circle::ScanlineCircle;
use midpoint_foundry::algorithms::sitaraman_fill_circle::SitaramanFillCircle;
use midpoint_foundry::algorithms::Point;

fn cells_of(ps: &[Point]) -> Vec<(i32, i32)> {
    ps.iter().map(|p| (p.x, p.y)).collect()
}

fn contains(ps: &[(i32, i32)], c: (i32, i32)) -> bool {
    ps.iter().any(|&p| p == c)
}

#[test]
fn midpoint_circle_default_is_computed() {
    let m = MidpointCircle::default();
    assert_eq!(m.name(), "Midpoint Circle");
    assert_eq!((m.center_x, m.center_y, m.radius), (0, 0, 15));
    assert!(!m.show_smooth_overlay);
    let got = cells_of(m.points());
    assert_eq!(got.len(), 88);
    assert_eq!(&got[..8], &[(0, 15), (0, 15), (0, -15), (0, -15), (15, 0), (-15, 0), (15, 0), (-15, 0)]);
    assert_eq!(&got[got.len() - 8..], &[(10, 11), (-10, 11), (10, -11), (-10, -11), (11, 10), (-11, 10), (11, -10), (-11, -10)]);
}

#[test]
fn midpoint_circle_radius_three_off_center() {
    let mut m = MidpointCircle::default();
    m.center_x = 2;
    m.center_y = -1;
    m.radius = 3;
    m.compute();
    assert_eq!(cells_of(m.points()), vec![(2, 2), (2, 2), (2, -4), (2, -4), (5, -1), (-1, -1), (5, -1), (-1, -1), (3, 2), (1, 2), (3, -4), (1, -4), (5, 0), (-1, 0), (5, -2), (-1, -2), (4, 1), (0, 1), (4, -3), (0, -3), (4, 1), (0, 1), (4, -3), (0, -3)]);
}

#[test]
fn midpoint_circle_radius_zero_and_negative() {
    let mut m = MidpointCircle::default();
    m.radius = 0;
    m.compute();
    assert_eq!(cells_of(m.points()), vec![(0, 0), (0, 0), (0, 0), (0, 0), (0, 0), (0, 0), (0, 0), (0, 0)]);
    m.radius = -2;
    m.compute();
    assert!(m.points().is_empty());
}

#[test]
fn midpoint_circle_decision_and_cell_info() {
    let mut m = MidpointCircle::default();
    m.radius = 5;
    m.compute();
    assert_eq!(m.decision_parameter(3, 4), 0);
    assert_eq!(m.decision_parameter(1, 1), -23);
    assert_eq!(m.decision_parameter(6, 0), 11);
    assert_eq!(m.cell_info(3, 4).unwrap(), "x²+y²−r²  =  0\n(on  circle)");
    assert_eq!(m.cell_info(1, 1).unwrap(), "x²+y²−r²  =  -23\n(inside  circle)");
    assert_eq!(m.cell_info(6, 0).unwrap(), "x²+y²−r²  =  11\n(outside  circle)");
}

#[test]
fn midpoint_circle_overlay_follows_switch() {
    let mut m = MidpointCircle::default();
    assert_eq!(m.overlay_circle(), None);
    m.show_smooth_overlay = true;
    m.center_x = 4;
    assert_eq!(m.overlay_circle(), Some((4, 0, 15)));
}

#[test]
fn midpoint_circle_outline_symmetric_and_in_band() {
    let mut m = MidpointCircle::default();
    m.center_x = 3;
    m.center_y = -2;
    m.radius = 7;
    m.compute();
    let ps = cells_of(m.points());
    assert_eq!(ps.len() % 8, 0);
    for &(x, y) in &ps {
        let (u, v) = (x - 3, y + 2);
        assert!(contains(&ps, (3 - u, y)));
        assert!(contains(&ps, (3 + v, -2 + u)));
        let value = u * u + v * v - 49;
        let m = u.abs().max(v.abs());
        assert!(-m <= value && value < m);
    }
}

#[test]
fn baseline_circle_radius_two_row_major() {
    let mut b = BaselineCircle::default();
    assert_eq!(b.name(), "Baseline Circle (Implicit Equation)");
    b.center_x = 1;
    b.center_y = 1;
    b.radius = 2;
    b.compute();
    assert_eq!(cells_of(b.points()), vec![(1, -1), (0, 0), (1, 0), (2, 0), (-1, 1), (0, 1), (1, 1), (2, 1), (3, 1), (0, 2), (1, 2), (2, 2), (1, 3)]);
}

#[test]
fn baseline_circle_is_exactly_the_disc() {
    let mut b = BaselineCircle::default();
    b.center_x = -3;
    b.center_y = 2;
    b.radius = 5;
    b.compute();
    let ps = cells_of(b.points());
    assert_eq!(ps.len(), 81);
    for y in -5..=9 {
        for x in -10..=4 {
            let inside = (x + 3) * (x + 3) + (y - 2) * (y - 2) <= 25;
            assert_eq!(contains(&ps, (x, y)), inside);
        }
    }
    for w in ps.windows(2) {
        assert!((w[0].1, w[0].0) < (w[1].1, w[1].0));
    }
    assert_eq!(b.decision_parameter(2, 2), 0);
    assert_eq!(b.cell_info(2, 2).unwrap(), "x²+y²−r²  =  0\n(on  circle)");
}

#[test]
fn baseline_circle_default_and_overlay() {
    let mut b = BaselineCircle::default();
    assert_eq!(b.points().len(), 709);
    assert_eq!(b.overlay_circle(), None);
    b.show_smooth_overlay = true;
    assert_eq!(b.overlay_circle(), Some((0, 0, 15)));
}

#[test]
fn scanline_circle_radius_two_spans() {
    let mut s = ScanlineCircle::default();
    assert_eq!(s.name(), "Scanline Circle");
    s.radius = 2;
    s.compute();
    assert_eq!(cells_of(s.points()), vec![(0, 2), (0, -2), (-2, 0), (-1, 0), (0, 0), (1, 0), (2, 0), (-2, 0), (-1, 0), (0, 0), (1, 0), (2, 0), (-1, 2), (0, 2), (1, 2), (-1, -2), (0, -2), (1, -2), (-2, 1), (-1, 1), (0, 1), (1, 1), (2, 1), (-2, -1), (-1, -1), (0, -1), (1, -1), (2, -1)]);
}

#[test]
fn scanline_circle_highlights_repeated_cells() {
    let mut s = ScanlineCircle::default();
    s.radius = 2;
    s.compute();
    assert_eq!(s.point_color_override(0, "red"), None);
    s.show_duplicates = true;
    assert_eq!(s.point_color_override(0, "red"), Some("red"));
    assert_eq!(s.point_color_override(12, "red"), None);
}

#[test]
fn scanline_circle_covers_the_outline() {
    let mut s = ScanlineCircle::default();
    s.center_x = 1;
    s.center_y = 1;
    s.radius = 6;
    s.compute();
    let fill = cells_of(s.points());
    assert_eq!(fill.len(), 168);
    let mut m = MidpointCircle::default();
    m.center_x = 1;
    m.center_y = 1;
    m.radius = 6;
    m.compute();
    for c in cells_of(m.points()) {
        assert!(contains(&fill, c));
    }
    assert_eq!(s.decision_parameter(7, 1), 0);
    assert_eq!(s.cell_info(1, 1).unwrap(), "x²+y²−r²  =  -36\n(inside  circle)");
}

#[test]
fn gap_fill_circle_radius_two_rings() {
    let mut g = GapFillCircle::default();
    assert_eq!(g.name(), "Gap-Fill Circle");
    g.radius = 2;
    g.compute();
    assert_eq!(cells_of(g.points()), vec![(0, 1), (0, 1), (0, -1), (0, -1), (1, 0), (-1, 0), (1, 0), (-1, 0), (0, 2), (0, 2), (0, -2), (0, -2), (2, 0), (-2, 0), (2, 0), (-2, 0), (1, 2), (-1, 2), (1, -2), (-1, -2), (2, 1), (-2, 1), (2, -1), (-2, -1)]);
    assert_eq!(g.point_radii, vec![1, 1, 1, 1, 1, 1, 1, 1, 2, 2, 2, 2, 2, 2, 2, 2, 2, 2, 2, 2, 2, 2, 2, 2]);
    assert_eq!(g.ring_start_indices, vec![0, 8]);
    assert_eq!(g.overlay_circle(), Some((0, 0, 2)));
}

#[test]
fn gap_fill_circle_cell_info_names_step_and_ring() {
    let mut g = GapFillCircle::default();
    g.radius = 2;
    g.compute();
    assert_eq!(g.cell_info(2, 0).unwrap(), "Step 5 (ring 2)");
    assert_eq!(g.cell_info(2, 1).unwrap(), "Step 13 (ring 2)");
    assert_eq!(g.cell_info(0, -1).unwrap(), "Step 3 (ring 1)");
    assert_eq!(g.cell_info(5, 5), None);
}

#[test]
fn gap_fill_circle_colours_by_ring_and_duplicates() {
    let mut g = GapFillCircle::default();
    g.radius = 2;
    g.compute();
    let palette = ["p0", "p1", "p2"];
    assert_eq!(g.point_color_override(0, &palette, "red"), Some("p1"));
    assert_eq!(g.point_color_override(23, &palette, "red"), Some("p2"));
    assert_eq!(g.point_color_override(24, &palette, "red"), None);
    g.show_duplicates = true;
    assert_eq!(g.point_color_override(0, &palette, "red"), Some("red"));
    assert_eq!(g.point_color_override(16, &palette, "red"), Some("p2"));
}

#[test]
fn gap_fill_circle_rings_start_where_recorded() {
    let mut g = GapFillCircle::default();
    g.radius = 5;
    g.compute();
    let ps = cells_of(g.points());
    assert_eq!(g.ring_start_indices, vec![0, 8, 24, 48, 80]);
    assert_eq!(g.point_radii.len(), ps.len());
    for (k, &start) in g.ring_start_indices.iter().enumerate() {
        let r = (k + 1) as i32;
        let mut m = MidpointCircle::default();
        m.radius = r;
        m.compute();
        let ring = cells_of(m.points());
        assert_eq!(&ps[start..start + ring.len()], &ring[..]);
        assert!(g.point_radii[start..start + ring.len()].iter().all(|&l| l == r));
    }
    assert!(g.point_radii.iter().all(|&l| 1 <= l && l <= 5));
}

#[test]
fn sitaraman_fill_circle_radius_three() {
    let mut s = SitaramanFillCircle::default();
    assert_eq!(s.name(), "Sitaraman Fill Circle");
    s.radius = 3;
    s.compute();
    assert_eq!(cells_of(s.points()), vec![(0, 1), (0, 1), (0, -1), (0, -1), (1, 0), (-1, 0), (1, 0), (-1, 0), (1, 1), (-1, 1), (1, -1), (-1, -1), (1, 1), (-1, 1), (1, -1), (-1, -1), (0, 2), (0, 2), (0, -2), (0, -2), (2, 0), (-2, 0), (2, 0), (-2, 0), (1, 2), (-1, 2), (1, -2), (-1, -2), (2, 1), (-2, 1), (2, -1), (-2, -1), (0, 3), (0, 3), (0, -3), (0, -3), (3, 0), (-3, 0), (3, 0), (-3, 0), (1, 3), (-1, 3), (1, -3), (-1, -3), (3, 1), (-3, 1), (3, -1), (-3, -1), (2, 2), (-2, 2), (2, -2), (-2, -2), (2, 2), (-2, 2), (2, -2), (-2, -2), (3, 2), (-3, 2), (3, -2), (-3, -2), (2, 3), (-2, 3), (2, -3), (-2, -3)]);
    assert_eq!(s.point_radii, vec![1, 1, 1, 1, 1, 1, 1, 1, 1, 1, 1, 1, 1, 1, 1, 1, 2, 2, 2, 2, 2, 2, 2, 2, 2, 2, 2, 2, 2, 2, 2, 2, 3, 3, 3, 3, 3, 3, 3, 3, 3, 3, 3, 3, 3, 3, 3, 3, 3, 3, 3, 3, 3, 3, 3, 3, 3, 3, 3, 3, 3, 3, 3, 3]);
    assert_eq!(s.ring_start_indices, vec![0, 16, 32]);
    assert_eq!(s.overlay_circle(), Some((0, 0, 3)));
    let palette = ["p0", "p1", "p2"];
    assert_eq!(s.point_color_override(0, &palette), Some("p1"));
    assert_eq!(s.point_color_override(64, &palette), None);
}

#[test]
fn sitaraman_fill_circle_adds_fill_pixels() {
    let mut s = SitaramanFillCircle::default();
    s.radius = 3;
    s.compute();
    let mut g = GapFillCircle::default();
    g.radius = 3;
    g.compute();
    let fill = cells_of(s.points());
    assert_eq!(fill.len(), 64);
    assert_eq!(cells_of(g.points()).len(), 48);
    for c in cells_of(g.points()) {
        assert!(contains(&fill, c));
    }
}

#[test]
fn filled_midpoint_circle_real_radius_two() {
    let mut f = FilledMidpointCircleReal::default();
    assert_eq!(f.name(), "Filled Midpoint Circle Real");
    f.radius = 2;
    f.compute();
    assert_eq!(cells_of(f.points()), vec![(0, 1), (0, 1), (0, -1), (0, -1), (1, 0), (-1, 0), (1, 0), (-1, 0), (1, 1), (-1, 1), (1, -1), (-1, -1), (1, 1), (-1, 1), (1, -1), (-1, -1), (0, 2), (0, 2), (0, -2), (0, -2), (2, 0), (-2, 0), (2, 0), (-2, 0), (1, 2), (-1, 2), (1, -2), (-1, -2), (2, 1), (-2, 1), (2, -1), (-2, -1)]);
    assert_eq!(f.point_radii, vec![1, 1, 1, 1, 1, 1, 1, 1, 1, 1, 1, 1, 1, 1, 1, 1, 2, 2, 2, 2, 2, 2, 2, 2, 2, 2, 2, 2, 2, 2, 2, 2]);
    let palette: Vec<u8> = (0..12).collect();
    assert_eq!(f.point_color_override(0, &palette), Some(1));
    assert_eq!(f.point_color_override(31, &palette), Some(2));
    assert_eq!(f.point_color_override(32, &palette), None);
}

#[test]
fn filled_midpoint_circle_real_default() {
    let f = FilledMidpointCircleReal::default();
    assert_eq!(f.radius, 15);
    assert_eq!(f.points().len(), 888);
    assert_eq!(f.point_radii.len(), f.points().len());
}

#[test]
fn parallel_midpoint_circle_phases() {
    let mut p = ParallelMidpointCircle::default();
    assert_eq!(p.name(), "Parallel Midpoint Circle");
    p.radius = 5;
    p.center_x = -1;
    let edges = p.edge_points();
    assert_eq!(edges, vec![(0, 5), (1, 5), (2, 5), (3, 4)]);
    assert_eq!(cells_of(&p.generate_octants(1, 5)), vec![(0, 5), (-2, 5), (0, -5), (-2, -5), (4, 1), (-6, 1), (4, -1), (-6, -1)]);
    let mut all = Vec::new();
    for &(x, y) in &edges {
        all.extend(p.generate_octants(x, y));
    }
    p.set_points(all);
    assert_eq!(cells_of(p.points()), vec![(-1, 5), (-1, 5), (-1, -5), (-1, -5), (4, 0), (-6, 0), (4, 0), (-6, 0), (0, 5), (-2, 5), (0, -5), (-2, -5), (4, 1), (-6, 1), (4, -1), (-6, -1), (1, 5), (-3, 5), (1, -5), (-3, -5), (4, 2), (-6, 2), (4, -2), (-6, -2), (2, 4), (-4, 4), (2, -4), (-4, -4), (3, 3), (-5, 3), (3, -3), (-5, -3)]);
    assert_eq!(p.decision_parameter(4, 0), 0);
    assert_eq!(p.cell_info(4, 3).unwrap(), "x²+y²−r²  =  9\n(outside  circle)");
    assert_eq!(p.overlay_circle(), None);
}

#[test]
fn parallel_midpoint_circle_default_matches_midpoint() {
    let p = ParallelMidpointCircle::default();
    let m = MidpointCircle::default();
    assert_eq!(cells_of(p.points()), cells_of(m.points()));
}

#[test]
fn scanline_circle_rows_have_no_holes() {
    let mut s = ScanlineCircle::default();
    s.center_x = -4;
    s.center_y = 3;
    s.radius = 9;
    s.compute();
    let fill = cells_of(s.points());
    for &(x, y) in &fill {
        let w = (x + 4).abs();
        for u in -4 - w..=-4 + w {
            assert!(contains(&fill, (u, y)));
        }
    }
}

#[test]
fn scanline_circle_stays_within_outline() {
    let mut s = ScanlineCircle::default();
    s.center_x = 2;
    s.center_y = -3;
    s.radius = 8;
    s.compute();
    let mut m = MidpointCircle::default();
    m.center_x = 2;
    m.center_y = -3;
    m.radius = 8;
    m.compute();
    let outline = cells_of(m.points());
    for (x, y) in cells_of(s.points()) {
        let w = (x - 2).abs();
        assert!(outline
            .iter()
            .any(|&(ox, oy)| oy == y && (ox - 2).abs() >= w && contains(&outline, (4 - ox, oy))));
    }
}
