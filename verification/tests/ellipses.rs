use midpoint_foundry::algorithms::ellipse::ellipse_base::EllipseBase;
use midpoint_foundry::algorithms::ellipse::gap_fill_ellipse::GapFillEllipse;
use midpoint_foundry::algorithms::ellipse::midpoint_ellipse::MidpointEllipse;
use midpoint_foundry::algorithms::ellipse::own_fill_ellipse::OwnFillEllipse;
use midpoint_foundry::algorithms::ellipse::virtual_fill_ellipse::VirtualFillEllipse;
use midpoint_foundry::algorithms::ellipse_walk::midpoint_quadrant;
use midpoint_foundry::algorithms::gap_fill_ellipse::GapFillEllipse as PlainGapFillEllipse;
use midpoint_foundry::algorithms::roland_fill_ellipse::RolandFillEllipse;
use midpoint_foundry::algorithms::roland_walk::{roland_walk, round_quarter_exec};
use midpoint_foundry::algorithms::virtual_walk::virtual_quadrant;
use midpoint_foundry::algorithms::Point;

fn cells_of(ps: &[Point]) -> Vec<(i32, i32)> {
    ps.iter().map(|p| (p.x, p.y)).collect()
}

fn contains(ps: &[(i32, i32)], c: (i32, i32)) -> bool {
    ps.iter().any(|&p| p == c)
}

fn wide(q: &[(i64, i64)]) -> Vec<(i32, i32)> {
    q.iter().map(|&(x, y)| (x as i32, y as i32)).collect()
}

#[test]
fn ellipse_walks_on_small_radii() {
    assert_eq!(wide(&midpoint_quadrant(3, 2)), vec![(0, 2), (1, 2), (2, 1), (3, 0)]);
    assert_eq!(wide(&midpoint_quadrant(5, 3)), vec![(0, 3), (1, 3), (2, 3), (3, 2), (4, 2), (5, 1), (5, 0)]);
    assert_eq!(wide(&midpoint_quadrant(2, 6)), vec![(0, 6), (1, 5), (1, 4), (2, 3), (2, 2), (2, 1), (2, 0)]);
    assert_eq!(wide(&roland_walk(5, 3, false)), vec![(0, 3), (1, 3), (2, 3), (3, 2), (4, 2), (5, 1), (5, 0)]);
    assert_eq!(wide(&roland_walk(5, 3, true)), vec![(0, 3), (1, 3), (2, 3), (3, 3), (3, 2), (4, 2), (5, 2), (5, 1), (5, 0)]);
    assert_eq!(wide(&roland_walk(2, 6, true)), vec![(0, 6), (1, 6), (1, 5), (1, 4), (1, 3), (2, 3), (2, 2), (2, 1), (2, 0)]);
    assert_eq!(wide(&virtual_quadrant(5, 3)), vec![(0, 3), (1, 3), (2, 3), (3, 2), (4, 2), (5, 1), (5, 0)]);
    assert_eq!(wide(&virtual_quadrant(2, 6)), vec![(0, 6), (1, 6), (1, 5), (1, 4), (2, 3), (2, 2), (2, 1), (2, 0)]);
}

#[test]
fn round_quarter_rounds_halves_away_from_zero() {
    assert_eq!(round_quarter_exec(5), 1);
    assert_eq!(round_quarter_exec(6), 2);
    assert_eq!(round_quarter_exec(7), 2);
    assert_eq!(round_quarter_exec(2), 1);
    assert_eq!(round_quarter_exec(1), 0);
    assert_eq!(round_quarter_exec(0), 0);
    assert_eq!(round_quarter_exec(-1), 0);
    assert_eq!(round_quarter_exec(-2), -1);
    assert_eq!(round_quarter_exec(-6), -2);
    assert_eq!(round_quarter_exec(-7), -2);
}

#[test]
fn midpoint_ellipse_four_by_three() {
    let mut m = MidpointEllipse::default();
    assert_eq!(m.name(), "Midpoint Ellipse");
    assert_eq!(m.category(), "ellipse");
    m.base.center_x = 1;
    m.base.center_y = -1;
    m.base.radius_x = 4;
    m.base.radius_y = 3;
    assert!(m.base.point_rings.is_empty());
    m.compute();
    assert_eq!(cells_of(m.points()), vec![(1, 2), (1, 2), (1, -4), (1, -4), (2, 2), (0, 2), (2, -4), (0, -4), (3, 2), (-1, 2), (3, -4), (-1, -4), (4, 1), (-2, 1), (4, -3), (-2, -3), (5, 0), (-3, 0), (5, -2), (-3, -2), (5, -1), (-3, -1), (5, -1), (-3, -1)]);
    assert!(m.base.point_rings.is_empty());
    m.base.point_rings = vec![1; m.points().len()];
    m.compute();
    assert!(m.base.point_rings.is_empty());
}

#[test]
fn midpoint_ellipse_default_and_shape() {
    let m = MidpointEllipse::default();
    let ps = cells_of(m.points());
    assert_eq!(ps.len(), 148);
    assert_eq!(&ps[..8], &[(0, 20), (0, 20), (0, -20), (0, -20), (1, 20), (-1, 20), (1, -20), (-1, -20)]);
    for &(x, y) in &ps {
        assert!(-30 <= x && x <= 30 && -20 <= y && y <= 20);
        assert!(contains(&ps, (-x, y)));
        assert!(contains(&ps, (x, -y)));
    }
    assert_eq!(m.overlay_ellipse(), None);
}

#[test]
fn midpoint_ellipse_cell_info_and_overlay() {
    let mut m = MidpointEllipse::default();
    m.base.radius_x = 3;
    m.base.radius_y = 2;
    m.compute();
    assert_eq!(m.base.decision_parameter(3, 0), 0);
    assert_eq!(m.base.decision_parameter(0, 0), -36);
    assert_eq!(m.base.decision_parameter(3, 2), 36);
    assert_eq!(m.cell_info(3, 0).unwrap(), "b²x²+a²y²−a²b² = 0\n(on  ellipse)");
    assert_eq!(m.cell_info(0, 0).unwrap(), "b²x²+a²y²−a²b² = -36\n(inside  ellipse)");
    assert_eq!(m.cell_info(3, 2).unwrap(), "b²x²+a²y²−a²b² = 36\n(outside  ellipse)");
    m.base.show_smooth_overlay = true;
    assert_eq!(m.overlay_ellipse(), Some((0, 0, 3, 2)));
}

#[test]
fn gap_fill_ellipse_rings() {
    let mut g = GapFillEllipse::default();
    assert_eq!(g.name(), "Gap-Fill Ellipse");
    assert_eq!(g.category(), "ellipse");
    g.base.radius_x = 4;
    g.base.radius_y = 3;
    g.compute();
    assert_eq!(cells_of(g.points()), vec![(0, 3), (0, 3), (0, -3), (0, -3), (1, 3), (-1, 3), (1, -3), (-1, -3), (2, 3), (-2, 3), (2, -3), (-2, -3), (3, 2), (-3, 2), (3, -2), (-3, -2), (4, 1), (-4, 1), (4, -1), (-4, -1), (4, 0), (-4, 0), (4, 0), (-4, 0), (0, 2), (0, 2), (0, -2), (0, -2), (1, 2), (-1, 2), (1, -2), (-1, -2), (2, 1), (-2, 1), (2, -1), (-2, -1), (3, 0), (-3, 0), (3, 0), (-3, 0), (0, 1), (0, 1), (0, -1), (0, -1), (1, 1), (-1, 1), (1, -1), (-1, -1), (2, 0), (-2, 0), (2, 0), (-2, 0)]);
    assert_eq!(g.base.point_rings, vec![1, 1, 1, 1, 1, 1, 1, 1, 1, 1, 1, 1, 1, 1, 1, 1, 1, 1, 1, 1, 1, 1, 1, 1, 2, 2, 2, 2, 2, 2, 2, 2, 2, 2, 2, 2, 2, 2, 2, 2, 3, 3, 3, 3, 3, 3, 3, 3, 3, 3, 3, 3]);
    assert!(g.base.point_rings.iter().all(|&r| 1 <= r && r <= 3));
}

#[test]
fn gap_fill_ellipse_colours_and_duplicates() {
    let mut g = GapFillEllipse::default();
    g.base.radius_x = 4;
    g.base.radius_y = 3;
    g.compute();
    let palette: Vec<u8> = (0..7).collect();
    assert_eq!(g.point_color_override(0, &palette, 99), Some(1));
    assert_eq!(g.point_color_override(52, &palette, 99), None);
    g.base.show_duplicates = true;
    assert_eq!(g.point_color_override(0, &palette, 99), Some(99));
    g.base.refresh_duplicate_cache();
    assert_eq!(g.point_color_override(0, &palette, 99), Some(99));
    assert_eq!(g.point_color_override(4, &palette, 99), Some(1));
    g.base.invalidate_cache();
    assert_eq!(g.base.duplicate_cache, None);
}

#[test]
fn plain_gap_fill_ellipse_rings() {
    let mut g = PlainGapFillEllipse::default();
    assert_eq!(g.name(), "Gap-Fill Ellipse");
    g.center_x = 2;
    g.center_y = 1;
    g.radius_x = 5;
    g.radius_y = 3;
    g.compute();
    assert_eq!(cells_of(g.points()), vec![(2, 4), (2, 4), (2, -2), (2, -2), (3, 4), (1, 4), (3, -2), (1, -2), (4, 4), (0, 4), (4, -2), (0, -2), (5, 3), (-1, 3), (5, -1), (-1, -1), (6, 3), (-2, 3), (6, -1), (-2, -1), (7, 2), (-3, 2), (7, 0), (-3, 0), (7, 1), (-3, 1), (7, 1), (-3, 1), (2, 3), (2, 3), (2, -1), (2, -1), (3, 3), (1, 3), (3, -1), (1, -1), (4, 3), (0, 3), (4, -1), (0, -1), (5, 2), (-1, 2), (5, 0), (-1, 0), (6, 1), (-2, 1), (6, 1), (-2, 1), (2, 2), (2, 2), (2, 0), (2, 0), (3, 2), (1, 2), (3, 0), (1, 0), (4, 2), (0, 2), (4, 0), (0, 0), (5, 1), (-1, 1), (5, 1), (-1, 1)]);
    assert_eq!(g.point_rings, vec![1, 1, 1, 1, 1, 1, 1, 1, 1, 1, 1, 1, 1, 1, 1, 1, 1, 1, 1, 1, 1, 1, 1, 1, 1, 1, 1, 1, 2, 2, 2, 2, 2, 2, 2, 2, 2, 2, 2, 2, 2, 2, 2, 2, 2, 2, 2, 2, 3, 3, 3, 3, 3, 3, 3, 3, 3, 3, 3, 3, 3, 3, 3, 3]);
    let palette = ["a", "b", "c"];
    assert_eq!(g.point_color_override(0, &palette, "red"), Some("b"));
}

#[test]
fn roland_fill_ellipse_rings() {
    let mut r = RolandFillEllipse::default();
    assert_eq!(r.name(), "Roland Fill Ellipse");
    r.radius_x = 4;
    r.radius_y = 3;
    r.compute();
    assert_eq!(cells_of(r.points()), vec![(0, 3), (0, 3), (0, -3), (0, -3), (1, 3), (-1, 3), (1, -3), (-1, -3), (2, 3), (-2, 3), (2, -3), (-2, -3), (3, 2), (-3, 2), (3, -2), (-3, -2), (4, 1), (-4, 1), (4, -1), (-4, -1), (4, 0), (-4, 0), (4, 0), (-4, 0), (0, 2), (0, 2), (0, -2), (0, -2), (1, 2), (-1, 2), (1, -2), (-1, -2), (2, 1), (-2, 1), (2, -1), (-2, -1), (3, 0), (-3, 0), (3, 0), (-3, 0), (0, 1), (0, 1), (0, -1), (0, -1), (1, 1), (-1, 1), (1, -1), (-1, -1), (2, 0), (-2, 0), (2, 0), (-2, 0)]);
    assert_eq!(r.point_rings, vec![1, 1, 1, 1, 1, 1, 1, 1, 1, 1, 1, 1, 1, 1, 1, 1, 1, 1, 1, 1, 1, 1, 1, 1, 2, 2, 2, 2, 2, 2, 2, 2, 2, 2, 2, 2, 2, 2, 2, 2, 3, 3, 3, 3, 3, 3, 3, 3, 3, 3, 3, 3]);
    let palette: Vec<u8> = (0..12).collect();
    assert_eq!(r.point_color_override(0, &palette), Some(1));
    assert_eq!(r.point_color_override(52, &palette), None);
}

#[test]
fn roland_fill_ellipse_default() {
    let r = RolandFillEllipse::default();
    assert_eq!((r.radius_x, r.radius_y), (30, 20));
    assert_eq!(r.points().len(), 1928);
    assert_eq!(r.point_rings.len(), r.points().len());
    assert!(r.point_rings.iter().all(|&l| 1 <= l && l <= 20));
}

#[test]
fn own_fill_ellipse_rings_and_middle_row() {
    let mut o = OwnFillEllipse::default();
    assert_eq!(o.name(), "Own Fill Ellipse");
    assert_eq!(o.category(), "ellipse");
    o.base.radius_x = 4;
    o.base.radius_y = 3;
    o.compute();
    assert_eq!(cells_of(o.points()), vec![(0, 3), (0, 3), (0, -3), (0, -3), (1, 3), (-1, 3), (1, -3), (-1, -3), (2, 3), (-2, 3), (2, -3), (-2, -3), (3, 3), (-3, 3), (3, -3), (-3, -3), (3, 2), (-3, 2), (3, -2), (-3, -2), (4, 2), (-4, 2), (4, -2), (-4, -2), (4, 1), (-4, 1), (4, -1), (-4, -1), (4, 0), (-4, 0), (4, 0), (-4, 0), (0, 2), (0, 2), (0, -2), (0, -2), (1, 2), (-1, 2), (1, -2), (-1, -2), (2, 2), (-2, 2), (2, -2), (-2, -2), (2, 1), (-2, 1), (2, -1), (-2, -1), (3, 1), (-3, 1), (3, -1), (-3, -1), (3, 0), (-3, 0), (3, 0), (-3, 0), (0, 1), (0, 1), (0, -1), (0, -1), (1, 1), (-1, 1), (1, -1), (-1, -1), (2, 1), (-2, 1), (2, -1), (-2, -1), (2, 0), (-2, 0), (2, 0), (-2, 0), (-2, 0), (-1, 0), (0, 0), (1, 0), (2, 0)]);
    assert_eq!(o.base.point_rings, vec![1, 1, 1, 1, 1, 1, 1, 1, 1, 1, 1, 1, 1, 1, 1, 1, 1, 1, 1, 1, 1, 1, 1, 1, 1, 1, 1, 1, 1, 1, 1, 1, 2, 2, 2, 2, 2, 2, 2, 2, 2, 2, 2, 2, 2, 2, 2, 2, 2, 2, 2, 2, 2, 2, 2, 2, 3, 3, 3, 3, 3, 3, 3, 3, 3, 3, 3, 3, 3, 3, 3, 3, 4, 4, 4, 4, 4]);
}

#[test]
fn own_fill_ellipse_middle_row_through_center() {
    let mut o = OwnFillEllipse::default();
    o.base.center_x = 5;
    o.base.center_y = -4;
    o.base.radius_x = 4;
    o.base.radius_y = 3;
    o.compute();
    let ps = cells_of(o.points());
    assert_eq!(ps, vec![(5, -1), (5, -1), (5, -7), (5, -7), (6, -1), (4, -1), (6, -7), (4, -7), (7, -1), (3, -1), (7, -7), (3, -7), (8, -1), (2, -1), (8, -7), (2, -7), (8, -2), (2, -2), (8, -6), (2, -6), (9, -2), (1, -2), (9, -6), (1, -6), (9, -3), (1, -3), (9, -5), (1, -5), (9, -4), (1, -4), (9, -4), (1, -4), (5, -2), (5, -2), (5, -6), (5, -6), (6, -2), (4, -2), (6, -6), (4, -6), (7, -2), (3, -2), (7, -6), (3, -6), (7, -3), (3, -3), (7, -5), (3, -5), (8, -3), (2, -3), (8, -5), (2, -5), (8, -4), (2, -4), (8, -4), (2, -4), (5, -3), (5, -3), (5, -5), (5, -5), (6, -3), (4, -3), (6, -5), (4, -5), (7, -3), (3, -3), (7, -5), (3, -5), (7, -4), (3, -4), (7, -4), (3, -4), (3, -4), (4, -4), (5, -4), (6, -4), (7, -4)]);
    assert_eq!(&ps[ps.len() - 5..], &[(3, -4), (4, -4), (5, -4), (6, -4), (7, -4)]);
    assert_eq!(o.base.point_rings.len(), ps.len());
}

#[test]
fn bridged_rings_cover_plain_rings() {
    let mut o = OwnFillEllipse::default();
    o.base.radius_x = 9;
    o.base.radius_y = 6;
    o.compute();
    let mut r = RolandFillEllipse::default();
    r.radius_x = 9;
    r.radius_y = 6;
    r.compute();
    let bridged = cells_of(o.points());
    let plain = cells_of(r.points());
    assert!(bridged.len() > plain.len());
    for c in plain {
        assert!(contains(&bridged, c));
    }
}

#[test]
fn own_fill_ellipse_ring_description_terms() {
    let mut o = OwnFillEllipse::default();
    o.base.radius_x = 4;
    o.base.radius_y = 3;
    o.compute();
    assert_eq!(o.base.ring_at_cell(4, 0), Some(1));
    assert_eq!(o.base.cell_info_ring_base(4, 0), Some((0, 4, 4, 3)));
    assert_eq!(o.base.ring_at_cell(0, 0), Some(4));
    assert_eq!(o.base.cell_info_ring_base(0, 0), Some((3, 0, 1, 0)));
    assert_eq!(o.base.ring_at_cell(40, 40), None);
    assert_eq!(o.base.cell_info_ring_base(40, 40), None);
}

#[test]
fn virtual_fill_ellipse_rings() {
    let mut v = VirtualFillEllipse::default();
    assert_eq!(v.name(), "Virtual Fill Ellipse");
    assert_eq!(v.category(), "ellipse");
    v.radius_x = 4;
    v.radius_y = 3;
    v.compute();
    assert_eq!(cells_of(v.points()), vec![(0, 3), (0, 3), (0, -3), (0, -3), (1, 3), (-1, 3), (1, -3), (-1, -3), (2, 3), (-2, 3), (2, -3), (-2, -3), (3, 2), (-3, 2), (3, -2), (-3, -2), (4, 1), (-4, 1), (4, -1), (-4, -1), (4, 0), (-4, 0), (4, 0), (-4, 0), (0, 2), (0, 2), (0, -2), (0, -2), (1, 2), (-1, 2), (1, -2), (-1, -2), (2, 2), (-2, 2), (2, -2), (-2, -2), (2, 1), (-2, 1), (2, -1), (-2, -1), (3, 0), (-3, 0), (3, 0), (-3, 0), (0, 1), (0, 1), (0, -1), (0, -1), (1, 1), (-1, 1), (1, -1), (-1, -1), (2, 0), (-2, 0), (2, 0), (-2, 0)]);
    assert_eq!(v.point_rings, vec![1, 1, 1, 1, 1, 1, 1, 1, 1, 1, 1, 1, 1, 1, 1, 1, 1, 1, 1, 1, 1, 1, 1, 1, 2, 2, 2, 2, 2, 2, 2, 2, 2, 2, 2, 2, 2, 2, 2, 2, 2, 2, 2, 2, 3, 3, 3, 3, 3, 3, 3, 3, 3, 3, 3, 3]);
    let palette: Vec<u8> = (0..12).collect();
    assert_eq!(v.point_color_override(0, &palette), Some(1));
    assert_eq!(v.point_color_override(56, &palette), None);
}

#[test]
fn virtual_rings_cover_midpoint_rings() {
    let mut v = VirtualFillEllipse::default();
    v.radius_x = 9;
    v.radius_y = 6;
    v.compute();
    let mut g = GapFillEllipse::default();
    g.base.radius_x = 9;
    g.base.radius_y = 6;
    g.compute();
    let bridged = cells_of(v.points());
    for c in cells_of(g.points()) {
        assert!(contains(&bridged, c));
    }
    assert!(v.point_rings.iter().all(|&l| 1 <= l && l <= 6));
}

#[test]
fn virtual_fill_ellipse_default() {
    let v = VirtualFillEllipse::default();
    assert_eq!(v.points().len(), 1928);
}

#[test]
fn ellipse_base_helpers() {
    let mut b = EllipseBase::new(1, 2, 3, 4);
    assert_eq!((b.center_x, b.center_y, b.radius_x, b.radius_y), (1, 2, 3, 4));
    assert!(b.points.is_empty() && b.point_rings.is_empty());
    assert_eq!(b.overlay_ellipse_base(), None);
    b.plot_symmetric(2, 1, 7);
    assert_eq!(cells_of(&b.points), vec![(3, 3), (-1, 3), (3, 1), (-1, 1)]);
    assert_eq!(b.point_rings, vec![7, 7, 7, 7]);
    let palette = ["a", "b", "c"];
    assert_eq!(b.ring_color(0, &palette), Some("b"));
    assert_eq!(b.ring_color(4, &palette), None);
    assert_eq!(b.duplicate_color(0, Some("x"), "red"), Some("x"));
    b.plot_symmetric(2, 1, 7);
    b.show_duplicates = true;
    assert_eq!(b.duplicate_color(0, Some("x"), "red"), Some("red"));
    assert_eq!(b.cell_info_base(1, 6).unwrap(), "b²x²+a²y²−a²b² = 0\n(on  ellipse)");
}
