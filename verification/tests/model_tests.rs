use spatial_join::{
    Config, Coord, Env, Error, Geom, Interaction, Kind, can_contain_exec, eq_value, is_finite, le,
    max_bits, min_bits, mode_possible, envs_overlap, point_intersects_point, rect_contains_point,
    rect_contains_rect, rect_intersects_rect,
};

fn c(x: f64, y: f64) -> Coord {
    Coord { x: x.to_bits(), y: y.to_bits() }
}

#[test]
fn bit_order_matches_double_order() {
    let samples: Vec<f64> = vec![
        -1.0e300, -7.25, -1.0, -0.5, -0.0, 0.0, 1.0e-308, 0.5, 1.0, 7.25, 1.0e300,
    ];
    for &a in &samples {
        for &b in &samples {
            assert_eq!(le(a.to_bits(), b.to_bits()), a <= b);
            assert_eq!(eq_value(a.to_bits(), b.to_bits()), a == b);
            assert_eq!(f64::from_bits(max_bits(a.to_bits(), b.to_bits())), a.max(b));
            assert_eq!(f64::from_bits(min_bits(a.to_bits(), b.to_bits())), a.min(b));
        }
    }
}

#[test]
fn finiteness_matches_double_finiteness() {
    assert!(is_finite(1.0f64.to_bits()));
    assert!(is_finite((-0.0f64).to_bits()));
    assert!(is_finite(f64::MAX.to_bits()));
    assert!(!is_finite(f64::NAN.to_bits()));
    assert!(!is_finite(f64::INFINITY.to_bits()));
    assert!(!is_finite(f64::NEG_INFINITY.to_bits()));
}

#[test]
fn envelopes_are_exact() {
    let tri = Geom::Triangle(c(0., 5.), c(-3., 1.), c(2., -4.));
    let e = tri.to_env();
    assert_eq!(f64::from_bits(e.min_x), -3.);
    assert_eq!(f64::from_bits(e.max_x), 2.);
    assert_eq!(f64::from_bits(e.min_y), -4.);
    assert_eq!(f64::from_bits(e.max_y), 5.);

    let ls = Geom::LineString(vec![c(1., 1.), c(4., -2.), c(0., 0.)]);
    let e2 = ls.to_env();
    assert_eq!(f64::from_bits(e2.min_x), 0.);
    assert_eq!(f64::from_bits(e2.max_x), 4.);
    assert_eq!(f64::from_bits(e2.min_y), -2.);
    assert_eq!(f64::from_bits(e2.max_y), 1.);

    let a = Env {
        min_x: 0.0f64.to_bits(),
        min_y: 0.0f64.to_bits(),
        max_x: 1.0f64.to_bits(),
        max_y: 1.0f64.to_bits(),
    };
    let b = Env {
        min_x: 1.0f64.to_bits(),
        min_y: 1.0f64.to_bits(),
        max_x: 2.0f64.to_bits(),
        max_y: 2.0f64.to_bits(),
    };
    let d = Env {
        min_x: 1.5f64.to_bits(),
        min_y: 0.0f64.to_bits(),
        max_x: 2.0f64.to_bits(),
        max_y: 1.0f64.to_bits(),
    };
    assert!(envs_overlap(&a, &b));
    assert!(envs_overlap(&b, &a));
    assert!(!envs_overlap(&a, &d));
}

#[test]
fn point_intersection_is_symmetric_and_handles_zeroes() {
    let p1 = c(0.0, 1.0);
    let p2 = c(-0.0, 1.0);
    let p3 = c(2.0, 1.0);
    assert!(point_intersects_point(p1, p2));
    assert!(point_intersects_point(p2, p1));
    assert!(!point_intersects_point(p1, p3));
    assert!(!point_intersects_point(p3, p1));
}

#[test]
fn rectangle_relations_match_their_boundary_rules() {
    let a1 = c(-1., -1.);
    let a2 = c(1., 1.);
    // boundary contact still intersects
    assert!(rect_intersects_rect(a1, a2, c(1., -1.), c(2., 1.)));
    assert!(!rect_intersects_rect(a1, a2, c(1.5, -1.), c(2., 1.)));
    // intersection is symmetric for every sample pair
    let rects = vec![
        (c(-1., -1.), c(1., 1.)),
        (c(0., 0.), c(2., 2.)),
        (c(5., 5.), c(6., 6.)),
        (c(-3., 0.), c(-1., 0.5)),
    ];
    for &(p1, p2) in &rects {
        for &(q1, q2) in &rects {
            assert_eq!(
                rect_intersects_rect(p1, p2, q1, q2),
                rect_intersects_rect(q1, q2, p1, p2)
            );
        }
    }
    // containment includes the boundary for rectangles...
    assert!(rect_contains_rect(a1, a2, c(-1., -1.), c(1., 1.)));
    assert!(rect_contains_rect(a1, a2, c(-0.5, -0.5), c(0.5, 0.5)));
    assert!(!rect_contains_rect(a1, a2, c(-0.5, -0.5), c(1.5, 0.5)));
    // ...but a point on the boundary is not contained
    assert!(rect_contains_point(a1, a2, c(0., 0.)));
    assert!(!rect_contains_point(a1, a2, c(1., 0.)));
    assert!(!rect_contains_point(a1, a2, c(2., 0.)));
}

#[test]
fn containment_table_is_structural() {
    assert!(can_contain_exec(Kind::Point, Kind::Point));
    assert!(!can_contain_exec(Kind::Point, Kind::Line));
    assert!(!can_contain_exec(Kind::Line, Kind::Rect));
    assert!(can_contain_exec(Kind::Line, Kind::LineString));
    assert!(!can_contain_exec(Kind::LineString, Kind::Polygon));
    assert!(can_contain_exec(Kind::Polygon, Kind::Triangle));
    assert!(can_contain_exec(Kind::Rect, Kind::Polygon));
    assert!(can_contain_exec(Kind::Triangle, Kind::Rect));

    assert!(mode_possible(Interaction::Intersects, Kind::Point, Kind::Rect));
    assert!(!mode_possible(Interaction::Contains, Kind::Point, Kind::Rect));
    assert!(mode_possible(Interaction::Within, Kind::Point, Kind::Rect));
}

#[test]
fn bad_max_distance_is_rejected() {
    let neg = Config::new().max_distance((-1.0f64).to_bits());
    assert_eq!(neg.validate(), Some(Error::BadMaxDistance((-1.0f64).to_bits())));
    let nan = Config::new().max_distance(f64::NAN.to_bits());
    assert_eq!(nan.validate(), Some(Error::BadMaxDistance(f64::NAN.to_bits())));
    let inf = Config::new().max_distance(f64::INFINITY.to_bits());
    assert_eq!(inf.validate(), Some(Error::BadMaxDistance(f64::INFINITY.to_bits())));
    let negzero = Config::new().max_distance((-0.0f64).to_bits());
    assert_eq!(negzero.validate(), None);
    let ok = Config::new().max_distance(4.0f64.to_bits());
    assert_eq!(ok.validate(), None);

    let small = vec![Geom::Point(c(1., 1.))];
    let r = neg.serial(&small);
    assert_eq!(r.err(), Some(Error::BadMaxDistance((-1.0f64).to_bits())));
}

#[test]
fn serial_build_rejects_invalid_input_before_indexing() {
    let small = vec![Geom::Point(c(f64::NAN, 0.))];
    let r = Config::new().serial(&small);
    assert_eq!(r.err(), Some(Error::BadCoordinateValue(0, Kind::Point)));
    let ls = vec![Geom::Point(c(0., 0.)), Geom::LineString(vec![c(1., 1.)])];
    let r2 = Config::new().parallel(&ls);
    assert_eq!(r2.err(), Some(Error::LineStringTooSmall(1)));
}
