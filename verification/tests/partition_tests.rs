use spatial_join::{Coord, Geom, Kind, Error, Indexes, SplitGeoSeq};

fn c(x: f64, y: f64) -> Coord {
    Coord { x: x.to_bits(), y: y.to_bits() }
}

fn point(x: f64, y: f64) -> Geom {
    Geom::Point(c(x, y))
}

fn line(x1: f64, y1: f64, x2: f64, y2: f64) -> Geom {
    Geom::Line(c(x1, y1), c(x2, y2))
}

fn poly(ext: &[(f64, f64)]) -> Geom {
    Geom::Polygon {
        exterior: ext.iter().map(|&(x, y)| c(x, y)).collect(),
        interiors: Vec::new(),
    }
}

#[test]
fn from_geos() {
    let pt = point(1.1, 2.2);
    let ln1 = line(0., 0., 1., 1.);
    let ln2 = line(2., 2., 1., 1.);
    let pg = poly(&[(0., 0.), (1., 1.), (1., 0.), (0., 0.)]);
    let geos = vec![pt.clone(), ln1.clone(), pg.clone(), ln2.clone()];
    let result = SplitGeoSeq::try_from(&geos).expect("partition succeeds");
    assert_eq!(result.geos.points, vec![pt]);
    assert_eq!(result.geos.lines, vec![ln1, ln2]);
    assert_eq!(result.geos.polys, vec![pg]);
    assert_eq!(result.geos.line_strings, Vec::<Geom>::new());
    assert_eq!(result.geos.rects, Vec::<Geom>::new());
    assert_eq!(result.geos.tris, Vec::<Geom>::new());
    assert_eq!(result.indexes.points, Indexes::Range { start: 0, end: 1 });
    assert_eq!(result.indexes.lines, Indexes::Explicit(vec![1, 3]));
    // a contiguous single-element run is held in canonical range form
    assert_eq!(result.indexes.polys, Indexes::Range { start: 2, end: 3 });
    assert_eq!(result.indexes.line_strings, Indexes::Range { start: 0, end: 0 });
    assert_eq!(result.indexes.rects, Indexes::Range { start: 0, end: 0 });
    assert_eq!(result.indexes.tris, Indexes::Range { start: 0, end: 0 });
}

#[test]
fn from_points() {
    let pts = vec![point(1.1, 2.2), point(1.1, 2.2), point(1.1, 2.2)];
    let result = SplitGeoSeq::try_from(&pts).expect("partition succeeds");
    assert_eq!(result.geos.points, pts);
    assert_eq!(result.indexes.points, Indexes::Range { start: 0, end: 3 });
    assert_eq!(result.geos.lines, Vec::<Geom>::new());
    assert_eq!(result.indexes.lines, Indexes::Range { start: 0, end: 0 });
}

#[test]
fn partition_roundtrip_reproduces_input() {
    let geos = vec![
        line(0., 0., 2., 2.),
        point(5., 5.),
        poly(&[(0., 0.), (3., 0.), (3., 3.)]),
        Geom::LineString(vec![c(0., 0.), c(1., 0.), c(2., 1.)]),
        point(-1., -2.),
        Geom::Rect(c(-1., -1.), c(1., 1.)),
        Geom::Triangle(c(0., 0.), c(1., 0.), c(0., 1.)),
        point(7., 8.),
    ];
    let parted = SplitGeoSeq::try_from(&geos).expect("partition succeeds");
    let rebuilt = parted.to_vec();
    assert_eq!(rebuilt, geos);
}

#[test]
fn parallel_build_matches_direct_build() {
    let mut geos = Vec::new();
    for i in 0..97 {
        let f = i as f64;
        match i % 4 {
            0 => geos.push(point(f, f + 0.5)),
            1 => geos.push(line(f, 0., f + 1., 1.)),
            2 => geos.push(Geom::Rect(c(f, f), c(f + 1., f + 1.))),
            _ => geos.push(Geom::Triangle(c(f, 0.), c(f + 1., 0.), c(f, 1.))),
        }
    }
    let direct = SplitGeoSeq::try_from(&geos).expect("direct build");
    let par = SplitGeoSeq::par_try_from(&geos).expect("chunked build");
    // both paths produce canonical position sets, so the whole values agree
    assert_eq!(direct, par);
    assert_eq!(par.to_vec(), geos);
}

#[test]
fn merge_is_associative_over_chunks() {
    let mut geos = Vec::new();
    for i in 0..12 {
        let f = i as f64;
        if i % 3 == 0 {
            geos.push(point(f, f));
        } else {
            geos.push(line(f, f, f + 1., f + 1.));
        }
    }
    let a = SplitGeoSeq::chunk_partition(&geos, 0, 4).expect("chunk a");
    let b = SplitGeoSeq::chunk_partition(&geos, 4, 8).expect("chunk b");
    let c1 = SplitGeoSeq::chunk_partition(&geos, 8, 12).expect("chunk c");
    let a2 = SplitGeoSeq::chunk_partition(&geos, 0, 4).expect("chunk a again");
    let b2 = SplitGeoSeq::chunk_partition(&geos, 4, 8).expect("chunk b again");
    let c2 = SplitGeoSeq::chunk_partition(&geos, 8, 12).expect("chunk c again");
    let left = SplitGeoSeq::merge(SplitGeoSeq::merge(a, b), c1);
    let right = SplitGeoSeq::merge(a2, SplitGeoSeq::merge(b2, c2));
    assert_eq!(left, right);
    assert_eq!(left.to_vec(), geos);
}

#[test]
fn first_invalid_element_wins() {
    let geos = vec![
        point(0., 0.),
        Geom::LineString(vec![c(1., 1.)]),
        point(f64::NAN, 0.),
    ];
    let r = SplitGeoSeq::try_from(&geos);
    assert_eq!(r, Err(Error::LineStringTooSmall(1)));
    let rp = SplitGeoSeq::par_try_from(&geos);
    assert_eq!(rp, Err(Error::LineStringTooSmall(1)));
}

#[test]
fn nan_coordinate_is_rejected_with_position_and_kind() {
    let geos = vec![point(f64::NAN, 0.)];
    assert_eq!(
        SplitGeoSeq::try_from(&geos),
        Err(Error::BadCoordinateValue(0, Kind::Point))
    );
    let geos2 = vec![point(0., 0.), line(0., 0., f64::INFINITY, 1.)];
    assert_eq!(
        SplitGeoSeq::try_from(&geos2),
        Err(Error::BadCoordinateValue(1, Kind::Line))
    );
}

#[test]
fn short_line_string_is_rejected() {
    let geos = vec![point(0., 0.), Geom::LineString(vec![c(1., 1.)])];
    assert_eq!(SplitGeoSeq::try_from(&geos), Err(Error::LineStringTooSmall(1)));
}

#[test]
fn small_polygon_exterior_is_rejected() {
    let geos = vec![poly(&[(0., 0.), (1., 1.)])];
    assert_eq!(SplitGeoSeq::try_from(&geos), Err(Error::PolygonExteriorTooSmall(0)));
}

#[test]
fn polygon_with_bad_interior_ring_names_the_polygon() {
    let bad = Geom::Polygon {
        exterior: vec![c(0., 0.), c(4., 0.), c(4., 4.), c(0., 4.)],
        interiors: vec![vec![c(1., 1.)]],
    };
    let geos = vec![point(0., 0.), bad];
    assert_eq!(
        SplitGeoSeq::try_from(&geos),
        Err(Error::BadCoordinateValue(1, Kind::Polygon))
    );
}

#[test]
fn indexes_push_get_and_offsets() {
    let mut idx = Indexes::new();
    idx.push(3);
    idx.push(4);
    idx.push(9);
    assert_eq!(idx, Indexes::Explicit(vec![3, 4, 9]));
    assert_eq!(idx.get(0), 3);
    assert_eq!(idx.get(2), 9);
    idx.add_offset(10);
    assert_eq!(idx, Indexes::Explicit(vec![13, 14, 19]));
    assert_eq!(idx.iter(), vec![13, 14, 19]);

    let mut contiguous = Indexes::Explicit(vec![5, 6, 7]);
    contiguous.canonicalize();
    assert_eq!(contiguous, Indexes::Range { start: 5, end: 8 });

    let mut range = Indexes::new();
    range.push(0);
    range.push(1);
    assert_eq!(range, Indexes::Range { start: 0, end: 2 });
    assert_eq!(range.into_iter(), vec![0, 1]);
}

#[test]
fn indexes_merge_in_either_order() {
    let a = Indexes::Range { start: 0, end: 3 };
    let b = Indexes::Explicit(vec![5, 7]);
    let merged = a.merge(b);
    assert_eq!(merged, Indexes::Explicit(vec![0, 1, 2, 5, 7]));

    let a2 = Indexes::Explicit(vec![5, 7]);
    let b2 = Indexes::Range { start: 0, end: 3 };
    let merged2 = a2.merge(b2);
    assert_eq!(merged2, Indexes::Explicit(vec![0, 1, 2, 5, 7]));

    // adjacent ranges collapse back to one range
    let r1 = Indexes::Range { start: 0, end: 3 };
    let r2 = Indexes::Range { start: 3, end: 6 };
    assert_eq!(r1.merge(r2), Indexes::Range { start: 0, end: 6 });

    // a contiguous explicit union collapses too
    let e1 = Indexes::Explicit(vec![2, 3]);
    let e2 = Indexes::Explicit(vec![4, 5]);
    assert_eq!(e1.merge(e2), Indexes::Range { start: 2, end: 6 });
}
