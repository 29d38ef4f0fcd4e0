use spatial_join::{
    Config, Coord, Env, EnvTable, Geom, Interaction, Kind, ParSpatialIndex, ProxMapRow, Request,
    SJoinRow, SpatialIndex, SplitGeoSeq, point_intersects_point, rect_contains_rect,
};

fn c(x: f64, y: f64) -> Coord {
    Coord { x: x.to_bits(), y: y.to_bits() }
}

fn point(x: f64, y: f64) -> Geom {
    Geom::Point(c(x, y))
}

fn rect(x1: f64, y1: f64, x2: f64, y2: f64) -> Geom {
    Geom::Rect(c(x1, y1), c(x2, y2))
}

fn buffer(e: Env, d: f64) -> Env {
    Env {
        min_x: (f64::from_bits(e.min_x) - d).to_bits(),
        min_y: (f64::from_bits(e.min_y) - d).to_bits(),
        max_x: (f64::from_bits(e.max_x) + d).to_bits(),
        max_y: (f64::from_bits(e.max_y) + d).to_bits(),
    }
}

fn buffered_envs(bucket: &Vec<Geom>, d: f64) -> Vec<Env> {
    bucket.iter().map(|g| buffer(g.to_env(), d)).collect()
}

fn buffered_table(sp: &SplitGeoSeq, d: f64) -> EnvTable {
    EnvTable {
        points: buffered_envs(&sp.geos.points, d),
        lines: buffered_envs(&sp.geos.lines, d),
        polys: buffered_envs(&sp.geos.polys, d),
        line_strings: buffered_envs(&sp.geos.line_strings, d),
        rects: buffered_envs(&sp.geos.rects, d),
        tris: buffered_envs(&sp.geos.tris, d),
    }
}

fn build_index(small: &Vec<Geom>, max_distance: f64) -> SpatialIndex {
    let sp = SplitGeoSeq::try_from(small).expect("small side partitions");
    let table = buffered_table(&sp, max_distance);
    let config = Config::new().max_distance(max_distance.to_bits());
    assert!(config.validate().is_none());
    SpatialIndex::with_envelopes(sp, table, config)
}

fn build_par_index(small: &Vec<Geom>, max_distance: f64) -> ParSpatialIndex {
    let sp = SplitGeoSeq::par_try_from(small).expect("small side partitions");
    let table = buffered_table(&sp, max_distance);
    let config = Config::new().max_distance(max_distance.to_bits());
    ParSpatialIndex(SpatialIndex::with_envelopes(sp, table, config))
}

fn geom_at(sgs: &SplitGeoSeq, kind: Kind, local: usize) -> Geom {
    sgs.bucket_ref(kind)[local].clone()
}

fn point_xy(g: &Geom) -> (f64, f64) {
    match g {
        Geom::Point(p) => (f64::from_bits(p.x), f64::from_bits(p.y)),
        _ => panic!("expected a point"),
    }
}

fn point_distances(idx: &SpatialIndex, big: &SplitGeoSeq, reqs: &Vec<Request>) -> Vec<u64> {
    reqs.iter()
        .map(|q| {
            let (sx, sy) = point_xy(&geom_at(&idx.small, q.small_kind, q.small_local));
            let (bx, by) = point_xy(&geom_at(big, q.big_kind, q.big_local));
            ((bx - sx).powi(2) + (by - sy).powi(2)).sqrt().to_bits()
        })
        .collect()
}

fn point_eq_verdicts(idx: &SpatialIndex, big: &SplitGeoSeq, reqs: &Vec<Request>) -> Vec<bool> {
    reqs.iter()
        .map(|q| {
            match (
                geom_at(&idx.small, q.small_kind, q.small_local),
                geom_at(big, q.big_kind, q.big_local),
            ) {
                (Geom::Point(a), Geom::Point(b)) => point_intersects_point(a, b),
                _ => panic!("expected points"),
            }
        })
        .collect()
}

fn sorted_pairs(rows: &Vec<SJoinRow>) -> Vec<(usize, usize)> {
    let mut v: Vec<(usize, usize)> = rows.iter().map(|r| (r.big_index, r.small_index)).collect();
    v.sort();
    v
}

fn sorted_prox(rows: &Vec<ProxMapRow>) -> Vec<(usize, usize, f64)> {
    let mut v: Vec<(usize, usize)> = rows.iter().map(|r| (r.big_index, r.small_index)).collect();
    v.sort();
    let mut out = Vec::new();
    for (b, s) in v {
        let d = rows
            .iter()
            .find(|r| r.big_index == b && r.small_index == s)
            .map(|r| f64::from_bits(r.distance))
            .unwrap();
        out.push((b, s, d));
    }
    out
}

#[test]
fn simple_index_self() {
    let small = vec![point(1., 1.)];
    let big = vec![point(1., 1.)];
    let idx = build_index(&small, 4.);
    let bp = SplitGeoSeq::try_from(&big).expect("big side partitions");
    let reqs = idx.proximity_requests(&bp);
    let dists = point_distances(&idx, &bp, &reqs);
    let rows = idx.proximity_map(&reqs, &dists);
    assert_eq!(sorted_prox(&rows), vec![(0, 0, 0.0)]);

    let pidx = build_par_index(&small, 4.);
    let pbp = SplitGeoSeq::par_try_from(&big).expect("big side partitions");
    let preqs = pidx.proximity_requests(&pbp);
    let pdists = point_distances(&pidx.0, &pbp, &preqs);
    let prows = pidx.proximity_map(&preqs, &pdists);
    assert_eq!(sorted_prox(&prows), vec![(0, 0, 0.0)]);
}

#[test]
fn self_spatial_join_pair() {
    let pts = vec![point(1., 1.), point(22., 22.)];
    let idx = Config::new().serial(&pts).expect("index builds");
    let bp = SplitGeoSeq::try_from(&pts).expect("big side partitions");
    let reqs = idx.join_requests(&bp, Interaction::Intersects);
    let verdicts = point_eq_verdicts(&idx, &bp, &reqs);
    let rows = idx.spatial_join(&reqs, &verdicts);
    assert_eq!(sorted_pairs(&rows), vec![(0, 0), (1, 1)]);

    let pidx = Config::new().parallel(&pts).expect("index builds");
    let preqs = pidx.join_requests(&bp, Interaction::Intersects);
    let pverdicts = point_eq_verdicts(&pidx.0, &bp, &preqs);
    let prows = pidx.spatial_join(&preqs, &pverdicts);
    assert_eq!(sorted_pairs(&prows), vec![(0, 0), (1, 1)]);
}

#[test]
fn simple_index_some_other() {
    let small = vec![point(1., 1.)];
    let big = vec![point(2., 1.)];
    let idx = build_index(&small, 4.);
    let bp = SplitGeoSeq::try_from(&big).expect("big side partitions");
    let reqs = idx.proximity_requests(&bp);
    let dists = point_distances(&idx, &bp, &reqs);
    let rows = idx.proximity_map(&reqs, &dists);
    assert_eq!(sorted_prox(&rows), vec![(0, 0, 1.0)]);
}

#[test]
fn simple_index_none() {
    let small = vec![point(1., 1.)];
    let big = vec![point(2., 1.)];
    let idx = build_index(&small, 0.5);
    let bp = SplitGeoSeq::try_from(&big).expect("big side partitions");
    let reqs = idx.proximity_requests(&bp);
    let dists = point_distances(&idx, &bp, &reqs);
    let rows = idx.proximity_map(&reqs, &dists);
    assert_eq!(rows.len(), 0);
}

#[test]
fn rect_contains_smaller_rect() {
    let small = vec![rect(-1., -1., 1., 1.)];
    let big = vec![rect(-0.5, -0.5, 0.5, 0.5)];
    let idx = Config::new().serial(&small).expect("index builds");
    let bp = SplitGeoSeq::try_from(&big).expect("big side partitions");
    let reqs = idx.join_requests(&bp, Interaction::Contains);
    let verdicts: Vec<bool> = reqs
        .iter()
        .map(|q| {
            match (
                geom_at(&idx.small, q.small_kind, q.small_local),
                geom_at(&bp, q.big_kind, q.big_local),
            ) {
                (Geom::Rect(a1, a2), Geom::Rect(b1, b2)) => rect_contains_rect(a1, a2, b1, b2),
                _ => panic!("expected rectangles"),
            }
        })
        .collect();
    let rows = idx.spatial_join(&reqs, &verdicts);
    assert_eq!(sorted_pairs(&rows), vec![(0, 0)]);
}

#[test]
fn contains_equals_within_with_sides_swapped() {
    let outer = vec![rect(-1., -1., 1., 1.)];
    let inner = vec![rect(-0.5, -0.5, 0.5, 0.5)];
    let idx_outer = Config::new().serial(&outer).expect("index builds");
    let idx_inner = Config::new().serial(&inner).expect("index builds");
    let bp_inner = SplitGeoSeq::try_from(&inner).expect("partition");
    let bp_outer = SplitGeoSeq::try_from(&outer).expect("partition");

    // Contains: the small (outer) side contains the big (inner) side.
    let reqs1 = idx_outer.join_requests(&bp_inner, Interaction::Contains);
    let verdicts1: Vec<bool> = reqs1
        .iter()
        .map(|q| {
            match (
                geom_at(&idx_outer.small, q.small_kind, q.small_local),
                geom_at(&bp_inner, q.big_kind, q.big_local),
            ) {
                (Geom::Rect(a1, a2), Geom::Rect(b1, b2)) => rect_contains_rect(a1, a2, b1, b2),
                _ => panic!("expected rectangles"),
            }
        })
        .collect();
    let rows1 = idx_outer.spatial_join(&reqs1, &verdicts1);

    // Within with the sides swapped: the big (outer) side contains the
    // small (inner) side.
    let reqs2 = idx_inner.join_requests(&bp_outer, Interaction::Within);
    let verdicts2: Vec<bool> = reqs2
        .iter()
        .map(|q| {
            match (
                geom_at(&bp_outer, q.big_kind, q.big_local),
                geom_at(&idx_inner.small, q.small_kind, q.small_local),
            ) {
                (Geom::Rect(a1, a2), Geom::Rect(b1, b2)) => rect_contains_rect(a1, a2, b1, b2),
                _ => panic!("expected rectangles"),
            }
        })
        .collect();
    let rows2 = idx_inner.spatial_join(&reqs2, &verdicts2);

    let swapped: Vec<(usize, usize)> =
        sorted_pairs(&rows2).iter().map(|&(b, s)| (s, b)).collect();
    assert_eq!(sorted_pairs(&rows1), swapped);
    assert_eq!(sorted_pairs(&rows1), vec![(0, 0)]);
}

#[test]
fn geometry_attached_rows_carry_the_inputs() {
    let small = vec![point(1., 1.)];
    let big = vec![point(1., 1.)];
    let idx = Config::new().serial(&small).expect("index builds");
    let bp = SplitGeoSeq::try_from(&big).expect("partition");
    let reqs = idx.join_requests(&bp, Interaction::Intersects);
    let verdicts = point_eq_verdicts(&idx, &bp, &reqs);
    let rows = idx.spatial_join_with_geos(&bp, &reqs, &verdicts);
    assert_eq!(rows.len(), 1);
    assert_eq!(rows[0].big_index, 0);
    assert_eq!(rows[0].small_index, 0);
    assert_eq!(rows[0].big, point(1., 1.));
    assert_eq!(rows[0].small, point(1., 1.));

    let d = 0.0f64.to_bits();
    let prows = idx.proximity_map_with_geos(&bp, &reqs, &vec![d; reqs.len()]);
    assert_eq!(prows.len(), 1);
    assert_eq!(prows[0].distance, d);
    assert_eq!(prows[0].big, point(1., 1.));
}

#[test]
fn mixed_kinds_recover_original_positions() {
    // buckets interleave: the engine must map bucket-local hits back to
    // the original positions on both sides
    let small = vec![point(0., 0.), rect(-1., -1., 1., 1.), point(5., 5.)];
    let big = vec![rect(4., 4., 6., 6.), point(0.5, 0.5)];
    let idx = Config::new().serial(&small).expect("index builds");
    let bp = SplitGeoSeq::try_from(&big).expect("partition");
    let reqs = idx.join_requests(&bp, Interaction::Intersects);
    let verdicts: Vec<bool> = reqs
        .iter()
        .map(|q| {
            let s = geom_at(&idx.small, q.small_kind, q.small_local);
            let b = geom_at(&bp, q.big_kind, q.big_local);
            match (s, b) {
                (Geom::Point(a), Geom::Point(c2)) => point_intersects_point(a, c2),
                (Geom::Rect(a1, a2), Geom::Rect(b1, b2)) => {
                    spatial_join::rect_intersects_rect(a1, a2, b1, b2)
                }
                (Geom::Rect(a1, a2), Geom::Point(p)) => {
                    spatial_join::rect_contains_point(a1, a2, p)
                }
                (Geom::Point(p), Geom::Rect(b1, b2)) => {
                    spatial_join::rect_contains_point(b1, b2, p)
                }
                _ => panic!("unexpected kinds"),
            }
        })
        .collect();
    let rows = idx.spatial_join(&reqs, &verdicts);
    // the engine's visit order: the big point bucket comes before the big
    // rectangle bucket, so the rows arrive in exactly this order
    let in_order: Vec<(usize, usize)> =
        rows.iter().map(|r| (r.big_index, r.small_index)).collect();
    assert_eq!(in_order, vec![(1, 1), (0, 2)]);
    assert_eq!(sorted_pairs(&rows), vec![(0, 2), (1, 1)]);
}

#[test]
fn structural_shortcut_skips_impossible_containment() {
    // a point can never contain a rectangle, so a Contains join from a
    // point side to a rectangle side asks nothing and reports nothing,
    // even though the envelopes overlap
    let small = vec![point(0., 0.)];
    let big = vec![rect(-1., -1., 1., 1.)];
    let idx = Config::new().serial(&small).expect("index builds");
    let bp = SplitGeoSeq::try_from(&big).expect("partition");
    let reqs = idx.join_requests(&bp, Interaction::Contains);
    assert_eq!(reqs.len(), 0);
    let reqs_within = idx.join_requests(&bp, Interaction::Within);
    assert_eq!(reqs_within.len(), 1);
}
