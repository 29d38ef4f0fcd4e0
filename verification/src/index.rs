//! The join engine.
//!
//! A `SpatialIndex` holds the partitioned small side together with one
//! envelope list per type bucket.  A join streams the big side bucket by
//! bucket: each big element's envelope is held against every stored
//! envelope, and each surviving pair becomes a request that names both
//! elements by bucket and by original position.  The exact geometric
//! predicates run outside this crate on the numeric coordinate values;
//! their verdicts (or computed distances) come back positionally, and the
//! verified selection step turns them into result rows.  The engine
//! proves that the request list holds exactly the envelope-overlapping,
//! structurally possible pairs, once each and in the engine's strict
//! visit order, so no pair is lost, duplicated, reordered between runs,
//! or tied to the wrong original position.  The filter holds each big
//! envelope against every stored envelope; a bounding-volume tree would
//! prune that scan but carries floating-point bounds, so the plain scan
//! is the verified form — it answers with the same candidate set.

use vstd::prelude::*;
use crate::bits::{le_bits, finite_bits, is_finite, le};
use crate::envelope::{Env, env_of, env_overlap, envs_overlap, has_coords,
    lemma_env_overlap_symmetric};
use crate::geoms::{Geom, GView, Kind};
use crate::partition::{SplitGeoSeq, is_partition_of, chunk_kind_ok, positions_of, shifted,
    views_of, all_valid, geoms_of, lemma_positions_props, lemma_positions_contains,
    lemma_shifted_props};
use crate::relates::{possible, mode_possible};
use crate::structs::{Config, Error, Interaction, SJoinRow, SJoinGeoRow, ProxMapRow, ProxMapGeoRow};

verus! {

/// One envelope list per type bucket of the small side.
#[derive(Clone, PartialEq, Debug)]
pub struct EnvTable {
    pub points: Vec<Env>,
    pub lines: Vec<Env>,
    pub polys: Vec<Env>,
    pub line_strings: Vec<Env>,
    pub rects: Vec<Env>,
    pub tris: Vec<Env>,
}

impl EnvTable {
    /// The envelope list of the bucket of kind `k`.
    pub open spec fn at(&self, k: Kind) -> Seq<Env> {
        match k {
            Kind::Point => self.points@,
            Kind::Line => self.lines@,
            Kind::LineString => self.line_strings@,
            Kind::Polygon => self.polys@,
            Kind::Rect => self.rects@,
            Kind::Triangle => self.tris@,
        }
    }
}

/// A prebuilt index over the small side: its partition, one envelope
/// list per bucket, and the configuration it was built with.
#[derive(Clone, PartialEq, Debug)]
pub struct SpatialIndex {
    pub small: SplitGeoSeq,
    pub envs: EnvTable,
    pub config: Config,
}

/// The chunked-construction variant of the index: the same engine over a
/// partition built chunk by chunk; queries run the same verified logic.
pub struct ParSpatialIndex(pub SpatialIndex);

/// One candidate pair: a big element and a small element whose envelopes
/// overlap, named by bucket coordinates and by original positions.
#[derive(Clone, Copy, PartialEq, Eq, Structural, Debug)]
pub struct Request {
    pub big_index: usize,
    pub small_index: usize,
    pub big_kind: Kind,
    pub big_local: usize,
    pub small_kind: Kind,
    pub small_local: usize,
}

/// One side of a join is usable: position sets are well-formed, each
/// bucket is as long as its position set, and every element has at least
/// one coordinate to bound.
pub open spec fn side_kind_wf(p: SplitGeoSeq, k: Kind) -> bool {
    &&& p.idx_spec(k).wf()
    &&& p.idx_spec(k).seq().len() == p.bucket_spec(k).len()
    &&& forall|j: int| 0 <= j < p.bucket_spec(k).len() ==> has_coords(#[trigger] p.bucket_spec(k)[j]@)
}

pub open spec fn side_wf(p: SplitGeoSeq) -> bool {
    forall|k: Kind| #[trigger] side_kind_wf(p, k)
}

impl SpatialIndex {
    /// The envelope list of the bucket of kind `k`.
    pub open spec fn envs_spec(&self, k: Kind) -> Seq<Env> {
        match k {
            Kind::Point => self.envs.points@,
            Kind::Line => self.envs.lines@,
            Kind::LineString => self.envs.line_strings@,
            Kind::Polygon => self.envs.polys@,
            Kind::Rect => self.envs.rects@,
            Kind::Triangle => self.envs.tris@,
        }
    }

    /// Well-formed: the small side is usable and every bucket has one
    /// stored envelope per element.
    pub open spec fn wf(&self) -> bool {
        &&& side_wf(self.small)
        &&& forall|k: Kind|
            (#[trigger] self.envs_spec(k)).len() == self.small.bucket_spec(k).len()
    }

    /// The stored envelopes are exactly the computed envelopes of the
    /// small elements (the unbuffered form, used when the distance
    /// threshold is zero).
    pub open spec fn raw_envelopes(&self) -> bool {
        forall|k: Kind, j: int|
            0 <= j < self.envs_spec(k).len() ==> #[trigger] self.envs_spec(k)[j] == env_of(
                self.small.bucket_spec(k)[j]@,
            )
    }

    fn envs_ref(&self, k: Kind) -> (r: &Vec<Env>)
        ensures
            r@ == self.envs_spec(k),
    {
        match k {
            Kind::Point => &self.envs.points,
            Kind::Line => &self.envs.lines,
            Kind::LineString => &self.envs.line_strings,
            Kind::Polygon => &self.envs.polys,
            Kind::Rect => &self.envs.rects,
            Kind::Triangle => &self.envs.tris,
        }
    }
}

/// The envelopes of every element of a bucket, in bucket order.
fn envs_of_bucket(bucket: &Vec<Geom>) -> (r: Vec<Env>)
    requires
        forall|j: int| 0 <= j < bucket@.len() ==> has_coords(#[trigger] bucket@[j]@),
    ensures
        r@.len() == bucket@.len(),
        forall|j: int| 0 <= j < bucket@.len() ==> #[trigger] r@[j] == env_of(bucket@[j]@),
{
    let n: usize = bucket.len();
    let mut r: Vec<Env> = Vec::new();
    let mut j: usize = 0;
    while j < n
        invariant
            0 <= j <= n,
            n == bucket@.len(),
            r@.len() == j,
            forall|j0: int| 0 <= j0 < n ==> has_coords(#[trigger] bucket@[j0]@),
            forall|j0: int| 0 <= j0 < j ==> #[trigger] r@[j0] == env_of(bucket@[j0]@),
        decreases n - j,
    {
        let e: Env = bucket[j].to_env();
        r.push(e);
        j = j + 1;
    }
    r
}

impl SplitGeoSeq {
    /// One computed envelope list per bucket: the envelope of every
    /// element, in bucket order (the unbuffered form, stored as-is when
    /// the distance threshold is zero).
    pub fn to_env_table(&self) -> (r: EnvTable)
        requires
            side_wf(*self),
        ensures
            forall|k: Kind| (#[trigger] r.at(k)).len() == self.bucket_spec(k).len(),
            forall|k: Kind, j: int|
                0 <= j < r.at(k).len() ==> #[trigger] r.at(k)[j] == env_of(
                    self.bucket_spec(k)[j]@,
                ),
    {
        proof {
            assert(side_kind_wf(*self, Kind::Point));
            assert(side_kind_wf(*self, Kind::Line));
            assert(side_kind_wf(*self, Kind::LineString));
            assert(side_kind_wf(*self, Kind::Polygon));
            assert(side_kind_wf(*self, Kind::Rect));
            assert(side_kind_wf(*self, Kind::Triangle));
        }
        let r = EnvTable {
            points: envs_of_bucket(&self.geos.points),
            lines: envs_of_bucket(&self.geos.lines),
            polys: envs_of_bucket(&self.geos.polys),
            line_strings: envs_of_bucket(&self.geos.line_strings),
            rects: envs_of_bucket(&self.geos.rects),
            tris: envs_of_bucket(&self.geos.tris),
        };
        proof {
            assert forall|k: Kind| (#[trigger] r.at(k)).len() == self.bucket_spec(k).len() by {
                assert(side_kind_wf(*self, k));
            }
            assert forall|k: Kind, j: int|
                0 <= j < r.at(k).len() implies #[trigger] r.at(k)[j] == env_of(
                self.bucket_spec(k)[j]@,
            ) by {
                assert(side_kind_wf(*self, k));
            }
        }
        r
    }
}

impl SpatialIndex {
    /// Builds an index over a partitioned small side, computing each
    /// element's envelope (no buffering; the form used when the distance
    /// threshold is zero).
    pub fn new(small: SplitGeoSeq, config: Config) -> (r: SpatialIndex)
        requires
            side_wf(small),
        ensures
            r.small == small,
            r.config == config,
            r.wf(),
            r.raw_envelopes(),
    {
        let envs = small.to_env_table();
        let r = SpatialIndex { small, envs, config };
        proof {
            assert forall|k: Kind| (#[trigger] r.envs_spec(k)).len() == r.small.bucket_spec(
                k,
            ).len() by {
                assert(r.envs_spec(k) == r.envs.at(k));
            }
            assert forall|k: Kind, j: int|
                0 <= j < r.envs_spec(k).len() implies #[trigger] r.envs_spec(k)[j] == env_of(
                r.small.bucket_spec(k)[j]@,
            ) by {
                assert(r.envs_spec(k) == r.envs.at(k));
                assert(r.envs.at(k)[j] == env_of(r.small.bucket_spec(k)[j]@));
            }
        }
        r
    }

    /// Builds an index over a partitioned small side from envelopes
    /// supplied by the caller — typically the computed envelopes expanded
    /// on every side by the distance threshold, so that one overlap query
    /// answers proximity filtering as well.
    pub fn with_envelopes(small: SplitGeoSeq, envs: EnvTable, config: Config) -> (r: SpatialIndex)
        requires
            side_wf(small),
            envs.points@.len() == small.bucket_spec(Kind::Point).len(),
            envs.lines@.len() == small.bucket_spec(Kind::Line).len(),
            envs.line_strings@.len() == small.bucket_spec(Kind::LineString).len(),
            envs.polys@.len() == small.bucket_spec(Kind::Polygon).len(),
            envs.rects@.len() == small.bucket_spec(Kind::Rect).len(),
            envs.tris@.len() == small.bucket_spec(Kind::Triangle).len(),
        ensures
            r.small == small,
            r.envs == envs,
            r.config == config,
            r.wf(),
    {
        let r = SpatialIndex { small, envs, config };
        proof {
            assert forall|k: Kind| (#[trigger] r.envs_spec(k)).len() == r.small.bucket_spec(
                k,
            ).len() by {
                match k {
                    Kind::Point => {},
                    Kind::Line => {},
                    Kind::LineString => {},
                    Kind::Polygon => {},
                    Kind::Rect => {},
                    Kind::Triangle => {},
                }
            }
        }
        r
    }
}

/// The order in which a join visits the big-side buckets.
pub open spec fn big_rank(k: Kind) -> int {
    match k {
        Kind::Point => 0,
        Kind::Line => 1,
        Kind::Rect => 2,
        Kind::Triangle => 3,
        Kind::Polygon => 4,
        Kind::LineString => 5,
    }
}

/// The order in which each big element visits the small-side buckets.
pub open spec fn small_rank(k: Kind) -> int {
    match k {
        Kind::Point => 0,
        Kind::Line => 1,
        Kind::Polygon => 2,
        Kind::LineString => 3,
        Kind::Rect => 4,
        Kind::Triangle => 5,
    }
}

/// The engine's strict visit order on requests: big-bucket type order,
/// then input order within the big bucket, then small-bucket type order,
/// then stored order.  Being strict, it also says that no two requests
/// name the same pair of bucket coordinates.
pub open spec fn req_before(a: Request, b: Request) -> bool {
    ||| big_rank(a.big_kind) < big_rank(b.big_kind)
    ||| (a.big_kind == b.big_kind && a.big_local < b.big_local)
    ||| (a.big_kind == b.big_kind && a.big_local == b.big_local && small_rank(a.small_kind)
        < small_rank(b.small_kind))
    ||| (a.big_kind == b.big_kind && a.big_local == b.big_local && a.small_kind == b.small_kind
        && a.small_local < b.small_local)
}

/// A candidate pair exists at these bucket coordinates: both sides in
/// bounds, the pair structurally possible for the mode, and the big
/// element's envelope overlapping the stored small envelope.
pub open spec fn cand_ok(
    idx: SpatialIndex,
    big: SplitGeoSeq,
    mode: Interaction,
    bk: Kind,
    bi: int,
    sk: Kind,
    si: int,
) -> bool {
    &&& 0 <= bi < big.bucket_spec(bk).len()
    &&& 0 <= si < idx.envs_spec(sk).len()
    &&& possible(mode, sk, bk)
    &&& env_overlap(env_of(big.bucket_spec(bk)[bi]@), idx.envs_spec(sk)[si])
}

/// A request is sound: its bucket coordinates name a candidate pair and
/// its position fields are those recorded for the two elements.
pub open spec fn req_ok(
    idx: SpatialIndex,
    big: SplitGeoSeq,
    mode: Interaction,
    q: Request,
) -> bool {
    &&& cand_ok(idx, big, mode, q.big_kind, q.big_local as int, q.small_kind, q.small_local as int)
    &&& q.big_index as int == big.idx_spec(q.big_kind).seq()[q.big_local as int]
    &&& q.small_index as int == idx.small.idx_spec(q.small_kind).seq()[q.small_local as int]
}

/// The request list holds an entry for these bucket coordinates.
pub open spec fn has_req(reqs: Seq<Request>, bk: Kind, bi: int, sk: Kind, si: int) -> bool {
    exists|i: int|
        0 <= i < reqs.len() && (#[trigger] reqs[i]).big_kind == bk && reqs[i].big_local == bi
            && reqs[i].small_kind == sk && reqs[i].small_local == si
}

/// A longer request list with the same prefix keeps every entry.
proof fn lemma_has_req_mono(a: Seq<Request>, b: Seq<Request>, bk: Kind, bi: int, sk: Kind, si: int)
    requires
        a.len() <= b.len(),
        forall|i: int| 0 <= i < a.len() ==> #[trigger] b[i] == a[i],
        has_req(a, bk, bi, sk, si),
    ensures
        has_req(b, bk, bi, sk, si),
{
    let i = choose|i: int|
        0 <= i < a.len() && (#[trigger] a[i]).big_kind == bk && a[i].big_local == bi
            && a[i].small_kind == sk && a[i].small_local == si;
    assert((b[i]).big_kind == bk && b[i].big_local == bi && b[i].small_kind == sk
        && b[i].small_local == si);
}

/// Scans one small bucket against one big element, appending a request
/// for every stored envelope the element's envelope overlaps; a bucket
/// that is structurally impossible for the mode is skipped whole.
fn scan_small(
    idx: &SpatialIndex,
    mode: Interaction,
    sk: Kind,
    bk: Kind,
    benv: Env,
    big_index: usize,
    big_local: usize,
    out: &mut Vec<Request>,
    Ghost(big): Ghost<SplitGeoSeq>,
)
    requires
        idx.wf(),
        0 <= (big_local as int) < big.bucket_spec(bk).len(),
        benv == env_of(big.bucket_spec(bk)[big_local as int]@),
        big_index as int == big.idx_spec(bk).seq()[big_local as int],
    ensures
        final(out)@.len() >= old(out)@.len(),
        forall|i: int| 0 <= i < old(out)@.len() ==> #[trigger] final(out)@[i] == old(out)@[i],
        forall|i: int|
            old(out)@.len() <= i < final(out)@.len() ==> req_ok(
                *idx,
                big,
                mode,
                #[trigger] final(out)@[i],
            ),
        forall|i: int|
            old(out)@.len() <= i < final(out)@.len() ==> (#[trigger] final(out)@[i]).big_kind == bk
                && final(out)@[i].big_local == big_local && final(out)@[i].small_kind == sk,
        forall|i: int, j: int|
            old(out)@.len() <= i < j < final(out)@.len() ==> (#[trigger] final(out)@[i]).small_local
                < (#[trigger] final(out)@[j]).small_local,
        forall|si: int|
            #[trigger] cand_ok(*idx, big, mode, bk, big_local as int, sk, si) ==> has_req(
                final(out)@,
                bk,
                big_local as int,
                sk,
                si,
            ),
{
    if !mode_possible(mode, sk, bk) {
        return ;
    }
    let envs: &Vec<Env> = idx.envs_ref(sk);
    let n: usize = envs.len();
    let ghost base = out@.len() as int;
    let mut si: usize = 0;
    while si < n
        invariant
            0 <= si <= n,
            n == idx.envs_spec(sk).len(),
            envs@ == idx.envs_spec(sk),
            idx.wf(),
            possible(mode, sk, bk),
            0 <= (big_local as int) < big.bucket_spec(bk).len(),
            benv == env_of(big.bucket_spec(bk)[big_local as int]@),
            big_index as int == big.idx_spec(bk).seq()[big_local as int],
            out@.len() >= base,
            base == old(out)@.len(),
            forall|i: int| 0 <= i < base ==> #[trigger] out@[i] == old(out)@[i],
            forall|i: int|
                base <= i < out@.len() ==> req_ok(*idx, big, mode, #[trigger] out@[i]),
            forall|i: int|
                base <= i < out@.len() ==> (#[trigger] out@[i]).big_kind == bk
                    && out@[i].big_local == big_local && out@[i].small_kind == sk
                    && out@[i].small_local < si,
            forall|i: int, j: int|
                base <= i < j < out@.len() ==> (#[trigger] out@[i]).small_local
                    < (#[trigger] out@[j]).small_local,
            forall|si0: int|
                0 <= si0 < si && env_overlap(benv, idx.envs_spec(sk)[si0]) ==> #[trigger] has_req(
                    out@,
                    bk,
                    big_local as int,
                    sk,
                    si0,
                ),
        decreases n - si,
    {
        let e: Env = envs[si];
        if envs_overlap(&benv, &e) {
            proof {
                assert(side_kind_wf(idx.small, sk));
            }
            let small_index: usize = idx.small.idx_ref(sk).get(si);
            let ghost before_push = out@;
            out.push(
                Request {
                    big_index,
                    small_index,
                    big_kind: bk,
                    big_local,
                    small_kind: sk,
                    small_local: si,
                },
            );
            proof {
                assert forall|si0: int|
                    0 <= si0 < si + 1 && env_overlap(benv, idx.envs_spec(sk)[si0])
                    implies #[trigger] has_req(out@, bk, big_local as int, sk, si0) by {
                    if si0 < si as int {
                        assert(has_req(before_push, bk, big_local as int, sk, si0));
                        lemma_has_req_mono(before_push, out@, bk, big_local as int, sk, si0);
                    } else {
                        assert(out@[out@.len() - 1].small_local == si0);
                    }
                }
            }
        }
        si = si + 1;
    }
    proof {
        assert forall|si0: int|
            #[trigger] cand_ok(*idx, big, mode, bk, big_local as int, sk, si0) implies has_req(
            out@,
            bk,
            big_local as int,
            sk,
            si0,
        ) by {
            assert(env_overlap(benv, idx.envs_spec(sk)[si0]));
        }
    }
}

/// Scans one big bucket: each element's envelope is held against all six
/// small buckets in small-bucket type order.
fn scan_big(
    idx: &SpatialIndex,
    big: &SplitGeoSeq,
    mode: Interaction,
    bk: Kind,
    out: &mut Vec<Request>,
)
    requires
        idx.wf(),
        side_kind_wf(*big, bk),
    ensures
        final(out)@.len() >= old(out)@.len(),
        forall|i: int| 0 <= i < old(out)@.len() ==> #[trigger] final(out)@[i] == old(out)@[i],
        forall|i: int|
            old(out)@.len() <= i < final(out)@.len() ==> req_ok(
                *idx,
                *big,
                mode,
                #[trigger] final(out)@[i],
            ),
        forall|i: int|
            old(out)@.len() <= i < final(out)@.len() ==> (#[trigger] final(out)@[i]).big_kind
                == bk,
        forall|i: int, j: int|
            old(out)@.len() <= i < j < final(out)@.len() ==> req_before(
                #[trigger] final(out)@[i],
                #[trigger] final(out)@[j],
            ),
        forall|bi: int, sk: Kind, si: int|
            #[trigger] cand_ok(*idx, *big, mode, bk, bi, sk, si) ==> has_req(
                final(out)@,
                bk,
                bi,
                sk,
                si,
            ),
{
    let bucket: &Vec<Geom> = big.bucket_ref(bk);
    let n: usize = bucket.len();
    let ghost base = out@.len() as int;
    let mut bi: usize = 0;
    while bi < n
        invariant
            0 <= bi <= n,
            n == big.bucket_spec(bk).len(),
            bucket@ == big.bucket_spec(bk),
            idx.wf(),
            side_kind_wf(*big, bk),
            out@.len() >= base,
            base == old(out)@.len(),
            forall|i: int| 0 <= i < base ==> #[trigger] out@[i] == old(out)@[i],
            forall|i: int|
                base <= i < out@.len() ==> req_ok(*idx, *big, mode, #[trigger] out@[i]),
            forall|i: int|
                base <= i < out@.len() ==> (#[trigger] out@[i]).big_kind == bk
                    && out@[i].big_local < bi,
            forall|i: int, j: int|
                base <= i < j < out@.len() ==> req_before(#[trigger] out@[i], #[trigger] out@[j]),
            forall|bi0: int, sk: Kind, si: int|
                0 <= bi0 < bi && #[trigger] cand_ok(*idx, *big, mode, bk, bi0, sk, si) ==> has_req(
                    out@,
                    bk,
                    bi0,
                    sk,
                    si,
                ),
        decreases n - bi,
    {
        let benv: Env = bucket[bi].to_env();
        let big_index: usize = big.idx_ref(bk).get(bi);
        let ghost at_start = out@;
        scan_small(idx, mode, Kind::Point, bk, benv, big_index, bi, out, Ghost(*big));
        let ghost g1 = out@;
        scan_small(idx, mode, Kind::Line, bk, benv, big_index, bi, out, Ghost(*big));
        let ghost g2 = out@;
        scan_small(idx, mode, Kind::Polygon, bk, benv, big_index, bi, out, Ghost(*big));
        let ghost g3 = out@;
        scan_small(idx, mode, Kind::LineString, bk, benv, big_index, bi, out, Ghost(*big));
        let ghost g4 = out@;
        scan_small(idx, mode, Kind::Rect, bk, benv, big_index, bi, out, Ghost(*big));
        let ghost g5 = out@;
        scan_small(idx, mode, Kind::Triangle, bk, benv, big_index, bi, out, Ghost(*big));
        proof {
            assert forall|bi0: int, sk: Kind, si: int|
                0 <= bi0 < bi + 1 && #[trigger] cand_ok(*idx, *big, mode, bk, bi0, sk, si)
                implies has_req(out@, bk, bi0, sk, si) by {
                if bi0 < bi as int {
                    lemma_has_req_mono(at_start, out@, bk, bi0, sk, si);
                } else {
                    match sk {
                        Kind::Point => {
                            lemma_has_req_mono(g1, out@, bk, bi0, sk, si);
                        },
                        Kind::Line => {
                            lemma_has_req_mono(g2, out@, bk, bi0, sk, si);
                        },
                        Kind::Polygon => {
                            lemma_has_req_mono(g3, out@, bk, bi0, sk, si);
                        },
                        Kind::LineString => {
                            lemma_has_req_mono(g4, out@, bk, bi0, sk, si);
                        },
                        Kind::Rect => {
                            lemma_has_req_mono(g5, out@, bk, bi0, sk, si);
                        },
                        Kind::Triangle => {},
                    }
                }
            }
            let l0 = at_start.len() as int;
            let l1 = g1.len() as int;
            let l2 = g2.len() as int;
            let l3 = g3.len() as int;
            let l4 = g4.len() as int;
            let l5 = g5.len() as int;
            let l6 = out@.len() as int;
            assert forall|i: int| 0 <= i < l0 implies #[trigger] out@[i] == at_start[i] by {
                assert(out@[i] == g5[i]);
                assert(g5[i] == g4[i]);
                assert(g4[i] == g3[i]);
                assert(g3[i] == g2[i]);
                assert(g2[i] == g1[i]);
            }
            assert forall|i: int|
                l0 <= i < l6 implies (#[trigger] out@[i]).big_kind == bk && out@[i].big_local == bi
                    && small_rank(out@[i].small_kind) == (if i < l1 {
                    0int
                } else if i < l2 {
                    1int
                } else if i < l3 {
                    2int
                } else if i < l4 {
                    3int
                } else if i < l5 {
                    4int
                } else {
                    5int
                }) by {
                if i < l1 {
                    assert(out@[i] == g1[i]);
                } else if i < l2 {
                    assert(out@[i] == g2[i]);
                } else if i < l3 {
                    assert(out@[i] == g3[i]);
                } else if i < l4 {
                    assert(out@[i] == g4[i]);
                } else if i < l5 {
                    assert(out@[i] == g5[i]);
                }
            }
            assert forall|i: int, j: int|
                l0 <= i < j < l6 implies req_before(#[trigger] out@[i], #[trigger] out@[j]) by {
                if j < l1 {
                    assert(out@[i] == g1[i]);
                    assert(out@[j] == g1[j]);
                } else if l1 <= i && j < l2 {
                    assert(out@[i] == g2[i]);
                    assert(out@[j] == g2[j]);
                } else if l2 <= i && j < l3 {
                    assert(out@[i] == g3[i]);
                    assert(out@[j] == g3[j]);
                } else if l3 <= i && j < l4 {
                    assert(out@[i] == g4[i]);
                    assert(out@[j] == g4[j]);
                } else if l4 <= i && j < l5 {
                    assert(out@[i] == g5[i]);
                    assert(out@[j] == g5[j]);
                }
            }
        }
        bi = bi + 1;
    }
}

impl SpatialIndex {
    /// Computes the candidate requests of a join: exactly the pairs
    /// whose envelopes overlap and whose kinds the mode can relate at
    /// all, each carrying the original positions of its two elements.
    /// The list is strictly ordered by the engine's visit order — big
    /// buckets in type order, within each bucket in input order, then
    /// small buckets in type order and stored order — so no pair appears
    /// twice, and equal inputs give equal lists.
    pub fn join_requests(&self, big: &SplitGeoSeq, mode: Interaction) -> (r: Vec<Request>)
        requires
            self.wf(),
            side_wf(*big),
        ensures
            forall|i: int| 0 <= i < r@.len() ==> req_ok(*self, *big, mode, #[trigger] r@[i]),
            forall|i: int, j: int|
                0 <= i < j < r@.len() ==> req_before(#[trigger] r@[i], #[trigger] r@[j]),
            forall|bk: Kind, bi: int, sk: Kind, si: int|
                #[trigger] cand_ok(*self, *big, mode, bk, bi, sk, si) ==> has_req(
                    r@,
                    bk,
                    bi,
                    sk,
                    si,
                ),
    {
        proof {
            assert(side_kind_wf(*big, Kind::Point));
            assert(side_kind_wf(*big, Kind::Line));
            assert(side_kind_wf(*big, Kind::Rect));
            assert(side_kind_wf(*big, Kind::Triangle));
            assert(side_kind_wf(*big, Kind::Polygon));
            assert(side_kind_wf(*big, Kind::LineString));
        }
        let mut out: Vec<Request> = Vec::new();
        scan_big(self, big, mode, Kind::Point, &mut out);
        let ghost g1 = out@;
        scan_big(self, big, mode, Kind::Line, &mut out);
        let ghost g2 = out@;
        scan_big(self, big, mode, Kind::Rect, &mut out);
        let ghost g3 = out@;
        scan_big(self, big, mode, Kind::Triangle, &mut out);
        let ghost g4 = out@;
        scan_big(self, big, mode, Kind::Polygon, &mut out);
        let ghost g5 = out@;
        scan_big(self, big, mode, Kind::LineString, &mut out);
        proof {
            assert forall|bk: Kind, bi: int, sk: Kind, si: int|
                #[trigger] cand_ok(*self, *big, mode, bk, bi, sk, si) implies has_req(
                out@,
                bk,
                bi,
                sk,
                si,
            ) by {
                match bk {
                    Kind::Point => {
                        lemma_has_req_mono(g1, out@, bk, bi, sk, si);
                    },
                    Kind::Line => {
                        lemma_has_req_mono(g2, out@, bk, bi, sk, si);
                    },
                    Kind::Rect => {
                        lemma_has_req_mono(g3, out@, bk, bi, sk, si);
                    },
                    Kind::Triangle => {
                        lemma_has_req_mono(g4, out@, bk, bi, sk, si);
                    },
                    Kind::Polygon => {
                        lemma_has_req_mono(g5, out@, bk, bi, sk, si);
                    },
                    Kind::LineString => {},
                }
            }
            let l1 = g1.len() as int;
            let l2 = g2.len() as int;
            let l3 = g3.len() as int;
            let l4 = g4.len() as int;
            let l5 = g5.len() as int;
            let l6 = out@.len() as int;
            assert forall|i: int|
                0 <= i < l6 implies big_rank((#[trigger] out@[i]).big_kind) == (if i < l1 {
                    0int
                } else if i < l2 {
                    1int
                } else if i < l3 {
                    2int
                } else if i < l4 {
                    3int
                } else if i < l5 {
                    4int
                } else {
                    5int
                }) by {
                if i < l1 {
                    assert(out@[i] == g1[i]);
                } else if i < l2 {
                    assert(out@[i] == g2[i]);
                } else if i < l3 {
                    assert(out@[i] == g3[i]);
                } else if i < l4 {
                    assert(out@[i] == g4[i]);
                } else if i < l5 {
                    assert(out@[i] == g5[i]);
                }
            }
            assert forall|i: int, j: int|
                0 <= i < j < l6 implies req_before(#[trigger] out@[i], #[trigger] out@[j]) by {
                if j < l1 {
                    assert(out@[i] == g1[i]);
                    assert(out@[j] == g1[j]);
                } else if l1 <= i && j < l2 {
                    assert(out@[i] == g2[i]);
                    assert(out@[j] == g2[j]);
                } else if l2 <= i && j < l3 {
                    assert(out@[i] == g3[i]);
                    assert(out@[j] == g3[j]);
                } else if l3 <= i && j < l4 {
                    assert(out@[i] == g4[i]);
                    assert(out@[j] == g4[j]);
                } else if l4 <= i && j < l5 {
                    assert(out@[i] == g5[i]);
                    assert(out@[j] == g5[j]);
                }
            }
        }
        out
    }

    /// The candidate requests of a proximity map: every pair whose
    /// envelopes overlap, with no structural filtering, in the engine's
    /// strict visit order.
    pub fn proximity_requests(&self, big: &SplitGeoSeq) -> (r: Vec<Request>)
        requires
            self.wf(),
            side_wf(*big),
        ensures
            forall|i: int|
                0 <= i < r@.len() ==> req_ok(*self, *big, Interaction::Intersects, #[trigger] r@[i]),
            forall|i: int, j: int|
                0 <= i < j < r@.len() ==> req_before(#[trigger] r@[i], #[trigger] r@[j]),
            forall|bk: Kind, bi: int, sk: Kind, si: int|
                #[trigger] cand_ok(*self, *big, Interaction::Intersects, bk, bi, sk, si)
                    ==> has_req(r@, bk, bi, sk, si),
    {
        self.join_requests(big, Interaction::Intersects)
    }
}


/// The row a request produces when its predicate holds.
pub open spec fn row_of(q: Request) -> SJoinRow {
    SJoinRow { big_index: q.big_index, small_index: q.small_index }
}

/// The proximity row a request produces for a given distance.
pub open spec fn prox_row_of(q: Request, d: u64) -> ProxMapRow {
    ProxMapRow { big_index: q.big_index, small_index: q.small_index, distance: d }
}

/// The requests whose verdicts are true, in request order.
pub open spec fn selected_reqs(reqs: Seq<Request>, verdicts: Seq<bool>) -> Seq<Request>
    decreases reqs.len(),
{
    if reqs.len() == 0 {
        Seq::empty()
    } else {
        let rest = selected_reqs(reqs.drop_last(), verdicts.drop_last());
        if verdicts[reqs.len() - 1] {
            rest.push(reqs.last())
        } else {
            rest
        }
    }
}

/// The requests whose distances are within the threshold, in request
/// order, paired into rows.
pub open spec fn prox_selected(reqs: Seq<Request>, dists: Seq<u64>, maxd: u64) -> Seq<ProxMapRow>
    decreases reqs.len(),
{
    if reqs.len() == 0 {
        Seq::empty()
    } else {
        let rest = prox_selected(reqs.drop_last(), dists.drop_last(), maxd);
        if le_bits(dists[reqs.len() - 1], maxd) {
            rest.push(prox_row_of(reqs.last(), dists[reqs.len() - 1]))
        } else {
            rest
        }
    }
}

/// The kept requests of a proximity selection, aligned with its rows.
pub open spec fn prox_selected_reqs(reqs: Seq<Request>, dists: Seq<u64>, maxd: u64) -> Seq<Request>
    decreases reqs.len(),
{
    if reqs.len() == 0 {
        Seq::empty()
    } else {
        let rest = prox_selected_reqs(reqs.drop_last(), dists.drop_last(), maxd);
        if le_bits(dists[reqs.len() - 1], maxd) {
            rest.push(reqs.last())
        } else {
            rest
        }
    }
}

/// Membership in a selection: a request is kept exactly when it stands
/// at some position with a true verdict.
pub proof fn lemma_selected_reqs_iff(reqs: Seq<Request>, verdicts: Seq<bool>, q: Request)
    requires
        reqs.len() == verdicts.len(),
    ensures
        selected_reqs(reqs, verdicts).contains(q) <==> (exists|i: int|
            0 <= i < reqs.len() && #[trigger] reqs[i] == q && verdicts[i]),
    decreases reqs.len(),
{
    if reqs.len() > 0 {
        lemma_selected_reqs_iff(reqs.drop_last(), verdicts.drop_last(), q);
        let rest = selected_reqs(reqs.drop_last(), verdicts.drop_last());
        let whole = selected_reqs(reqs, verdicts);
        if whole.contains(q) {
            let w = choose|w: int| 0 <= w < whole.len() && whole[w] == q;
            if verdicts[reqs.len() - 1] && w == whole.len() - 1 {
                assert(reqs[reqs.len() - 1] == q && verdicts[reqs.len() - 1]);
            } else {
                assert(rest[w] == q);
                assert(rest.contains(q));
                let i = choose|i: int|
                    0 <= i < reqs.drop_last().len() && #[trigger] reqs.drop_last()[i] == q
                        && verdicts.drop_last()[i];
                assert(reqs[i] == q && verdicts[i]);
            }
        }
        if exists|i: int| 0 <= i < reqs.len() && #[trigger] reqs[i] == q && verdicts[i] {
            let i = choose|i: int| 0 <= i < reqs.len() && #[trigger] reqs[i] == q && verdicts[i];
            if i < reqs.len() - 1 {
                assert(reqs.drop_last()[i] == q && verdicts.drop_last()[i]);
                assert(rest.contains(q));
                let w = choose|w: int| 0 <= w < rest.len() && rest[w] == q;
                assert(whole[w] == q);
            } else {
                assert(whole.last() == q);
            }
            assert(whole.contains(q));
        }
    }
}

/// Membership in a proximity selection: a row is produced exactly when
/// its request stands at some position whose distance is within the
/// threshold.
pub proof fn lemma_prox_selected_iff(
    reqs: Seq<Request>,
    dists: Seq<u64>,
    maxd: u64,
    row: ProxMapRow,
)
    requires
        reqs.len() == dists.len(),
    ensures
        prox_selected(reqs, dists, maxd).contains(row) <==> (exists|i: int|
            0 <= i < reqs.len() && #[trigger] prox_row_of(reqs[i], dists[i]) == row && le_bits(
                dists[i],
                maxd,
            )),
    decreases reqs.len(),
{
    if reqs.len() > 0 {
        lemma_prox_selected_iff(reqs.drop_last(), dists.drop_last(), maxd, row);
        let rest = prox_selected(reqs.drop_last(), dists.drop_last(), maxd);
        let whole = prox_selected(reqs, dists, maxd);
        if whole.contains(row) {
            let w = choose|w: int| 0 <= w < whole.len() && whole[w] == row;
            if le_bits(dists[reqs.len() - 1], maxd) && w == whole.len() - 1 {
                assert(prox_row_of(reqs[reqs.len() - 1], dists[reqs.len() - 1]) == row);
            } else {
                assert(rest[w] == row);
                assert(rest.contains(row));
                let i = choose|i: int|
                    0 <= i < reqs.drop_last().len() && #[trigger] prox_row_of(
                        reqs.drop_last()[i],
                        dists.drop_last()[i],
                    ) == row && le_bits(dists.drop_last()[i], maxd);
                assert(prox_row_of(reqs[i], dists[i]) == row && le_bits(dists[i], maxd));
            }
        }
        if exists|i: int|
            0 <= i < reqs.len() && #[trigger] prox_row_of(reqs[i], dists[i]) == row && le_bits(
                dists[i],
                maxd,
            ) {
            let i = choose|i: int|
                0 <= i < reqs.len() && #[trigger] prox_row_of(reqs[i], dists[i]) == row && le_bits(
                    dists[i],
                    maxd,
                );
            if i < reqs.len() - 1 {
                assert(prox_row_of(reqs.drop_last()[i], dists.drop_last()[i]) == row && le_bits(
                    dists.drop_last()[i],
                    maxd,
                ));
                assert(rest.contains(row));
                let w = choose|w: int| 0 <= w < rest.len() && rest[w] == row;
                assert(whole[w] == row);
            } else {
                assert(whole.last() == row);
            }
            assert(whole.contains(row));
        }
    }
}

/// A request's bucket coordinates are in bounds on both sides.
pub open spec fn req_in_bounds(idx: SpatialIndex, big: SplitGeoSeq, q: Request) -> bool {
    &&& 0 <= (q.big_local as int) < big.bucket_spec(q.big_kind).len()
    &&& 0 <= (q.small_local as int) < idx.small.bucket_spec(q.small_kind).len()
}

/// A geometry-attached join row matches its request: the positions are
/// the request's and the attached shapes are the two bucket elements.
pub open spec fn geo_row_ok(
    idx: SpatialIndex,
    big: SplitGeoSeq,
    q: Request,
    row: SJoinGeoRow,
) -> bool {
    &&& row.big_index == q.big_index
    &&& row.small_index == q.small_index
    &&& row.big@ == big.bucket_spec(q.big_kind)[q.big_local as int]@
    &&& row.small@ == idx.small.bucket_spec(q.small_kind)[q.small_local as int]@
}

/// A geometry-attached proximity row matches its request and distance.
pub open spec fn prox_geo_row_ok(
    idx: SpatialIndex,
    big: SplitGeoSeq,
    q: Request,
    d: u64,
    row: ProxMapGeoRow,
) -> bool {
    &&& row.big_index == q.big_index
    &&& row.small_index == q.small_index
    &&& row.distance == d
    &&& row.big@ == big.bucket_spec(q.big_kind)[q.big_local as int]@
    &&& row.small@ == idx.small.bucket_spec(q.small_kind)[q.small_local as int]@
}

/// Every entry of a distance list is finite.
pub fn all_finite(v: &Vec<u64>) -> (r: bool)
    ensures
        r == (forall|i: int| 0 <= i < v@.len() ==> finite_bits(#[trigger] v@[i])),
{
    let n: usize = v.len();
    let mut i: usize = 0;
    let mut ok: bool = true;
    while i < n
        invariant
            0 <= i <= n,
            n == v@.len(),
            ok == (forall|k: int| 0 <= k < i ==> finite_bits(#[trigger] v@[k])),
        decreases n - i,
    {
        let f: bool = is_finite(v[i]);
        ok = ok && f;
        i = i + 1;
    }
    ok
}

impl SpatialIndex {
    /// Turns the requests of a spatial join and the verdicts of the
    /// directional predicate into result rows: exactly the requests whose
    /// verdict is true, in request order.
    pub fn spatial_join(&self, requests: &Vec<Request>, verdicts: &Vec<bool>) -> (r: Vec<SJoinRow>)
        requires
            verdicts@.len() == requests@.len(),
        ensures
            r@ == selected_reqs(requests@, verdicts@).map_values(|q: Request| row_of(q)),
    {
        let n: usize = requests.len();
        let mut r: Vec<SJoinRow> = Vec::new();
        let mut i: usize = 0;
        proof {
            assert(requests@.take(0) =~= Seq::<Request>::empty());
            assert(verdicts@.take(0) =~= Seq::<bool>::empty());
            assert(r@ =~= selected_reqs(requests@.take(0), verdicts@.take(0)).map_values(
                |q: Request| row_of(q),
            ));
        }
        while i < n
            invariant
                0 <= i <= n,
                n == requests@.len(),
                verdicts@.len() == requests@.len(),
                r@ == selected_reqs(requests@.take(i as int), verdicts@.take(i as int)).map_values(
                    |q: Request| row_of(q),
                ),
            decreases n - i,
        {
            proof {
                assert(requests@.take(i + 1).drop_last() =~= requests@.take(i as int));
                assert(verdicts@.take(i + 1).drop_last() =~= verdicts@.take(i as int));
                assert(requests@.take(i + 1).last() == requests@[i as int]);
                assert(verdicts@.take(i + 1)[requests@.take(i + 1).len() - 1] == verdicts@[i as int]);
            }
            if verdicts[i] {
                let q: Request = requests[i];
                r.push(SJoinRow { big_index: q.big_index, small_index: q.small_index });
                proof {
                    let sel = selected_reqs(requests@.take(i as int), verdicts@.take(i as int));
                    assert(selected_reqs(requests@.take(i + 1), verdicts@.take(i + 1)) == sel.push(
                        requests@[i as int],
                    ));
                    assert(sel.push(requests@[i as int]).map_values(|q: Request| row_of(q))
                        =~= sel.map_values(|q: Request| row_of(q)).push(
                        row_of(requests@[i as int]),
                    ));
                }
            }
            i = i + 1;
        }
        proof {
            assert(requests@.take(n as int) =~= requests@);
            assert(verdicts@.take(n as int) =~= verdicts@);
        }
        r
    }

    /// The geometry-attached form of the spatial join: each kept request
    /// additionally carries copies of both matched geometries.
    pub fn spatial_join_with_geos(
        &self,
        big: &SplitGeoSeq,
        requests: &Vec<Request>,
        verdicts: &Vec<bool>,
    ) -> (r: Vec<SJoinGeoRow>)
        requires
            verdicts@.len() == requests@.len(),
            forall|i: int|
                0 <= i < requests@.len() ==> req_in_bounds(*self, *big, #[trigger] requests@[i]),
        ensures
            r@.len() == selected_reqs(requests@, verdicts@).len(),
            forall|k: int|
                0 <= k < r@.len() ==> geo_row_ok(
                    *self,
                    *big,
                    selected_reqs(requests@, verdicts@)[k],
                    #[trigger] r@[k],
                ),
    {
        let n: usize = requests.len();
        let mut r: Vec<SJoinGeoRow> = Vec::new();
        let mut i: usize = 0;
        proof {
            assert(requests@.take(0) =~= Seq::<Request>::empty());
            assert(verdicts@.take(0) =~= Seq::<bool>::empty());
        }
        while i < n
            invariant
                0 <= i <= n,
                n == requests@.len(),
                verdicts@.len() == requests@.len(),
                forall|i0: int|
                    0 <= i0 < requests@.len() ==> req_in_bounds(
                        *self,
                        *big,
                        #[trigger] requests@[i0],
                    ),
                r@.len() == selected_reqs(requests@.take(i as int), verdicts@.take(i as int)).len(),
                forall|k: int|
                    0 <= k < r@.len() ==> geo_row_ok(
                        *self,
                        *big,
                        selected_reqs(requests@.take(i as int), verdicts@.take(i as int))[k],
                        #[trigger] r@[k],
                    ),
            decreases n - i,
        {
            proof {
                assert(requests@.take(i + 1).drop_last() =~= requests@.take(i as int));
                assert(verdicts@.take(i + 1).drop_last() =~= verdicts@.take(i as int));
                assert(requests@.take(i + 1).last() == requests@[i as int]);
                assert(verdicts@.take(i + 1)[requests@.take(i + 1).len() - 1] == verdicts@[i as int]);
            }
            if verdicts[i] {
                let q: Request = requests[i];
                let bg: Geom = {
                    let bucket: &Vec<Geom> = big.bucket_ref(q.big_kind);
                    bucket[q.big_local].duplicate()
                };
                let sg: Geom = {
                    let bucket: &Vec<Geom> = self.small.bucket_ref(q.small_kind);
                    bucket[q.small_local].duplicate()
                };
                r.push(
                    SJoinGeoRow {
                        big_index: q.big_index,
                        small_index: q.small_index,
                        big: bg,
                        small: sg,
                    },
                );
            }
            i = i + 1;
        }
        proof {
            assert(requests@.take(n as int) =~= requests@);
            assert(verdicts@.take(n as int) =~= verdicts@);
        }
        r
    }

    /// Turns the requests of a proximity map and the computed distances
    /// into result rows: exactly the pairs whose distance is within the
    /// configured threshold, each carrying its distance.  A computed
    /// distance must be finite; a non-finite one signals a broken
    /// invariant outside this crate and is excluded here.
    pub fn proximity_map(&self, requests: &Vec<Request>, dists: &Vec<u64>) -> (r: Vec<ProxMapRow>)
        requires
            dists@.len() == requests@.len(),
            forall|i: int| 0 <= i < dists@.len() ==> finite_bits(#[trigger] dists@[i]),
        ensures
            r@ == prox_selected(requests@, dists@, self.config.max_distance),
    {
        let n: usize = requests.len();
        let mut r: Vec<ProxMapRow> = Vec::new();
        let mut i: usize = 0;
        proof {
            assert(requests@.take(0) =~= Seq::<Request>::empty());
            assert(dists@.take(0) =~= Seq::<u64>::empty());
            assert(r@ =~= prox_selected(
                requests@.take(0),
                dists@.take(0),
                self.config.max_distance,
            ));
        }
        while i < n
            invariant
                0 <= i <= n,
                n == requests@.len(),
                dists@.len() == requests@.len(),
                r@ == prox_selected(
                    requests@.take(i as int),
                    dists@.take(i as int),
                    self.config.max_distance,
                ),
            decreases n - i,
        {
            proof {
                assert(requests@.take(i + 1).drop_last() =~= requests@.take(i as int));
                assert(dists@.take(i + 1).drop_last() =~= dists@.take(i as int));
                assert(requests@.take(i + 1).last() == requests@[i as int]);
                assert(dists@.take(i + 1)[requests@.take(i + 1).len() - 1] == dists@[i as int]);
            }
            let d: u64 = dists[i];
            if le(d, self.config.max_distance) {
                let q: Request = requests[i];
                r.push(
                    ProxMapRow { big_index: q.big_index, small_index: q.small_index, distance: d },
                );
            }
            i = i + 1;
        }
        proof {
            assert(requests@.take(n as int) =~= requests@);
            assert(dists@.take(n as int) =~= dists@);
        }
        r
    }

    /// The geometry-attached form of the proximity map.
    pub fn proximity_map_with_geos(
        &self,
        big: &SplitGeoSeq,
        requests: &Vec<Request>,
        dists: &Vec<u64>,
    ) -> (r: Vec<ProxMapGeoRow>)
        requires
            dists@.len() == requests@.len(),
            forall|i: int| 0 <= i < dists@.len() ==> finite_bits(#[trigger] dists@[i]),
            forall|i: int|
                0 <= i < requests@.len() ==> req_in_bounds(*self, *big, #[trigger] requests@[i]),
        ensures
            r@.len() == prox_selected(requests@, dists@, self.config.max_distance).len(),
            forall|k: int|
                0 <= k < r@.len() ==> prox_geo_row_ok(
                    *self,
                    *big,
                    prox_selected_reqs(requests@, dists@, self.config.max_distance)[k],
                    prox_selected(requests@, dists@, self.config.max_distance)[k].distance,
                    #[trigger] r@[k],
                ),
            prox_selected_reqs(requests@, dists@, self.config.max_distance).len() == prox_selected(
                requests@,
                dists@,
                self.config.max_distance,
            ).len(),
    {
        let n: usize = requests.len();
        let mut r: Vec<ProxMapGeoRow> = Vec::new();
        let mut i: usize = 0;
        proof {
            assert(requests@.take(0) =~= Seq::<Request>::empty());
            assert(dists@.take(0) =~= Seq::<u64>::empty());
        }
        let maxd: u64 = self.config.max_distance;
        while i < n
            invariant
                0 <= i <= n,
                n == requests@.len(),
                dists@.len() == requests@.len(),
                maxd == self.config.max_distance,
                forall|i0: int|
                    0 <= i0 < requests@.len() ==> req_in_bounds(
                        *self,
                        *big,
                        #[trigger] requests@[i0],
                    ),
                r@.len() == prox_selected(requests@.take(i as int), dists@.take(i as int), maxd).len(),
                prox_selected_reqs(requests@.take(i as int), dists@.take(i as int), maxd).len()
                    == prox_selected(requests@.take(i as int), dists@.take(i as int), maxd).len(),
                forall|k: int|
                    0 <= k < r@.len() ==> prox_geo_row_ok(
                        *self,
                        *big,
                        prox_selected_reqs(requests@.take(i as int), dists@.take(i as int), maxd)[k],
                        prox_selected(requests@.take(i as int), dists@.take(i as int), maxd)[k].distance,
                        #[trigger] r@[k],
                    ),
            decreases n - i,
        {
            proof {
                assert(requests@.take(i + 1).drop_last() =~= requests@.take(i as int));
                assert(dists@.take(i + 1).drop_last() =~= dists@.take(i as int));
                assert(requests@.take(i + 1).last() == requests@[i as int]);
                assert(dists@.take(i + 1)[requests@.take(i + 1).len() - 1] == dists@[i as int]);
            }
            let d: u64 = dists[i];
            if le(d, maxd) {
                let q: Request = requests[i];
                let bg: Geom = {
                    let bucket: &Vec<Geom> = big.bucket_ref(q.big_kind);
                    bucket[q.big_local].duplicate()
                };
                let sg: Geom = {
                    let bucket: &Vec<Geom> = self.small.bucket_ref(q.small_kind);
                    bucket[q.small_local].duplicate()
                };
                r.push(
                    ProxMapGeoRow {
                        big_index: q.big_index,
                        small_index: q.small_index,
                        big: bg,
                        small: sg,
                        distance: d,
                    },
                );
            }
            i = i + 1;
        }
        proof {
            assert(requests@.take(n as int) =~= requests@);
            assert(dists@.take(n as int) =~= dists@);
        }
        r
    }
}


/// Bucket, position set, and per-kind position list of a partition agree
/// in length, and the recorded positions are the kind's positions in the
/// partitioned sequence.
pub proof fn lemma_partition_kind_lens(p: SplitGeoSeq, s: Seq<GView>, k: Kind)
    requires
        is_partition_of(p, s),
    ensures
        p.idx_spec(k).seq().len() == p.bucket_spec(k).len(),
        p.idx_spec(k).seq().len() == positions_of(s, k).len(),
        forall|j: int|
            0 <= j < p.idx_spec(k).seq().len() ==> #[trigger] p.idx_spec(k).seq()[j]
                == positions_of(s, k)[j],
        forall|j: int|
            0 <= j < p.idx_spec(k).seq().len() ==> 0 <= #[trigger] p.idx_spec(k).seq()[j]
                < s.len(),
{
    assert(chunk_kind_ok(p, s, 0, k));
    lemma_shifted_props(positions_of(s, k), 0);
    lemma_positions_props(s, k);
    assert(views_of(p.bucket_spec(k)).len() == p.bucket_spec(k).len());
    assert(geoms_of(s, k).len() == positions_of(s, k).len());
}

/// Positions are recorded once: two bucket coordinates naming the same
/// original position are the same bucket coordinates.
pub proof fn lemma_position_injective(
    p: SplitGeoSeq,
    s: Seq<GView>,
    k1: Kind,
    j1: int,
    k2: Kind,
    j2: int,
)
    requires
        is_partition_of(p, s),
        0 <= j1 < p.idx_spec(k1).seq().len(),
        0 <= j2 < p.idx_spec(k2).seq().len(),
        p.idx_spec(k1).seq()[j1] == p.idx_spec(k2).seq()[j2],
    ensures
        k1 == k2 && j1 == j2,
{
    assert(chunk_kind_ok(p, s, 0, k1));
    assert(chunk_kind_ok(p, s, 0, k2));
    lemma_shifted_props(positions_of(s, k1), 0);
    lemma_shifted_props(positions_of(s, k2), 0);
    lemma_positions_props(s, k1);
    lemma_positions_props(s, k2);
    let pos = p.idx_spec(k1).seq()[j1];
    assert(positions_of(s, k1)[j1] == pos);
    assert(positions_of(s, k2)[j2] == pos);
    assert(0 <= pos < s.len());
    assert(positions_of(s, k1).contains(pos));
    assert(positions_of(s, k2).contains(pos));
    lemma_positions_contains(s, k1, pos);
    lemma_positions_contains(s, k2, pos);
    assert(k1 == k2);
    if j1 < j2 {
        assert(positions_of(s, k1)[j1] < positions_of(s, k1)[j2]);
    }
    if j2 < j1 {
        assert(positions_of(s, k1)[j2] < positions_of(s, k1)[j1]);
    }
}

/// The join-correctness statement at one candidate coordinate: the row
/// of the pair is reported exactly when the predicate holds of it and
/// the pair is structurally possible for the mode.
pub open spec fn join_law_at(
    idx: SpatialIndex,
    big: SplitGeoSeq,
    mode: Interaction,
    rows: Seq<SJoinRow>,
    pred: spec_fn(Kind, int, Kind, int) -> bool,
    bk: Kind,
    bi: int,
    sk: Kind,
    si: int,
) -> bool {
    (pred(sk, si, bk, bi) && possible(mode, sk, bk)) <==> rows.contains(
        (SJoinRow {
            big_index: big.idx_spec(bk).seq()[bi] as usize,
            small_index: idx.small.idx_spec(sk).seq()[si] as usize,
        }),
    )
}

/// The proximity-correctness statement at one candidate coordinate.
pub open spec fn prox_law_at(
    idx: SpatialIndex,
    big: SplitGeoSeq,
    rows: Seq<ProxMapRow>,
    dist: spec_fn(Kind, int, Kind, int) -> u64,
    bk: Kind,
    bi: int,
    sk: Kind,
    si: int,
) -> bool {
    le_bits(dist(sk, si, bk, bi), idx.config.max_distance) <==> rows.contains(
        (ProxMapRow {
            big_index: big.idx_spec(bk).seq()[bi] as usize,
            small_index: idx.small.idx_spec(sk).seq()[si] as usize,
            distance: dist(sk, si, bk, bi),
        }),
    )
}

/// The join-correctness law: for every partitioned small side, big side,
/// and mode, and for every directional predicate whose positive pairs
/// all pass the envelope filter, the rows of the engine are exactly the
/// rows of the exhaustive pairwise check with the same predicate — the
/// structural containment rule included.
pub proof fn lemma_spatial_join_exhaustive(
    idx: SpatialIndex,
    big: SplitGeoSeq,
    mode: Interaction,
    reqs: Seq<Request>,
    verdicts: Seq<bool>,
    rows: Seq<SJoinRow>,
    pred: spec_fn(Kind, int, Kind, int) -> bool,
    bs: Seq<GView>,
    ss: Seq<GView>,
)
    requires
        idx.wf(),
        is_partition_of(big, bs),
        is_partition_of(idx.small, ss),
        bs.len() <= usize::MAX,
        ss.len() <= usize::MAX,
        forall|i: int| 0 <= i < reqs.len() ==> req_ok(idx, big, mode, #[trigger] reqs[i]),
        forall|bk: Kind, bi: int, sk: Kind, si: int|
            #[trigger] cand_ok(idx, big, mode, bk, bi, sk, si) ==> has_req(reqs, bk, bi, sk, si),
        verdicts.len() == reqs.len(),
        forall|i: int|
            0 <= i < reqs.len() ==> #[trigger] verdicts[i] == pred(
                reqs[i].small_kind,
                reqs[i].small_local as int,
                reqs[i].big_kind,
                reqs[i].big_local as int,
            ),
        forall|bk: Kind, bi: int, sk: Kind, si: int|
            0 <= bi < big.bucket_spec(bk).len() && 0 <= si < idx.envs_spec(sk).len()
                && #[trigger] pred(sk, si, bk, bi) ==> env_overlap(
                env_of(big.bucket_spec(bk)[bi]@),
                idx.envs_spec(sk)[si],
            ),
        rows == selected_reqs(reqs, verdicts).map_values(|q: Request| row_of(q)),
    ensures
        forall|bk: Kind, bi: int, sk: Kind, si: int|
            0 <= bi < big.bucket_spec(bk).len() && 0 <= si < idx.envs_spec(sk).len()
                ==> #[trigger] join_law_at(idx, big, mode, rows, pred, bk, bi, sk, si),
{
    let sel = selected_reqs(reqs, verdicts);
    assert forall|bk: Kind, bi: int, sk: Kind, si: int|
        0 <= bi < big.bucket_spec(bk).len() && 0 <= si < idx.envs_spec(sk).len()
        implies #[trigger] join_law_at(idx, big, mode, rows, pred, bk, bi, sk, si) by {
        lemma_partition_kind_lens(big, bs, bk);
        lemma_partition_kind_lens(idx.small, ss, sk);
        let row = SJoinRow {
            big_index: big.idx_spec(bk).seq()[bi] as usize,
            small_index: idx.small.idx_spec(sk).seq()[si] as usize,
        };
        if pred(sk, si, bk, bi) && possible(mode, sk, bk) {
            assert(cand_ok(idx, big, mode, bk, bi, sk, si));
            assert(has_req(reqs, bk, bi, sk, si));
            let i = choose|i: int|
                0 <= i < reqs.len() && (#[trigger] reqs[i]).big_kind == bk && reqs[i].big_local
                    == bi && reqs[i].small_kind == sk && reqs[i].small_local == si;
            assert(verdicts[i]);
            assert(req_ok(idx, big, mode, reqs[i]));
            lemma_selected_reqs_iff(reqs, verdicts, reqs[i]);
            assert(sel.contains(reqs[i]));
            let w = choose|w: int| 0 <= w < sel.len() && sel[w] == reqs[i];
            assert(rows[w] == row_of(reqs[i]));
            assert(rows[w] == row);
            assert(rows.contains(row));
        }
        if rows.contains(row) {
            let w = choose|w: int| 0 <= w < rows.len() && rows[w] == row;
            assert(rows[w] == row_of(sel[w]));
            let q = sel[w];
            assert(sel.contains(q));
            lemma_selected_reqs_iff(reqs, verdicts, q);
            let i = choose|i: int| 0 <= i < reqs.len() && #[trigger] reqs[i] == q && verdicts[i];
            assert(req_ok(idx, big, mode, q));
            lemma_partition_kind_lens(big, bs, q.big_kind);
            lemma_partition_kind_lens(idx.small, ss, q.small_kind);
            assert(q.big_index as int == big.idx_spec(q.big_kind).seq()[q.big_local as int]);
            assert(big.idx_spec(bk).seq()[bi] == big.idx_spec(q.big_kind).seq()[
                q.big_local as int]);
            lemma_position_injective(big, bs, q.big_kind, q.big_local as int, bk, bi);
            lemma_position_injective(idx.small, ss, q.small_kind, q.small_local as int, sk, si);
            assert(pred(sk, si, bk, bi));
            assert(possible(mode, sk, bk));
        }
    }
}

/// The proximity-correctness law: for every distance assignment whose
/// within-threshold pairs all pass the envelope filter, the rows of the
/// proximity map are exactly the pairs of the exhaustive check whose
/// distance is within the threshold, each carrying that distance.
pub proof fn lemma_proximity_exhaustive(
    idx: SpatialIndex,
    big: SplitGeoSeq,
    reqs: Seq<Request>,
    dists: Seq<u64>,
    rows: Seq<ProxMapRow>,
    dist: spec_fn(Kind, int, Kind, int) -> u64,
    bs: Seq<GView>,
    ss: Seq<GView>,
)
    requires
        idx.wf(),
        is_partition_of(big, bs),
        is_partition_of(idx.small, ss),
        bs.len() <= usize::MAX,
        ss.len() <= usize::MAX,
        forall|i: int|
            0 <= i < reqs.len() ==> req_ok(idx, big, Interaction::Intersects, #[trigger] reqs[i]),
        forall|bk: Kind, bi: int, sk: Kind, si: int|
            #[trigger] cand_ok(idx, big, Interaction::Intersects, bk, bi, sk, si) ==> has_req(
                reqs,
                bk,
                bi,
                sk,
                si,
            ),
        dists.len() == reqs.len(),
        forall|i: int|
            0 <= i < reqs.len() ==> #[trigger] dists[i] == dist(
                reqs[i].small_kind,
                reqs[i].small_local as int,
                reqs[i].big_kind,
                reqs[i].big_local as int,
            ),
        forall|bk: Kind, bi: int, sk: Kind, si: int|
            0 <= bi < big.bucket_spec(bk).len() && 0 <= si < idx.envs_spec(sk).len() && le_bits(
                #[trigger] dist(sk, si, bk, bi),
                idx.config.max_distance,
            ) ==> env_overlap(env_of(big.bucket_spec(bk)[bi]@), idx.envs_spec(sk)[si]),
        rows == prox_selected(reqs, dists, idx.config.max_distance),
    ensures
        forall|bk: Kind, bi: int, sk: Kind, si: int|
            0 <= bi < big.bucket_spec(bk).len() && 0 <= si < idx.envs_spec(sk).len()
                ==> #[trigger] prox_law_at(idx, big, rows, dist, bk, bi, sk, si),
{
    let maxd = idx.config.max_distance;
    assert forall|bk: Kind, bi: int, sk: Kind, si: int|
        0 <= bi < big.bucket_spec(bk).len() && 0 <= si < idx.envs_spec(sk).len()
        implies #[trigger] prox_law_at(idx, big, rows, dist, bk, bi, sk, si) by {
        lemma_partition_kind_lens(big, bs, bk);
        lemma_partition_kind_lens(idx.small, ss, sk);
        let row = ProxMapRow {
            big_index: big.idx_spec(bk).seq()[bi] as usize,
            small_index: idx.small.idx_spec(sk).seq()[si] as usize,
            distance: dist(sk, si, bk, bi),
        };
        if le_bits(dist(sk, si, bk, bi), maxd) {
            assert(possible(Interaction::Intersects, sk, bk));
            assert(cand_ok(idx, big, Interaction::Intersects, bk, bi, sk, si));
            assert(has_req(reqs, bk, bi, sk, si));
            let i = choose|i: int|
                0 <= i < reqs.len() && (#[trigger] reqs[i]).big_kind == bk && reqs[i].big_local
                    == bi && reqs[i].small_kind == sk && reqs[i].small_local == si;
            assert(dists[i] == dist(sk, si, bk, bi));
            assert(req_ok(idx, big, Interaction::Intersects, reqs[i]));
            assert(prox_row_of(reqs[i], dists[i]) == row);
            lemma_prox_selected_iff(reqs, dists, maxd, row);
            assert(rows.contains(row));
        }
        if rows.contains(row) {
            lemma_prox_selected_iff(reqs, dists, maxd, row);
            let i = choose|i: int|
                0 <= i < reqs.len() && #[trigger] prox_row_of(reqs[i], dists[i]) == row && le_bits(
                    dists[i],
                    maxd,
                );
            let q = reqs[i];
            assert(req_ok(idx, big, Interaction::Intersects, q));
            lemma_partition_kind_lens(big, bs, q.big_kind);
            lemma_partition_kind_lens(idx.small, ss, q.small_kind);
            assert(q.big_index as int == big.idx_spec(q.big_kind).seq()[q.big_local as int]);
            assert(big.idx_spec(bk).seq()[bi] == big.idx_spec(q.big_kind).seq()[
                q.big_local as int]);
            lemma_position_injective(big, bs, q.big_kind, q.big_local as int, bk, bi);
            lemma_position_injective(idx.small, ss, q.small_kind, q.small_local as int, sk, si);
            assert(dists[i] == dist(sk, si, bk, bi));
        }
    }
}

/// The mode-complementarity law: with both sides indexed over their
/// computed envelopes, a Contains-join of small side S against big side
/// B considers exactly the candidate pairs that a Within-join of B
/// against S considers with the roles swapped — so the two joins report
/// the same pairs whenever the underlying containment predicate is asked
/// with the same ordered arguments.
pub proof fn lemma_mode_complementarity(
    idx1: SpatialIndex,
    idx2: SpatialIndex,
    bk: Kind,
    bi: int,
    sk: Kind,
    si: int,
)
    requires
        idx1.wf(),
        idx2.wf(),
        idx1.raw_envelopes(),
        idx2.raw_envelopes(),
    ensures
        cand_ok(idx1, idx2.small, Interaction::Contains, bk, bi, sk, si) == cand_ok(
            idx2,
            idx1.small,
            Interaction::Within,
            sk,
            si,
            bk,
            bi,
        ),
{
    assert(side_kind_wf(idx1.small, sk));
    assert(side_kind_wf(idx2.small, bk));
    if cand_ok(idx1, idx2.small, Interaction::Contains, bk, bi, sk, si) {
        lemma_env_overlap_symmetric(
            env_of(idx2.small.bucket_spec(bk)[bi]@),
            idx1.envs_spec(sk)[si],
        );
        assert(idx1.envs_spec(sk)[si] == env_of(idx1.small.bucket_spec(sk)[si]@));
        assert(idx2.envs_spec(bk)[bi] == env_of(idx2.small.bucket_spec(bk)[bi]@));
    }
    if cand_ok(idx2, idx1.small, Interaction::Within, sk, si, bk, bi) {
        lemma_env_overlap_symmetric(
            env_of(idx1.small.bucket_spec(sk)[si]@),
            idx2.envs_spec(bk)[bi],
        );
        assert(idx1.envs_spec(sk)[si] == env_of(idx1.small.bucket_spec(sk)[si]@));
        assert(idx2.envs_spec(bk)[bi] == env_of(idx2.small.bucket_spec(bk)[bi]@));
    }
}

/// The row-level form of mode complementarity: wherever the
/// join-correctness statement holds of a Contains-join of small side S
/// against big side B and of a Within-join of B against S, and the two
/// joins ask the containment predicate with the same ordered arguments,
/// they report the same pair — with the big and small positions swapped.
pub proof fn lemma_mode_complementarity_rows(
    idx1: SpatialIndex,
    idx2: SpatialIndex,
    rows1: Seq<SJoinRow>,
    rows2: Seq<SJoinRow>,
    pred: spec_fn(Kind, int, Kind, int) -> bool,
    pred2: spec_fn(Kind, int, Kind, int) -> bool,
    bk: Kind,
    bi: int,
    sk: Kind,
    si: int,
)
    requires
        join_law_at(idx1, idx2.small, Interaction::Contains, rows1, pred, bk, bi, sk, si),
        join_law_at(idx2, idx1.small, Interaction::Within, rows2, pred2, sk, si, bk, bi),
        pred2(bk, bi, sk, si) == pred(sk, si, bk, bi),
    ensures
        rows1.contains(
            (SJoinRow {
                big_index: idx2.small.idx_spec(bk).seq()[bi] as usize,
                small_index: idx1.small.idx_spec(sk).seq()[si] as usize,
            }),
        ) == rows2.contains(
            (SJoinRow {
                big_index: idx1.small.idx_spec(sk).seq()[si] as usize,
                small_index: idx2.small.idx_spec(bk).seq()[bi] as usize,
            }),
        ),
{
    assert(possible(Interaction::Contains, sk, bk) == possible(Interaction::Within, bk, sk));
}

impl ParSpatialIndex {
    /// Builds the chunked-construction variant of the index.
    pub fn new(small: SplitGeoSeq, config: Config) -> (r: ParSpatialIndex)
        requires
            side_wf(small),
        ensures
            r.0.small == small,
            r.0.config == config,
            r.0.wf(),
            r.0.raw_envelopes(),
    {
        ParSpatialIndex(SpatialIndex::new(small, config))
    }

    /// The candidate requests of a spatial join; see the serial form.
    pub fn join_requests(&self, big: &SplitGeoSeq, mode: Interaction) -> (r: Vec<Request>)
        requires
            self.0.wf(),
            side_wf(*big),
        ensures
            forall|i: int| 0 <= i < r@.len() ==> req_ok(self.0, *big, mode, #[trigger] r@[i]),
            forall|i: int, j: int|
                0 <= i < j < r@.len() ==> req_before(#[trigger] r@[i], #[trigger] r@[j]),
            forall|bk: Kind, bi: int, sk: Kind, si: int|
                #[trigger] cand_ok(self.0, *big, mode, bk, bi, sk, si) ==> has_req(
                    r@,
                    bk,
                    bi,
                    sk,
                    si,
                ),
    {
        self.0.join_requests(big, mode)
    }

    /// The candidate requests of a proximity map; see the serial form.
    pub fn proximity_requests(&self, big: &SplitGeoSeq) -> (r: Vec<Request>)
        requires
            self.0.wf(),
            side_wf(*big),
        ensures
            forall|i: int|
                0 <= i < r@.len() ==> req_ok(
                    self.0,
                    *big,
                    Interaction::Intersects,
                    #[trigger] r@[i],
                ),
            forall|i: int, j: int|
                0 <= i < j < r@.len() ==> req_before(#[trigger] r@[i], #[trigger] r@[j]),
            forall|bk: Kind, bi: int, sk: Kind, si: int|
                #[trigger] cand_ok(self.0, *big, Interaction::Intersects, bk, bi, sk, si)
                    ==> has_req(r@, bk, bi, sk, si),
    {
        self.0.proximity_requests(big)
    }

    /// Selects join rows from verdicts; see the serial form.
    pub fn spatial_join(&self, requests: &Vec<Request>, verdicts: &Vec<bool>) -> (r: Vec<SJoinRow>)
        requires
            verdicts@.len() == requests@.len(),
        ensures
            r@ == selected_reqs(requests@, verdicts@).map_values(|q: Request| row_of(q)),
    {
        self.0.spatial_join(requests, verdicts)
    }

    /// Selects geometry-attached join rows; see the serial form.
    pub fn spatial_join_with_geos(
        &self,
        big: &SplitGeoSeq,
        requests: &Vec<Request>,
        verdicts: &Vec<bool>,
    ) -> (r: Vec<SJoinGeoRow>)
        requires
            verdicts@.len() == requests@.len(),
            forall|i: int|
                0 <= i < requests@.len() ==> req_in_bounds(self.0, *big, #[trigger] requests@[i]),
        ensures
            r@.len() == selected_reqs(requests@, verdicts@).len(),
            forall|k: int|
                0 <= k < r@.len() ==> geo_row_ok(
                    self.0,
                    *big,
                    selected_reqs(requests@, verdicts@)[k],
                    #[trigger] r@[k],
                ),
    {
        self.0.spatial_join_with_geos(big, requests, verdicts)
    }

    /// Selects proximity rows from distances; see the serial form.
    pub fn proximity_map(&self, requests: &Vec<Request>, dists: &Vec<u64>) -> (r: Vec<ProxMapRow>)
        requires
            dists@.len() == requests@.len(),
            forall|i: int| 0 <= i < dists@.len() ==> finite_bits(#[trigger] dists@[i]),
        ensures
            r@ == prox_selected(requests@, dists@, self.0.config.max_distance),
    {
        self.0.proximity_map(requests, dists)
    }

    /// Selects geometry-attached proximity rows; see the serial form.
    pub fn proximity_map_with_geos(
        &self,
        big: &SplitGeoSeq,
        requests: &Vec<Request>,
        dists: &Vec<u64>,
    ) -> (r: Vec<ProxMapGeoRow>)
        requires
            dists@.len() == requests@.len(),
            forall|i: int| 0 <= i < dists@.len() ==> finite_bits(#[trigger] dists@[i]),
            forall|i: int|
                0 <= i < requests@.len() ==> req_in_bounds(self.0, *big, #[trigger] requests@[i]),
        ensures
            r@.len() == prox_selected(requests@, dists@, self.0.config.max_distance).len(),
            forall|k: int|
                0 <= k < r@.len() ==> prox_geo_row_ok(
                    self.0,
                    *big,
                    prox_selected_reqs(requests@, dists@, self.0.config.max_distance)[k],
                    prox_selected(requests@, dists@, self.0.config.max_distance)[k].distance,
                    #[trigger] r@[k],
                ),
    {
        self.0.proximity_map_with_geos(big, requests, dists)
    }
}


/// A valid shape has at least one coordinate to bound.
pub proof fn lemma_valid_has_coords(g: GView)
    requires
        crate::geoms::geom_valid(g),
    ensures
        has_coords(g),
{
}

/// A partition of a fully valid sequence is a usable join side.
pub proof fn lemma_partition_side_wf(p: SplitGeoSeq, s: Seq<GView>)
    requires
        is_partition_of(p, s),
        all_valid(s),
    ensures
        side_wf(p),
{
    assert forall|k: Kind| #[trigger] side_kind_wf(p, k) by {
        assert(chunk_kind_ok(p, s, 0, k));
        lemma_partition_kind_lens(p, s, k);
        lemma_positions_props(s, k);
        assert forall|j: int| 0 <= j < p.bucket_spec(k).len() implies has_coords(
            #[trigger] p.bucket_spec(k)[j]@,
        ) by {
            assert(views_of(p.bucket_spec(k))[j] == p.bucket_spec(k)[j]@);
            assert(geoms_of(s, k)[j] == s[positions_of(s, k)[j]]);
            assert(crate::geoms::geom_valid(s[positions_of(s, k)[j]]));
        }
    }
}

impl Config {
    /// Validates the configuration, partitions the small side, and
    /// builds an index over each element's computed envelope.  A
    /// positive distance threshold needs every envelope expanded by the
    /// threshold, which takes floating-point arithmetic on the
    /// coordinate values; expand them outside and use `with_envelopes`.
    /// This constructor therefore accepts a threshold that, when it is
    /// valid at all, is zero — an invalid threshold still flows through
    /// and is reported as the configuration error.
    pub fn serial(self, small: &Vec<Geom>) -> (r: Result<SpatialIndex, Error>)
        requires
            self.valid_spec() ==> crate::bits::key_of(self.max_distance) == 0,
        ensures
            ({
                let vs = views_of(small@);
                match r {
                    Ok(idx) => self.valid_spec() && all_valid(vs) && idx.config == self && idx.wf()
                        && idx.raw_envelopes() && is_partition_of(idx.small, vs)
                        && crate::partition::canonical_indexes(idx.small),
                    Err(e) => (!self.valid_spec() && e == Error::BadMaxDistance(self.max_distance))
                        || (self.valid_spec() && !all_valid(vs) && e == crate::geoms::expected_error(
                        vs[crate::partition::first_bad(vs)],
                        crate::partition::first_bad(vs) as usize,
                    )),
                }
            }),
    {
        let ghost vs = views_of(small@);
        match self.validate() {
            Some(e) => {
                return Err(e);
            },
            None => {},
        }
        let n: usize = small.len();
        proof {
            assert(vs.subrange(0, n as int) =~= vs);
        }
        match SplitGeoSeq::try_from(small) {
            Ok(p) => {
                proof {
                    lemma_partition_side_wf(p, vs);
                }
                Ok(SpatialIndex::new(p, self))
            },
            Err(e) => Err(e),
        }
    }

    /// The chunked-construction form of `serial`: the partition is built
    /// over per-core chunks and merged, with the same contract (and the
    /// same zero-threshold condition).
    pub fn parallel(self, small: &Vec<Geom>) -> (r: Result<ParSpatialIndex, Error>)
        requires
            self.valid_spec() ==> crate::bits::key_of(self.max_distance) == 0,
        ensures
            ({
                let vs = views_of(small@);
                match r {
                    Ok(idx) => self.valid_spec() && all_valid(vs) && idx.0.config == self
                        && idx.0.wf() && idx.0.raw_envelopes() && is_partition_of(idx.0.small, vs)
                        && crate::partition::canonical_indexes(idx.0.small),
                    Err(e) => (!self.valid_spec() && e == Error::BadMaxDistance(self.max_distance))
                        || (self.valid_spec() && !all_valid(vs) && e == crate::geoms::expected_error(
                        vs[crate::partition::first_bad(vs)],
                        crate::partition::first_bad(vs) as usize,
                    )),
                }
            }),
    {
        let ghost vs = views_of(small@);
        match self.validate() {
            Some(e) => {
                return Err(e);
            },
            None => {},
        }
        let n: usize = small.len();
        proof {
            assert(vs.subrange(0, n as int) =~= vs);
        }
        match SplitGeoSeq::par_try_from(small) {
            Ok(p) => {
                proof {
                    lemma_partition_side_wf(p, vs);
                }
                Ok(ParSpatialIndex::new(p, self))
            },
            Err(e) => Err(e),
        }
    }
}

} // verus!

