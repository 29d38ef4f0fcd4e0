//! Splitting a mixed geometry sequence into six type-homogeneous buckets.
//!
//! Every element of the input is validated, appended to the bucket of its
//! kind, and its original position recorded in that bucket's position
//! set.  The partition of a whole sequence can equally be assembled from
//! partitions of contiguous chunks, shifted to their place and merged;
//! the lemmas here show that the merge is associative over chunk order
//! and that the partition determines the input sequence exactly (the
//! roundtrip property).

use vstd::prelude::*;
use crate::geoms::{Coord, Geom, GView, Kind, geom_valid, expected_error};
use crate::positions::{Indexes, ascending, before, merged_seq};
use crate::structs::Error;

verus! {

/// The six type-homogeneous geometry buckets.
#[derive(Clone, PartialEq, Debug)]
pub struct SplitGeo {
    pub points: Vec<Geom>,
    pub lines: Vec<Geom>,
    pub polys: Vec<Geom>,
    pub line_strings: Vec<Geom>,
    pub rects: Vec<Geom>,
    pub tris: Vec<Geom>,
}

/// The six position sets, one per bucket.
#[derive(Clone, PartialEq, Debug)]
pub struct SplitGeoIndexes {
    pub points: Indexes,
    pub lines: Indexes,
    pub polys: Indexes,
    pub line_strings: Indexes,
    pub rects: Indexes,
    pub tris: Indexes,
}

/// A partitioned geometry sequence: six buckets and the original
/// position of every element of each bucket.
#[derive(Clone, PartialEq, Debug)]
pub struct SplitGeoSeq {
    pub geos: SplitGeo,
    pub indexes: SplitGeoIndexes,
}

/// The views of a sequence of geometries.
pub open spec fn views_of(s: Seq<Geom>) -> Seq<GView> {
    s.map_values(|g: Geom| g@)
}

/// Every shape of the sequence is valid.
pub open spec fn all_valid(s: Seq<GView>) -> bool {
    forall|i: int| 0 <= i < s.len() ==> geom_valid(#[trigger] s[i])
}

/// The position of the first invalid shape.
pub open spec fn first_bad(s: Seq<GView>) -> int
    decreases s.len(),
{
    if s.len() == 0 {
        0
    } else if !geom_valid(s.first()) {
        0
    } else {
        1 + first_bad(s.drop_first())
    }
}

/// The ascending positions of the elements of kind `k`.
pub open spec fn positions_of(s: Seq<GView>, k: Kind) -> Seq<int>
    decreases s.len(),
{
    if s.len() == 0 {
        Seq::empty()
    } else {
        let rest = positions_of(s.drop_last(), k);
        if s.last().kind() == k {
            rest.push(s.len() - 1)
        } else {
            rest
        }
    }
}

/// The elements of kind `k`, in input order.
pub open spec fn geoms_of(s: Seq<GView>, k: Kind) -> Seq<GView> {
    positions_of(s, k).map_values(|p: int| s[p])
}

impl SplitGeoSeq {
    /// The position set of the bucket of kind `k`.
    pub open spec fn idx_spec(&self, k: Kind) -> Indexes {
        match k {
            Kind::Point => self.indexes.points,
            Kind::Line => self.indexes.lines,
            Kind::LineString => self.indexes.line_strings,
            Kind::Polygon => self.indexes.polys,
            Kind::Rect => self.indexes.rects,
            Kind::Triangle => self.indexes.tris,
        }
    }

    /// The bucket of kind `k`.
    pub open spec fn bucket_spec(&self, k: Kind) -> Seq<Geom> {
        match k {
            Kind::Point => self.geos.points@,
            Kind::Line => self.geos.lines@,
            Kind::LineString => self.geos.line_strings@,
            Kind::Polygon => self.geos.polys@,
            Kind::Rect => self.geos.rects@,
            Kind::Triangle => self.geos.tris@,
        }
    }

    /// How many elements the partition holds in all.
    pub open spec fn total_len(&self) -> int {
        self.idx_spec(Kind::Point).seq().len() as int + self.idx_spec(Kind::Line).seq().len() as int
            + self.idx_spec(Kind::LineString).seq().len() as int + self.idx_spec(
            Kind::Polygon,
        ).seq().len() as int + self.idx_spec(Kind::Rect).seq().len() as int + self.idx_spec(
            Kind::Triangle,
        ).seq().len() as int
    }
}

/// A position sequence shifted by a fixed offset.
pub open spec fn shifted(q: Seq<int>, off: int) -> Seq<int> {
    q.map_values(|x: int| x + off)
}

/// Length and elements of a shifted position sequence.
pub proof fn lemma_shifted_props(q: Seq<int>, off: int)
    ensures
        shifted(q, off).len() == q.len(),
        forall|j: int| 0 <= j < q.len() ==> #[trigger] shifted(q, off)[j] == q[j] + off,
        shifted(q, 0) == q,
{
    assert(shifted(q, 0) =~= q);
}

/// The bucket of kind `k` holds exactly the kind-`k` elements of the
/// chunk `s`, and its positions are the chunk-local positions shifted by
/// `off`.
pub open spec fn chunk_kind_ok(p: SplitGeoSeq, s: Seq<GView>, off: int, k: Kind) -> bool {
    &&& p.idx_spec(k).wf()
    &&& p.idx_spec(k).seq() == shifted(positions_of(s, k), off)
    &&& views_of(p.bucket_spec(k)) == geoms_of(s, k)
}

/// `p` partitions the chunk `s` whose first element sits at position
/// `off` of the whole input.
pub open spec fn is_chunk_partition(p: SplitGeoSeq, s: Seq<GView>, off: int) -> bool {
    forall|k: Kind| #[trigger] chunk_kind_ok(p, s, off, k)
}

/// `p` partitions the whole sequence `s`.
pub open spec fn is_partition_of(p: SplitGeoSeq, s: Seq<GView>) -> bool {
    is_chunk_partition(p, s, 0)
}

/// Every position set of a partition is in canonical form (a contiguous
/// run held as a range).
pub open spec fn canonical_indexes(p: SplitGeoSeq) -> bool {
    forall|k: Kind| (#[trigger] p.idx_spec(k)).canonical()
}

/// What building a partition over the chunk `[start, end)` of a sequence
/// returns: the chunk's partition, with every position set canonical,
/// when every element of the chunk is valid; and the error of the
/// chunk's first invalid element otherwise, with positions counted in
/// the whole sequence.
pub open spec fn chunk_contract(
    s: Seq<GView>,
    start: int,
    end: int,
    r: Result<SplitGeoSeq, Error>,
) -> bool {
    let sub = s.subrange(start, end);
    match r {
        Ok(p) => all_valid(sub) && is_chunk_partition(p, sub, start) && canonical_indexes(p),
        Err(e) => !all_valid(sub) && e == expected_error(
            sub[first_bad(sub)],
            (start + first_bad(sub)) as usize,
        ),
    }
}

/// Positions of a kind are ascending and lie within the sequence.
pub proof fn lemma_positions_props(s: Seq<GView>, k: Kind)
    ensures
        ascending(positions_of(s, k)),
        forall|j: int|
            0 <= j < positions_of(s, k).len() ==> 0 <= #[trigger] positions_of(s, k)[j] < s.len(),
    decreases s.len(),
{
    if s.len() > 0 {
        lemma_positions_props(s.drop_last(), k);
    }
}

/// A position is recorded under kind `k` exactly when the element there
/// has kind `k`.
pub proof fn lemma_positions_contains(s: Seq<GView>, k: Kind, p: int)
    requires
        0 <= p < s.len(),
    ensures
        positions_of(s, k).contains(p) <==> s[p].kind() == k,
    decreases s.len(),
{
    lemma_positions_props(s.drop_last(), k);
    if p < s.len() - 1 {
        lemma_positions_contains(s.drop_last(), k, p);
        assert(s.drop_last()[p] == s[p]);
        if positions_of(s.drop_last(), k).contains(p) {
            let j = choose|j: int|
                0 <= j < positions_of(s.drop_last(), k).len() && positions_of(s.drop_last(), k)[j]
                    == p;
            assert(positions_of(s, k)[j] == p);
        } else if positions_of(s, k).contains(p) {
            let j = choose|j: int|
                0 <= j < positions_of(s, k).len() && positions_of(s, k)[j] == p;
            if s.last().kind() == k {
                assert(j < positions_of(s.drop_last(), k).len());
                assert(positions_of(s.drop_last(), k)[j] == p);
            }
        }
    } else {
        if s.last().kind() == k {
            assert(positions_of(s, k).last() == p);
        } else if positions_of(s, k).contains(p) {
            let j = choose|j: int|
                0 <= j < positions_of(s, k).len() && positions_of(s, k)[j] == p;
            assert(positions_of(s.drop_last(), k)[j] == p);
        }
    }
}

/// The six kinds together record every position exactly once: the bucket
/// sizes sum to the length of the sequence.
pub proof fn lemma_positions_total(s: Seq<GView>)
    ensures
        positions_of(s, Kind::Point).len() + positions_of(s, Kind::Line).len() + positions_of(
            s,
            Kind::LineString,
        ).len() + positions_of(s, Kind::Polygon).len() + positions_of(s, Kind::Rect).len()
            + positions_of(s, Kind::Triangle).len() == s.len(),
    decreases s.len(),
{
    if s.len() > 0 {
        lemma_positions_total(s.drop_last());
    }
}

/// Extending a prefix by one element extends exactly the positions of
/// that element's kind.
pub proof fn lemma_positions_step(s: Seq<GView>, m: int, k: Kind)
    requires
        0 <= m < s.len(),
    ensures
        positions_of(s.take(m + 1), k) == if s[m].kind() == k {
            positions_of(s.take(m), k).push(m)
        } else {
            positions_of(s.take(m), k)
        },
{
    assert(s.take(m + 1).drop_last() =~= s.take(m));
    assert(s.take(m + 1).last() == s[m]);
}

/// Positions over a concatenation: the first part's positions, then the
/// second part's shifted by the first part's length.
pub proof fn lemma_positions_concat(s: Seq<GView>, t: Seq<GView>, k: Kind)
    ensures
        positions_of(s + t, k) == positions_of(s, k) + shifted(positions_of(t, k), s.len() as int),
        geoms_of(s + t, k) == geoms_of(s, k) + geoms_of(t, k),
    decreases t.len(),
{
    lemma_positions_props(s, k);
    lemma_positions_props(t, k);
    lemma_shifted_props(positions_of(t, k), s.len() as int);
    if t.len() == 0 {
        assert(s + t =~= s);
        assert(shifted(positions_of(t, k), s.len() as int) =~= Seq::<int>::empty());
        assert(positions_of(s + t, k) =~= positions_of(s, k) + shifted(
            positions_of(t, k),
            s.len() as int,
        ));
        assert(geoms_of(s + t, k) =~= geoms_of(s, k) + geoms_of(t, k));
    } else {
        lemma_positions_concat(s, t.drop_last(), k);
        lemma_positions_props(t.drop_last(), k);
        lemma_shifted_props(positions_of(t.drop_last(), k), s.len() as int);
        assert((s + t).drop_last() =~= s + t.drop_last());
        assert((s + t).last() == t.last());
        if t.last().kind() == k {
            assert(positions_of(s + t, k) =~= positions_of(s, k) + shifted(
                positions_of(t, k),
                s.len() as int,
            ));
        } else {
            assert(positions_of(s + t, k) =~= positions_of(s, k) + shifted(
                positions_of(t, k),
                s.len() as int,
            ));
        }
        assert forall|j: int| 0 <= j < geoms_of(s + t, k).len() implies geoms_of(s + t, k)[j]
            == (geoms_of(s, k) + geoms_of(t, k))[j] by {
            let ps = positions_of(s, k);
            let pt = positions_of(t, k);
            if j < ps.len() {
                assert(positions_of(s + t, k)[j] == ps[j]);
                assert((s + t)[ps[j]] == s[ps[j]]);
            } else {
                assert(positions_of(s + t, k)[j] == pt[j - ps.len()] + s.len());
                assert((s + t)[pt[j - ps.len()] + s.len()] == t[pt[j - ps.len()]]);
            }
        }
        assert(geoms_of(s + t, k) =~= geoms_of(s, k) + geoms_of(t, k));
    }
}

/// The first invalid position of a sequence whose prefix of length `m`
/// is valid lies at `m` positions past the first invalid position of the
/// rest.
pub proof fn lemma_first_bad_split(s: Seq<GView>, m: int)
    requires
        0 <= m <= s.len(),
        all_valid(s.subrange(0, m)),
    ensures
        !all_valid(s) ==> first_bad(s) == m + first_bad(s.subrange(m, s.len() as int)),
        all_valid(s) <==> all_valid(s.subrange(m, s.len() as int)),
    decreases m,
{
    let n = s.len() as int;
    if m == 0 {
        assert(s.subrange(0, n) =~= s);
    } else {
        assert(geom_valid(s.subrange(0, m)[0]));
        assert(s[0] == s.subrange(0, m)[0]);
        let d = s.drop_first();
        assert(d =~= s.subrange(1, n));
        assert(d.subrange(0, m - 1) =~= s.subrange(1, m));
        assert forall|i: int| 0 <= i < m - 1 implies geom_valid(#[trigger] d.subrange(0, m - 1)[i]) by {
            assert(d.subrange(0, m - 1)[i] == s.subrange(0, m)[i + 1]);
        }
        lemma_first_bad_split(d, m - 1);
        assert(d.subrange(m - 1, d.len() as int) =~= s.subrange(m, n));
        if !all_valid(s) {
            assert(!all_valid(d)) by {
                let j = choose|j: int| 0 <= j < s.len() && !geom_valid(#[trigger] s[j]);
                assert(j >= 1);
                assert(d[j - 1] == s[j]);
            }
        } else {
            assert forall|i: int| 0 <= i < d.len() implies geom_valid(#[trigger] d[i]) by {
                assert(d[i] == s[i + 1]);
            }
        }
    }
}

/// Where a sequence is not fully valid, its first invalid position is in
/// range, invalid, and preceded by valid elements only.
pub proof fn lemma_first_bad_props(s: Seq<GView>)
    requires
        !all_valid(s),
    ensures
        0 <= first_bad(s) < s.len(),
        !geom_valid(s[first_bad(s)]),
        forall|j: int| 0 <= j < first_bad(s) ==> geom_valid(#[trigger] s[j]),
    decreases s.len(),
{
    assert(s.len() > 0);
    if geom_valid(s.first()) {
        let d = s.drop_first();
        assert(!all_valid(d)) by {
            let j = choose|j: int| 0 <= j < s.len() && !geom_valid(#[trigger] s[j]);
            assert(j >= 1);
            assert(d[j - 1] == s[j]);
        }
        lemma_first_bad_props(d);
        assert(s[first_bad(s)] == d[first_bad(d)]);
        assert forall|j: int| 0 <= j < first_bad(s) implies geom_valid(#[trigger] s[j]) by {
            if j >= 1 {
                assert(d[j - 1] == s[j]);
            }
        }
    }
}

/// An invalid prefix fixes the first invalid position of the whole
/// sequence.
pub proof fn lemma_first_bad_prefix(s: Seq<GView>, m: int)
    requires
        0 <= m <= s.len(),
        !all_valid(s.subrange(0, m)),
    ensures
        !all_valid(s),
        first_bad(s) == first_bad(s.subrange(0, m)),
    decreases m,
{
    let pre = s.subrange(0, m);
    assert(m > 0);
    assert(!all_valid(s)) by {
        let j = choose|j: int| 0 <= j < pre.len() && !geom_valid(#[trigger] pre[j]);
        assert(s[j] == pre[j]);
    }
    if geom_valid(s.first()) {
        assert(pre.first() == s.first());
        let d = s.drop_first();
        assert(d =~= s.subrange(1, s.len() as int));
        assert(d.subrange(0, m - 1) =~= pre.drop_first());
        assert(!all_valid(pre.drop_first())) by {
            let j = choose|j: int| 0 <= j < pre.len() && !geom_valid(#[trigger] pre[j]);
            assert(j >= 1);
            assert(pre.drop_first()[j - 1] == pre[j]);
        }
        lemma_first_bad_prefix(d, m - 1);
    } else {
        assert(pre.first() == s.first());
    }
}

/// Appends a geometry to the bucket of its kind and records its
/// position there; the other buckets are untouched.
fn sgs_push(res: &mut SplitGeoSeq, g: Geom, position: usize)
    requires
        old(res).idx_spec(g@.kind()).wf(),
        position < usize::MAX,
        old(res).idx_spec(g@.kind()).seq().len() > 0 ==> old(res).idx_spec(g@.kind()).seq().last()
            < position as int,
    ensures
        forall|k2: Kind|
            k2 != g@.kind() ==> final(res).bucket_spec(k2) == old(res).bucket_spec(k2)
                && final(res).idx_spec(k2) == old(res).idx_spec(k2),
        final(res).bucket_spec(g@.kind()) == old(res).bucket_spec(g@.kind()).push(g),
        final(res).idx_spec(g@.kind()).wf(),
        final(res).idx_spec(g@.kind()).seq() == old(res).idx_spec(g@.kind()).seq().push(
            position as int,
        ),
{
    let k: Kind = g.kind();
    match k {
        Kind::Point => {
            res.geos.points.push(g);
            res.indexes.points.push(position);
        },
        Kind::Line => {
            res.geos.lines.push(g);
            res.indexes.lines.push(position);
        },
        Kind::LineString => {
            res.geos.line_strings.push(g);
            res.indexes.line_strings.push(position);
        },
        Kind::Polygon => {
            res.geos.polys.push(g);
            res.indexes.polys.push(position);
        },
        Kind::Rect => {
            res.geos.rects.push(g);
            res.indexes.rects.push(position);
        },
        Kind::Triangle => {
            res.geos.tris.push(g);
            res.indexes.tris.push(position);
        },
    }
}

impl SplitGeoSeq {
    /// The empty partition.
    pub fn new() -> (r: SplitGeoSeq)
        ensures
            forall|k: Kind| #[trigger] r.idx_spec(k) == (Indexes::Range { start: 0usize, end: 0usize }),
            forall|k: Kind| #[trigger] r.bucket_spec(k) == Seq::<Geom>::empty(),
    {
        let r = SplitGeoSeq {
            geos: SplitGeo {
                points: Vec::new(),
                lines: Vec::new(),
                polys: Vec::new(),
                line_strings: Vec::new(),
                rects: Vec::new(),
                tris: Vec::new(),
            },
            indexes: SplitGeoIndexes {
                points: Indexes::new(),
                lines: Indexes::new(),
                polys: Indexes::new(),
                line_strings: Indexes::new(),
                rects: Indexes::new(),
                tris: Indexes::new(),
            },
        };
        proof {
            assert forall|k: Kind| #[trigger] r.bucket_spec(k) == Seq::<Geom>::empty() by {
                assert(r.bucket_spec(k) =~= Seq::<Geom>::empty());
            }
        }
        r
    }
}

/// The empty partition partitions the empty chunk at any offset.
pub proof fn lemma_empty_chunk(p: SplitGeoSeq, off: int)
    requires
        forall|k: Kind| #[trigger] p.idx_spec(k) == (Indexes::Range { start: 0usize, end: 0usize }),
        forall|k: Kind| #[trigger] p.bucket_spec(k) == Seq::<Geom>::empty(),
    ensures
        is_chunk_partition(p, Seq::<GView>::empty(), off),
{
    assert forall|k: Kind| #[trigger] chunk_kind_ok(p, Seq::<GView>::empty(), off, k) by {
        assert(p.idx_spec(k).seq() =~= Seq::<int>::empty());
        assert(positions_of(Seq::<GView>::empty(), k).map_values(|x: int| x + off)
            =~= Seq::<int>::empty());
        assert(views_of(p.bucket_spec(k)) =~= geoms_of(Seq::<GView>::empty(), k));
    }
}

impl SplitGeoSeq {
    /// Partitions the chunk `[start, end)` of a sequence, validating each
    /// element; positions are counted in the whole sequence and returned
    /// in canonical form.  Fails with the error of the chunk's first
    /// invalid element.
    pub fn chunk_partition(seq: &Vec<Geom>, start: usize, end: usize) -> (r: Result<
        SplitGeoSeq,
        Error,
    >)
        requires
            start <= end <= seq@.len(),
        ensures
            chunk_contract(views_of(seq@), start as int, end as int, r),
    {
        let ghost vs = views_of(seq@);
        let ghost sub = vs.subrange(start as int, end as int);
        let mut res: SplitGeoSeq = SplitGeoSeq::new();
        proof {
            lemma_empty_chunk(res, start as int);
            assert(sub.take(0) =~= Seq::<GView>::empty());
        }
        let mut j: usize = start;
        while j < end
            invariant
                start <= j <= end,
                end <= seq@.len(),
                vs == views_of(seq@),
                sub == vs.subrange(start as int, end as int),
                all_valid(sub.take(j - start)),
                is_chunk_partition(res, sub.take(j - start), start as int),
            decreases end - j,
        {
            let ghost m = (j - start) as int;
            let g: &Geom = &seq[j];
            proof {
                assert(sub[m] == vs[j as int]);
                assert(vs[j as int] == g@);
            }
            match g.is_safe(j) {
                Err(e) => {
                    proof {
                        assert(!geom_valid(sub[m]));
                        assert(!all_valid(sub)) by {
                            assert(0 <= m < sub.len());
                        }
                        assert(first_bad(sub) == m) by {
                            lemma_first_bad_split(sub, m);
                            assert(sub.subrange(0, m) =~= sub.take(m));
                            assert(sub.subrange(m, sub.len() as int).first() == sub[m]);
                            assert(first_bad(sub.subrange(m, sub.len() as int)) == 0);
                        }
                    }
                    return Err(e);
                },
                Ok(()) => {},
            }
            let d: Geom = g.duplicate();
            let ghost res0 = res;
            proof {
                let k = d@.kind();
                assert(chunk_kind_ok(res0, sub.take(m), start as int, k));
                lemma_positions_props(sub.take(m), k);
                if res0.idx_spec(k).seq().len() > 0 {
                    let pk = positions_of(sub.take(m), k);
                    assert(res0.idx_spec(k).seq().last() == pk.last() + start);
                    assert(pk[pk.len() - 1] < m);
                }
            }
            sgs_push(&mut res, d, j);
            proof {
                assert(sub.take(m + 1).drop_last() =~= sub.take(m));
                assert(sub.take(m + 1).last() == sub[m]);
                let kd = d@.kind();
                assert forall|k: Kind| #[trigger] chunk_kind_ok(
                    res,
                    sub.take(m + 1),
                    start as int,
                    k,
                ) by {
                    assert(chunk_kind_ok(res0, sub.take(m), start as int, k));
                    lemma_positions_props(sub.take(m), k);
                    lemma_positions_step(sub, m, k);
                    let po = positions_of(sub.take(m), k);
                    let pn = positions_of(sub.take(m + 1), k);
                    if k == kd {
                        assert(pn == po.push(m));
                        assert(pn.map_values(|x: int| x + start as int) =~= po.map_values(
                            |x: int| x + start as int,
                        ).push(m + start as int));
                        assert(res.idx_spec(k).seq() == res0.idx_spec(k).seq().push(j as int));
                        assert forall|j0: int| 0 <= j0 < pn.len() implies views_of(
                            res.bucket_spec(k),
                        )[j0] == geoms_of(sub.take(m + 1), k)[j0] by {
                            assert(res.bucket_spec(k) == res0.bucket_spec(k).push(d));
                            assert(views_of(res0.bucket_spec(k)).len() == res0.bucket_spec(
                                k,
                            ).len());
                            assert(geoms_of(sub.take(m), k).len() == po.len());
                            assert(views_of(res.bucket_spec(k)).len() == res.bucket_spec(k).len());
                            assert(geoms_of(sub.take(m + 1), k).len() == pn.len());
                            assert(res0.bucket_spec(k).len() == po.len());
                            assert(views_of(res.bucket_spec(k))[j0] == res.bucket_spec(k)[j0]@);
                            if j0 < po.len() {
                                assert(pn[j0] == po[j0]);
                                assert(0 <= positions_of(sub.take(m), k)[j0] < sub.take(m).len());
                                assert(sub.take(m + 1)[po[j0]] == sub.take(m)[po[j0]]);
                                assert((res0.bucket_spec(k).push(d))[j0] == res0.bucket_spec(
                                    k,
                                )[j0]);
                                assert(views_of(res0.bucket_spec(k))[j0] == geoms_of(
                                    sub.take(m),
                                    k,
                                )[j0]);
                            } else {
                                assert(pn[j0] == m);
                                assert(sub.take(m + 1)[m] == sub[m]);
                                assert((res0.bucket_spec(k).push(d))[j0] == d);
                            }
                        }
                        assert(views_of(res0.bucket_spec(k)).len() == res0.bucket_spec(k).len());
                        assert(geoms_of(sub.take(m), k).len() == po.len());
                        assert(views_of(res.bucket_spec(k)).len() == res.bucket_spec(k).len());
                        assert(geoms_of(sub.take(m + 1), k).len() == pn.len());
                        assert(views_of(res.bucket_spec(k)) =~= geoms_of(sub.take(m + 1), k));
                    } else {
                        assert(pn == po);
                        assert(res.idx_spec(k) == res0.idx_spec(k));
                        assert(res.bucket_spec(k) == res0.bucket_spec(k));
                        assert forall|j0: int| 0 <= j0 < pn.len() implies geoms_of(
                            sub.take(m + 1),
                            k,
                        )[j0] == geoms_of(sub.take(m), k)[j0] by {
                            assert(0 <= positions_of(sub.take(m), k)[j0] < sub.take(m).len());
                            assert(sub.take(m + 1)[po[j0]] == sub.take(m)[po[j0]]);
                        }
                        assert(geoms_of(sub.take(m + 1), k) =~= geoms_of(sub.take(m), k));
                    }
                }
                assert forall|i: int| 0 <= i < m + 1 implies geom_valid(
                    #[trigger] sub.take(m + 1)[i],
                ) by {
                    if i < m {
                        assert(sub.take(m)[i] == sub.take(m + 1)[i]);
                        assert(geom_valid(sub.take(m)[i]));
                    }
                }
            }
            j = j + 1;
        }
        proof {
            assert(sub.take(sub.len() as int) =~= sub);
            assert(chunk_kind_ok(res, sub, start as int, Kind::Point));
            assert(chunk_kind_ok(res, sub, start as int, Kind::Line));
            assert(chunk_kind_ok(res, sub, start as int, Kind::LineString));
            assert(chunk_kind_ok(res, sub, start as int, Kind::Polygon));
            assert(chunk_kind_ok(res, sub, start as int, Kind::Rect));
            assert(chunk_kind_ok(res, sub, start as int, Kind::Triangle));
        }
        let ghost res0 = res;
        res.indexes.points.canonicalize();
        res.indexes.lines.canonicalize();
        res.indexes.polys.canonicalize();
        res.indexes.line_strings.canonicalize();
        res.indexes.rects.canonicalize();
        res.indexes.tris.canonicalize();
        proof {
            assert forall|k: Kind| #[trigger] chunk_kind_ok(res, sub, start as int, k) by {
                assert(chunk_kind_ok(res0, sub, start as int, k));
                assert(res.idx_spec(k).seq() == res0.idx_spec(k).seq());
                assert(res.bucket_spec(k) == res0.bucket_spec(k));
            }
            assert forall|k: Kind| (#[trigger] res.idx_spec(k)).canonical() by {}
        }
        Ok(res)
    }

    /// Partitions a whole sequence, validating every element; every
    /// position set comes out canonical, so any two successful builds of
    /// the same input are equal representation for representation.  Fails
    /// with the error of the first invalid element.
    pub fn try_from(seq: &Vec<Geom>) -> (r: Result<SplitGeoSeq, Error>)
        ensures
            chunk_contract(views_of(seq@), 0, seq@.len() as int, r),
    {
        let n: usize = seq.len();
        SplitGeoSeq::chunk_partition(seq, 0, n)
    }

    /// Combines the partitions of two adjacent chunks, the first lying
    /// entirely before the second: buckets are concatenated and the
    /// position sets merged into canonical form.
    pub fn merge(a: SplitGeoSeq, b: SplitGeoSeq) -> (r: SplitGeoSeq)
        requires
            forall|k: Kind| #[trigger] a.idx_spec(k).wf(),
            forall|k: Kind| #[trigger] b.idx_spec(k).wf(),
            forall|k: Kind| before(#[trigger] a.idx_spec(k).seq(), b.idx_spec(k).seq()),
        ensures
            forall|k: Kind| #[trigger] r.idx_spec(k).canonical(),
            forall|k: Kind|
                #[trigger] r.idx_spec(k).seq() == a.idx_spec(k).seq() + b.idx_spec(k).seq(),
            forall|k: Kind| #[trigger] r.bucket_spec(k) == a.bucket_spec(k) + b.bucket_spec(k),
    {
        proof {
            assert(a.idx_spec(Kind::Point).wf());
            assert(a.idx_spec(Kind::Line).wf());
            assert(a.idx_spec(Kind::LineString).wf());
            assert(a.idx_spec(Kind::Polygon).wf());
            assert(a.idx_spec(Kind::Rect).wf());
            assert(a.idx_spec(Kind::Triangle).wf());
            assert(b.idx_spec(Kind::Point).wf());
            assert(b.idx_spec(Kind::Line).wf());
            assert(b.idx_spec(Kind::LineString).wf());
            assert(b.idx_spec(Kind::Polygon).wf());
            assert(b.idx_spec(Kind::Rect).wf());
            assert(b.idx_spec(Kind::Triangle).wf());
            assert(before(a.idx_spec(Kind::Point).seq(), b.idx_spec(Kind::Point).seq()));
            assert(before(a.idx_spec(Kind::Line).seq(), b.idx_spec(Kind::Line).seq()));
            assert(before(a.idx_spec(Kind::LineString).seq(), b.idx_spec(Kind::LineString).seq()));
            assert(before(a.idx_spec(Kind::Polygon).seq(), b.idx_spec(Kind::Polygon).seq()));
            assert(before(a.idx_spec(Kind::Rect).seq(), b.idx_spec(Kind::Rect).seq()));
            assert(before(a.idx_spec(Kind::Triangle).seq(), b.idx_spec(Kind::Triangle).seq()));
        }
        let SplitGeoSeq { geos: mut ga, indexes: ia } = a;
        let SplitGeoSeq { geos: mut gb, indexes: ib } = b;
        ga.points.append(&mut gb.points);
        ga.lines.append(&mut gb.lines);
        ga.polys.append(&mut gb.polys);
        ga.line_strings.append(&mut gb.line_strings);
        ga.rects.append(&mut gb.rects);
        ga.tris.append(&mut gb.tris);
        let indexes = SplitGeoIndexes {
            points: ia.points.merge(ib.points),
            lines: ia.lines.merge(ib.lines),
            polys: ia.polys.merge(ib.polys),
            line_strings: ia.line_strings.merge(ib.line_strings),
            rects: ia.rects.merge(ib.rects),
            tris: ia.tris.merge(ib.tris),
        };
        let r = SplitGeoSeq { geos: ga, indexes };
        proof {
            assert forall|k: Kind| #[trigger] r.idx_spec(k).seq() == a.idx_spec(k).seq()
                + b.idx_spec(k).seq() by {
                assert(before(a.idx_spec(k).seq(), b.idx_spec(k).seq()));
                assert(merged_seq(a.idx_spec(k).seq(), b.idx_spec(k).seq()) == a.idx_spec(k).seq()
                    + b.idx_spec(k).seq());
            }
        }
        r
    }
}

/// The views of a concatenation are the concatenated views.
pub proof fn lemma_views_concat(x: Seq<Geom>, y: Seq<Geom>)
    ensures
        views_of(x + y) == views_of(x) + views_of(y),
{
    assert forall|i: int| 0 <= i < (x + y).len() implies views_of(x + y)[i] == (views_of(x)
        + views_of(y))[i] by {
        if i < x.len() {
            assert((x + y)[i] == x[i]);
        } else {
            assert((x + y)[i] == y[i - x.len()]);
        }
    }
    assert(views_of(x + y) =~= views_of(x) + views_of(y));
}

/// Shifting distributes over concatenation, and two shifts compose.
pub proof fn lemma_shift_concat(p: Seq<int>, q: Seq<int>, off: int, inner: int)
    ensures
        shifted(p + shifted(q, inner), off) == shifted(p, off) + shifted(q, off + inner),
{
    lemma_shifted_props(q, inner);
    lemma_shifted_props(p, off);
    lemma_shifted_props(q, off + inner);
    lemma_shifted_props(p + shifted(q, inner), off);
    let lhs = shifted(p + shifted(q, inner), off);
    let rhs = shifted(p, off) + shifted(q, off + inner);
    assert forall|i: int| 0 <= i < lhs.len() implies lhs[i] == rhs[i] by {
        if i < p.len() {
            assert((p + shifted(q, inner))[i] == p[i]);
        } else {
            assert((p + shifted(q, inner))[i] == shifted(q, inner)[i - p.len()]);
        }
    }
    assert(lhs =~= rhs);
}

/// Merging the partitions of two adjacent chunks partitions their
/// concatenation.
pub proof fn lemma_merge_chunk(
    a: SplitGeoSeq,
    b: SplitGeoSeq,
    r: SplitGeoSeq,
    s: Seq<GView>,
    t: Seq<GView>,
    off: int,
)
    requires
        is_chunk_partition(a, s, off),
        is_chunk_partition(b, t, off + s.len()),
        forall|k: Kind| #[trigger] r.idx_spec(k).wf(),
        forall|k: Kind| #[trigger] r.idx_spec(k).seq() == a.idx_spec(k).seq() + b.idx_spec(k).seq(),
        forall|k: Kind| #[trigger] r.bucket_spec(k) == a.bucket_spec(k) + b.bucket_spec(k),
    ensures
        is_chunk_partition(r, s + t, off),
{
    assert forall|k: Kind| #[trigger] chunk_kind_ok(r, s + t, off, k) by {
        assert(chunk_kind_ok(a, s, off, k));
        assert(chunk_kind_ok(b, t, off + s.len(), k));
        lemma_positions_concat(s, t, k);
        lemma_shift_concat(positions_of(s, k), positions_of(t, k), off, s.len() as int);
        lemma_views_concat(a.bucket_spec(k), b.bucket_spec(k));
    }
}

/// The state of the output vector after one bucket has been scattered
/// back to its original positions.
pub open spec fn scatter_post(prev: Seq<Geom>, next: Seq<Geom>, bucket: Seq<Geom>, idx: Indexes) -> bool {
    &&& next.len() == prev.len()
    &&& forall|j: int| 0 <= j < idx.seq().len() ==> next[#[trigger] idx.seq()[j]]@ == bucket[j]@
    &&& forall|p: int| 0 <= p < prev.len() && !idx.seq().contains(p) ==> next[p] == prev[p]
}

/// Writes each element of a bucket back to its original position.
fn scatter(bucket: &Vec<Geom>, idx: &Indexes, out: &mut Vec<Geom>)
    requires
        idx.wf(),
        bucket@.len() == idx.seq().len(),
        forall|j: int| 0 <= j < idx.seq().len() ==> 0 <= #[trigger] idx.seq()[j] < old(out)@.len(),
    ensures
        scatter_post(old(out)@, final(out)@, bucket@, *idx),
{
    let n: usize = bucket.len();
    let mut j: usize = 0;
    while j < n
        invariant
            0 <= j <= n,
            n == bucket@.len(),
            n == idx.seq().len(),
            idx.wf(),
            out@.len() == old(out)@.len(),
            forall|j0: int| 0 <= j0 < n ==> 0 <= #[trigger] idx.seq()[j0] < out@.len(),
            forall|j0: int| 0 <= j0 < j ==> out@[#[trigger] idx.seq()[j0]]@ == bucket@[j0]@,
            forall|p: int|
                0 <= p < out@.len() && !idx.seq().take(j as int).contains(p) ==> out@[p] == old(
                    out,
                )@[p],
        decreases n - j,
    {
        let pos: usize = idx.get(j);
        let d: Geom = bucket[j].duplicate();
        let ghost prev = out@;
        out.set(pos, d);
        proof {
            crate::positions::lemma_indexes_ascending(*idx);
            assert forall|j0: int| 0 <= j0 < j + 1 implies out@[#[trigger] idx.seq()[j0]]@
                == bucket@[j0]@ by {
                if j0 < j as int {
                    assert(idx.seq()[j0] < idx.seq()[j as int]);
                }
            }
            assert forall|p: int|
                0 <= p < out@.len() && !idx.seq().take(j + 1).contains(p) implies out@[p]
                == old(out)@[p] by {
                assert(idx.seq().take(j + 1)[j as int] == idx.seq()[j as int]);
                if p != idx.seq()[j as int] {
                    if idx.seq().take(j as int).contains(p) {
                        let w = choose|w: int|
                            0 <= w < j && #[trigger] idx.seq().take(j as int)[w] == p;
                        assert(idx.seq().take(j + 1)[w] == p);
                        assert(false);
                    }
                    assert(prev[p] == old(out)@[p]);
                }
            }
        }
        j = j + 1;
    }
    proof {
        assert(idx.seq().take(n as int) =~= idx.seq());
        assert forall|p: int|
            0 <= p < out@.len() && !idx.seq().contains(p) implies out@[p] == old(out)@[p] by {
            if idx.seq().take(n as int).contains(p) {
                let w = choose|w: int| 0 <= w < n && #[trigger] idx.seq().take(n as int)[w] == p;
                assert(idx.seq()[w] == p);
                assert(false);
            }
        }
    }
}

/// One scatter stage either writes the element of `s` that belongs at
/// `pos` (when that element has the scattered kind) or leaves `pos`
/// untouched.
proof fn lemma_scatter_effect(
    p: SplitGeoSeq,
    s: Seq<GView>,
    prev: Seq<Geom>,
    next: Seq<Geom>,
    k: Kind,
    pos: int,
)
    requires
        chunk_kind_ok(p, s, 0, k),
        scatter_post(prev, next, p.bucket_spec(k), p.idx_spec(k)),
        0 <= pos < s.len(),
        prev.len() == s.len(),
    ensures
        s[pos].kind() == k ==> next[pos]@ == s[pos],
        s[pos].kind() != k ==> next[pos] == prev[pos],
{
    lemma_positions_contains(s, k, pos);
    lemma_positions_props(s, k);
    let pk = positions_of(s, k);
    lemma_shifted_props(pk, 0);
    assert(p.idx_spec(k).seq() == pk);
    assert(views_of(p.bucket_spec(k)).len() == p.bucket_spec(k).len());
    assert(geoms_of(s, k).len() == pk.len());
    if s[pos].kind() == k {
        let j = choose|j: int| 0 <= j < pk.len() && #[trigger] pk[j] == pos;
        assert(p.idx_spec(k).seq()[j] == pos);
        assert(next[pos]@ == p.bucket_spec(k)[j]@);
        assert(views_of(p.bucket_spec(k))[j] == p.bucket_spec(k)[j]@);
        assert(geoms_of(s, k)[j] == s[pk[j]]);
    } else {
        assert(!p.idx_spec(k).seq().contains(pos)) by {
            if p.idx_spec(k).seq().contains(pos) {
                let j = choose|j: int|
                    0 <= j < p.idx_spec(k).seq().len() && #[trigger] p.idx_spec(k).seq()[j] == pos;
                assert(pk[j] == pos);
                assert(pk.contains(pos));
            }
        }
    }
}

impl SplitGeoSeq {
    /// Rebuilds the input sequence: every bucket element is written back
    /// to its original position.
    pub fn to_vec(&self) -> (r: Vec<Geom>)
        requires
            forall|k: Kind| #[trigger] self.idx_spec(k).wf(),
            forall|k: Kind|
                #[trigger] self.idx_spec(k).seq().len() == self.bucket_spec(k).len(),
            forall|k: Kind, j: int|
                0 <= j < self.idx_spec(k).seq().len() ==> 0 <= #[trigger] self.idx_spec(k).seq()[j]
                    < self.total_len(),
            self.total_len() <= usize::MAX,
        ensures
            r@.len() == self.total_len(),
            forall|s: Seq<GView>| #[trigger] is_partition_of(*self, s) ==> views_of(r@) == s,
    {
        proof {
            assert(self.idx_spec(Kind::Point).wf());
            assert(self.idx_spec(Kind::Line).wf());
            assert(self.idx_spec(Kind::LineString).wf());
            assert(self.idx_spec(Kind::Polygon).wf());
            assert(self.idx_spec(Kind::Rect).wf());
            assert(self.idx_spec(Kind::Triangle).wf());
            assert(self.idx_spec(Kind::Point).seq().len() == self.bucket_spec(Kind::Point).len());
            assert(self.idx_spec(Kind::Line).seq().len() == self.bucket_spec(Kind::Line).len());
            assert(self.idx_spec(Kind::LineString).seq().len() == self.bucket_spec(
                Kind::LineString,
            ).len());
            assert(self.idx_spec(Kind::Polygon).seq().len() == self.bucket_spec(
                Kind::Polygon,
            ).len());
            assert(self.idx_spec(Kind::Rect).seq().len() == self.bucket_spec(Kind::Rect).len());
            assert(self.idx_spec(Kind::Triangle).seq().len() == self.bucket_spec(
                Kind::Triangle,
            ).len());
        }
        let n1: usize = self.indexes.points.len();
        let n2: usize = self.indexes.lines.len();
        let n3: usize = self.indexes.line_strings.len();
        let n4: usize = self.indexes.polys.len();
        let n5: usize = self.indexes.rects.len();
        let n6: usize = self.indexes.tris.len();
        let n: usize = n1 + n2 + n3 + n4 + n5 + n6;
        proof {
            assert(n as int == self.total_len());
        }
        let mut out: Vec<Geom> = Vec::new();
        let mut i: usize = 0;
        while i < n
            invariant
                0 <= i <= n,
                out@.len() == i,
            decreases n - i,
        {
            out.push(Geom::Point(Coord { x: 0, y: 0 }));
            i = i + 1;
        }
        let ghost g0 = out@;
        scatter(&self.geos.points, &self.indexes.points, &mut out);
        let ghost g1 = out@;
        scatter(&self.geos.lines, &self.indexes.lines, &mut out);
        let ghost g2 = out@;
        scatter(&self.geos.line_strings, &self.indexes.line_strings, &mut out);
        let ghost g3 = out@;
        scatter(&self.geos.polys, &self.indexes.polys, &mut out);
        let ghost g4 = out@;
        scatter(&self.geos.rects, &self.indexes.rects, &mut out);
        let ghost g5 = out@;
        scatter(&self.geos.tris, &self.indexes.tris, &mut out);
        proof {
            assert forall|s: Seq<GView>| #[trigger] is_partition_of(*self, s) implies views_of(
                out@,
            ) == s by {
                assert(chunk_kind_ok(*self, s, 0, Kind::Point));
                assert(chunk_kind_ok(*self, s, 0, Kind::Line));
                assert(chunk_kind_ok(*self, s, 0, Kind::LineString));
                assert(chunk_kind_ok(*self, s, 0, Kind::Polygon));
                assert(chunk_kind_ok(*self, s, 0, Kind::Rect));
                assert(chunk_kind_ok(*self, s, 0, Kind::Triangle));
                lemma_positions_total(s);
                assert(s.len() == n) by {
                    lemma_shifted_props(positions_of(s, Kind::Point), 0);
                    lemma_shifted_props(positions_of(s, Kind::Line), 0);
                    lemma_shifted_props(positions_of(s, Kind::LineString), 0);
                    lemma_shifted_props(positions_of(s, Kind::Polygon), 0);
                    lemma_shifted_props(positions_of(s, Kind::Rect), 0);
                    lemma_shifted_props(positions_of(s, Kind::Triangle), 0);
                }
                assert forall|pos: int| 0 <= pos < s.len() implies views_of(out@)[pos] == s[pos] by {
                    lemma_scatter_effect(*self, s, g0, g1, Kind::Point, pos);
                    lemma_scatter_effect(*self, s, g1, g2, Kind::Line, pos);
                    lemma_scatter_effect(*self, s, g2, g3, Kind::LineString, pos);
                    lemma_scatter_effect(*self, s, g3, g4, Kind::Polygon, pos);
                    lemma_scatter_effect(*self, s, g4, g5, Kind::Rect, pos);
                    lemma_scatter_effect(*self, s, g5, out@, Kind::Triangle, pos);
                }
                assert(views_of(out@) =~= s);
            }
        }
        out
    }
}

impl SplitGeoSeq {
    /// The bucket of kind `k`.
    pub fn bucket_ref(&self, k: Kind) -> (r: &Vec<Geom>)
        ensures
            r@ == self.bucket_spec(k),
    {
        match k {
            Kind::Point => &self.geos.points,
            Kind::Line => &self.geos.lines,
            Kind::LineString => &self.geos.line_strings,
            Kind::Polygon => &self.geos.polys,
            Kind::Rect => &self.geos.rects,
            Kind::Triangle => &self.geos.tris,
        }
    }

    /// The position set of the bucket of kind `k`.
    pub fn idx_ref(&self, k: Kind) -> (r: &Indexes)
        ensures
            *r == self.idx_spec(k),
    {
        match k {
            Kind::Point => &self.indexes.points,
            Kind::Line => &self.indexes.lines,
            Kind::LineString => &self.indexes.line_strings,
            Kind::Polygon => &self.indexes.polys,
            Kind::Rect => &self.indexes.rects,
            Kind::Triangle => &self.indexes.tris,
        }
    }
}

/// The roundtrip law: a partition determines the sequence it was built
/// from, so rebuilding the original order from the six buckets and their
/// position sets reproduces the input exactly.
pub proof fn lemma_partition_roundtrip(p: SplitGeoSeq, s: Seq<GView>, t: Seq<GView>)
    requires
        is_partition_of(p, s),
        is_partition_of(p, t),
    ensures
        s == t,
{
    assert(chunk_kind_ok(p, s, 0, Kind::Point));
    assert(chunk_kind_ok(p, s, 0, Kind::Line));
    assert(chunk_kind_ok(p, s, 0, Kind::LineString));
    assert(chunk_kind_ok(p, s, 0, Kind::Polygon));
    assert(chunk_kind_ok(p, s, 0, Kind::Rect));
    assert(chunk_kind_ok(p, s, 0, Kind::Triangle));
    assert(chunk_kind_ok(p, t, 0, Kind::Point));
    assert(chunk_kind_ok(p, t, 0, Kind::Line));
    assert(chunk_kind_ok(p, t, 0, Kind::LineString));
    assert(chunk_kind_ok(p, t, 0, Kind::Polygon));
    assert(chunk_kind_ok(p, t, 0, Kind::Rect));
    assert(chunk_kind_ok(p, t, 0, Kind::Triangle));
    lemma_positions_total(s);
    lemma_positions_total(t);
    assert forall|k: Kind| #[trigger] positions_of(s, k) == positions_of(t, k) by {
        assert(chunk_kind_ok(p, s, 0, k));
        assert(chunk_kind_ok(p, t, 0, k));
        lemma_shifted_props(positions_of(s, k), 0);
        lemma_shifted_props(positions_of(t, k), 0);
    }
    assert(s.len() == t.len());
    assert forall|pos: int| 0 <= pos < s.len() implies s[pos] == t[pos] by {
        let k = s[pos].kind();
        lemma_positions_contains(s, k, pos);
        lemma_positions_props(s, k);
        lemma_positions_props(t, k);
        let pk = positions_of(s, k);
        let j = choose|j: int| 0 <= j < pk.len() && #[trigger] pk[j] == pos;
        assert(chunk_kind_ok(p, s, 0, k));
        assert(chunk_kind_ok(p, t, 0, k));
        assert(geoms_of(s, k)[j] == s[pk[j]]);
        assert(geoms_of(t, k)[j] == t[pk[j]]);
        assert(geoms_of(s, k) == views_of(p.bucket_spec(k)));
        assert(geoms_of(t, k) == views_of(p.bucket_spec(k)));
    }
    assert(s =~= t);
}

/// Canonical partitions of the same sequence agree: the position sets
/// have identical representations and the buckets hold the same shapes.
/// Together with associativity of the chunk merge, this is why any
/// association order of merging chunk partitions reassembles to the same
/// result as partitioning the whole sequence directly.
pub proof fn lemma_partition_unique(p1: SplitGeoSeq, p2: SplitGeoSeq, s: Seq<GView>)
    requires
        is_partition_of(p1, s),
        is_partition_of(p2, s),
        forall|k: Kind| #[trigger] p1.idx_spec(k).canonical(),
        forall|k: Kind| #[trigger] p2.idx_spec(k).canonical(),
    ensures
        forall|k: Kind| #[trigger] crate::positions::repr_eq(p1.idx_spec(k), p2.idx_spec(k)),
        forall|k: Kind|
            #[trigger] views_of(p1.bucket_spec(k)) == views_of(p2.bucket_spec(k)),
{
    assert forall|k: Kind| #[trigger] crate::positions::repr_eq(
        p1.idx_spec(k),
        p2.idx_spec(k),
    ) by {
        assert(chunk_kind_ok(p1, s, 0, k));
        assert(chunk_kind_ok(p2, s, 0, k));
        crate::positions::lemma_canonical_unique(p1.idx_spec(k), p2.idx_spec(k));
    }
    assert forall|k: Kind| #[trigger] views_of(p1.bucket_spec(k)) == views_of(
        p2.bucket_spec(k),
    ) by {
        assert(chunk_kind_ok(p1, s, 0, k));
        assert(chunk_kind_ok(p2, s, 0, k));
    }
}

/// Two construction results agree: both fail with the same error, or
/// both succeed with position sets of identical representation and
/// buckets holding the same shapes.
pub open spec fn builds_agree(r1: Result<SplitGeoSeq, Error>, r2: Result<SplitGeoSeq, Error>) -> bool {
    match (r1, r2) {
        (Ok(p1), Ok(p2)) => (forall|k: Kind|
            #[trigger] crate::positions::repr_eq(p1.idx_spec(k), p2.idx_spec(k))) && (forall|k: Kind|
            #[trigger] views_of(p1.bucket_spec(k)) == views_of(p2.bucket_spec(k))),
        (Err(e1), Err(e2)) => e1 == e2,
        _ => false,
    }
}

/// Any two constructions of a partition — direct, or chunked and merged
/// in any association order — agree on the same input.
pub proof fn lemma_build_deterministic(
    r1: Result<SplitGeoSeq, Error>,
    r2: Result<SplitGeoSeq, Error>,
    s: Seq<GView>,
)
    requires
        chunk_contract(s, 0, s.len() as int, r1),
        chunk_contract(s, 0, s.len() as int, r2),
    ensures
        builds_agree(r1, r2),
{
    assert(s.subrange(0, s.len() as int) =~= s);
    match (r1, r2) {
        (Ok(p1), Ok(p2)) => {
            assert forall|k: Kind| #[trigger] p1.idx_spec(k).canonical() by {}
            assert forall|k: Kind| #[trigger] p2.idx_spec(k).canonical() by {}
            lemma_partition_unique(p1, p2, s);
        },
        (Err(_), Err(_)) => {},
        (Ok(_), Err(_)) => {
            assert(false);
        },
        (Err(_), Ok(_)) => {
            assert(false);
        },
    }
}

} // verus!
