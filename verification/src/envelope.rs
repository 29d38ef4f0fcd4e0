//! Axis-aligned bounding envelopes.
//!
//! Each geometry gets the smallest axis-aligned box (under the numeric
//! order of its coordinate bit patterns) that contains all of its
//! coordinates; candidate pairs are filtered by envelope overlap before
//! any exact predicate runs.  For a polygon the exterior ring determines
//! the envelope, as every interior ring lies within it.

use vstd::prelude::*;
use crate::bits::{le_bits, max_spec, min_spec, max_bits, min_bits, le, lemma_le_trans};
use crate::geoms::{Coord, Geom, GView};

verus! {

/// An axis-aligned bounding box over coordinate bit patterns.
#[derive(Clone, Copy, PartialEq, Eq, Structural, Debug)]
pub struct Env {
    pub min_x: u64,
    pub min_y: u64,
    pub max_x: u64,
    pub max_y: u64,
}

/// The envelope of a single coordinate.
pub open spec fn env_point(c: Coord) -> Env {
    Env { min_x: c.x, min_y: c.y, max_x: c.x, max_y: c.y }
}

/// The envelope grown to cover one more coordinate.
pub open spec fn env_extend(e: Env, c: Coord) -> Env {
    Env {
        min_x: min_spec(e.min_x, c.x),
        min_y: min_spec(e.min_y, c.y),
        max_x: max_spec(e.max_x, c.x),
        max_y: max_spec(e.max_y, c.y),
    }
}

/// The envelope of a non-empty coordinate sequence.
pub open spec fn env_of_coords(s: Seq<Coord>) -> Env
    decreases s.len(),
{
    if s.len() <= 1 {
        env_point(s[0])
    } else {
        env_extend(env_of_coords(s.drop_last()), s.last())
    }
}

/// Whether a shape has at least one coordinate to bound.
pub open spec fn has_coords(g: GView) -> bool {
    match g {
        GView::LineString(pts) => pts.len() > 0,
        GView::Polygon { exterior, .. } => exterior.len() > 0,
        _ => true,
    }
}

/// The envelope of a shape.
pub open spec fn env_of(g: GView) -> Env {
    match g {
        GView::Point(c) => env_point(c),
        GView::Line(a, b) => env_extend(env_point(a), b),
        GView::LineString(pts) => env_of_coords(pts),
        GView::Polygon { exterior, .. } => env_of_coords(exterior),
        GView::Rect(a, b) => env_extend(env_point(a), b),
        GView::Triangle(a, b, c) => env_extend(env_extend(env_point(a), b), c),
    }
}

/// A coordinate lies inside an envelope.
pub open spec fn env_contains(e: Env, c: Coord) -> bool {
    le_bits(e.min_x, c.x) && le_bits(c.x, e.max_x) && le_bits(e.min_y, c.y) && le_bits(
        c.y,
        e.max_y,
    )
}

/// Two envelopes overlap: their extents meet on both axes (boundary
/// contact counts).
pub open spec fn env_overlap(a: Env, b: Env) -> bool {
    le_bits(a.min_x, b.max_x) && le_bits(b.min_x, a.max_x) && le_bits(a.min_y, b.max_y) && le_bits(
        b.min_y,
        a.max_y,
    )
}

/// Envelope overlap does not depend on the order of its arguments.
pub proof fn lemma_env_overlap_symmetric(a: Env, b: Env)
    ensures
        env_overlap(a, b) == env_overlap(b, a),
{
}

/// The envelope of a coordinate sequence contains every coordinate of
/// the sequence.
pub proof fn lemma_env_covers(s: Seq<Coord>, i: int)
    requires
        0 <= i < s.len(),
    ensures
        env_contains(env_of_coords(s), s[i]),
    decreases s.len(),
{
    if s.len() > 1 {
        let e = env_of_coords(s.drop_last());
        if i < s.len() - 1 {
            lemma_env_covers(s.drop_last(), i);
            assert(s.drop_last()[i] == s[i]);
            lemma_le_trans(env_of_coords(s).min_x, e.min_x, s[i].x);
            lemma_le_trans(s[i].x, e.max_x, env_of_coords(s).max_x);
            lemma_le_trans(env_of_coords(s).min_y, e.min_y, s[i].y);
            lemma_le_trans(s[i].y, e.max_y, env_of_coords(s).max_y);
        }
    }
}

/// Tests whether two envelopes overlap.
pub fn envs_overlap(a: &Env, b: &Env) -> (r: bool)
    ensures
        r == env_overlap(*a, *b),
{
    le(a.min_x, b.max_x) && le(b.min_x, a.max_x) && le(a.min_y, b.max_y) && le(b.min_y, a.max_y)
}

fn env_of_ring(pts: &Vec<Coord>) -> (r: Env)
    requires
        pts@.len() > 0,
    ensures
        r == env_of_coords(pts@),
{
    let c0: Coord = pts[0];
    proof {
        assert(pts@.take(1).len() == 1);
        assert(pts@.take(1)[0] == pts@[0]);
    }
    let mut e: Env = Env { min_x: c0.x, min_y: c0.y, max_x: c0.x, max_y: c0.y };
    let n: usize = pts.len();
    let mut i: usize = 1;
    while i < n
        invariant
            1 <= i <= n,
            n == pts@.len(),
            e == env_of_coords(pts@.take(i as int)),
        decreases n - i,
    {
        let c: Coord = pts[i];
        e = Env {
            min_x: min_bits(e.min_x, c.x),
            min_y: min_bits(e.min_y, c.y),
            max_x: max_bits(e.max_x, c.x),
            max_y: max_bits(e.max_y, c.y),
        };
        proof {
            assert(pts@.take(i + 1).drop_last() =~= pts@.take(i as int));
            assert(pts@.take(i + 1).last() == pts@[i as int]);
        }
        i = i + 1;
    }
    proof {
        assert(pts@.take(n as int) =~= pts@);
    }
    e
}

impl Geom {
    /// The bounding envelope of this geometry.
    pub fn to_env(&self) -> (r: Env)
        requires
            has_coords(self@),
        ensures
            r == env_of(self@),
    {
        match self {
            Geom::Point(c) => Env { min_x: c.x, min_y: c.y, max_x: c.x, max_y: c.y },
            Geom::Line(a, b) => Env {
                min_x: min_bits(a.x, b.x),
                min_y: min_bits(a.y, b.y),
                max_x: max_bits(a.x, b.x),
                max_y: max_bits(a.y, b.y),
            },
            Geom::LineString(pts) => env_of_ring(pts),
            Geom::Polygon { exterior, interiors: _ } => env_of_ring(exterior),
            Geom::Rect(a, b) => Env {
                min_x: min_bits(a.x, b.x),
                min_y: min_bits(a.y, b.y),
                max_x: max_bits(a.x, b.x),
                max_y: max_bits(a.y, b.y),
            },
            Geom::Triangle(a, b, c) => {
                let e: Env = Env {
                    min_x: min_bits(a.x, b.x),
                    min_y: min_bits(a.y, b.y),
                    max_x: max_bits(a.x, b.x),
                    max_y: max_bits(a.y, b.y),
                };
                Env {
                    min_x: min_bits(e.min_x, c.x),
                    min_y: min_bits(e.min_y, c.y),
                    max_x: max_bits(e.max_x, c.x),
                    max_y: max_bits(e.max_y, c.y),
                }
            },
        }
    }
}

} // verus!
