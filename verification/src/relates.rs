//! The comparison-only slice of the pairwise relation table.
//!
//! Most geometric relations need exact arithmetic on the coordinate
//! values and are evaluated outside this crate; the engine only receives
//! their verdicts.  The relations between points and axis-aligned
//! rectangles, however, are pure coordinate comparisons, so they are
//! computed and verified here, together with the structural rule that
//! says which kinds can contain which at all, and the symmetry of
//! intersection for the pairs computed here.

use vstd::prelude::*;
use crate::bits::{eq_bits, le_bits, lt_bits, min_spec, max_spec, eq_value, le, min_bits,
    max_bits};
use crate::geoms::{Coord, Kind};
use crate::structs::Interaction;

verus! {

/// Two coordinates denote the same point (both zeroes are one value).
pub open spec fn point_eq(a: Coord, b: Coord) -> bool {
    eq_bits(a.x, b.x) && eq_bits(a.y, b.y)
}

/// The normalized extent of a rectangle given by two corners: the
/// numeric minimum and maximum on each axis.
pub open spec fn rect_min_x(a: Coord, b: Coord) -> u64 {
    min_spec(a.x, b.x)
}

pub open spec fn rect_max_x(a: Coord, b: Coord) -> u64 {
    max_spec(a.x, b.x)
}

pub open spec fn rect_min_y(a: Coord, b: Coord) -> u64 {
    min_spec(a.y, b.y)
}

pub open spec fn rect_max_y(a: Coord, b: Coord) -> u64 {
    max_spec(a.y, b.y)
}

/// Two rectangles intersect: their extents meet on both axes, boundary
/// contact included.
pub open spec fn rect_intersects_rect_spec(a1: Coord, a2: Coord, b1: Coord, b2: Coord) -> bool {
    &&& le_bits(rect_min_x(a1, a2), rect_max_x(b1, b2))
    &&& le_bits(rect_min_x(b1, b2), rect_max_x(a1, a2))
    &&& le_bits(rect_min_y(a1, a2), rect_max_y(b1, b2))
    &&& le_bits(rect_min_y(b1, b2), rect_max_y(a1, a2))
}

/// One rectangle contains another when its extent encloses the other's
/// on both axes, boundaries included.
pub open spec fn rect_contains_rect_spec(a1: Coord, a2: Coord, b1: Coord, b2: Coord) -> bool {
    &&& le_bits(rect_min_x(a1, a2), rect_min_x(b1, b2))
    &&& le_bits(rect_max_x(b1, b2), rect_max_x(a1, a2))
    &&& le_bits(rect_min_y(a1, a2), rect_min_y(b1, b2))
    &&& le_bits(rect_max_y(b1, b2), rect_max_y(a1, a2))
}

/// A rectangle contains a point only strictly inside its boundary.
pub open spec fn rect_contains_point_spec(a1: Coord, a2: Coord, p: Coord) -> bool {
    &&& lt_bits(rect_min_x(a1, a2), p.x)
    &&& lt_bits(p.x, rect_max_x(a1, a2))
    &&& lt_bits(rect_min_y(a1, a2), p.y)
    &&& lt_bits(p.y, rect_max_y(a1, a2))
}

/// Whether a point denotes the same location as another: the
/// intersection test for two points.
pub fn point_intersects_point(a: Coord, b: Coord) -> (r: bool)
    ensures
        r == point_eq(a, b),
{
    eq_value(a.x, b.x) && eq_value(a.y, b.y)
}

/// Whether two rectangles, each given by two corners, intersect.
pub fn rect_intersects_rect(a1: Coord, a2: Coord, b1: Coord, b2: Coord) -> (r: bool)
    ensures
        r == rect_intersects_rect_spec(a1, a2, b1, b2),
{
    le(min_bits(a1.x, a2.x), max_bits(b1.x, b2.x)) && le(min_bits(b1.x, b2.x), max_bits(a1.x, a2.x))
        && le(min_bits(a1.y, a2.y), max_bits(b1.y, b2.y)) && le(
        min_bits(b1.y, b2.y),
        max_bits(a1.y, a2.y),
    )
}

/// Whether the first rectangle contains the second, boundaries included.
pub fn rect_contains_rect(a1: Coord, a2: Coord, b1: Coord, b2: Coord) -> (r: bool)
    ensures
        r == rect_contains_rect_spec(a1, a2, b1, b2),
{
    le(min_bits(a1.x, a2.x), min_bits(b1.x, b2.x)) && le(max_bits(b1.x, b2.x), max_bits(a1.x, a2.x))
        && le(min_bits(a1.y, a2.y), min_bits(b1.y, b2.y)) && le(
        max_bits(b1.y, b2.y),
        max_bits(a1.y, a2.y),
    )
}

/// Whether a rectangle contains a point strictly inside its boundary.
pub fn rect_contains_point(a1: Coord, a2: Coord, p: Coord) -> (r: bool)
    ensures
        r == rect_contains_point_spec(a1, a2, p),
{
    let not_le_1: bool = !le(p.x, min_bits(a1.x, a2.x));
    let not_le_2: bool = !le(max_bits(a1.x, a2.x), p.x);
    let not_le_3: bool = !le(p.y, min_bits(a1.y, a2.y));
    let not_le_4: bool = !le(max_bits(a1.y, a2.y), p.y);
    not_le_1 && not_le_2 && not_le_3 && not_le_4
}

/// Intersection of two points is symmetric.
pub proof fn lemma_point_intersects_symmetric(a: Coord, b: Coord)
    ensures
        point_eq(a, b) == point_eq(b, a),
{
}

/// Intersection of two rectangles is symmetric.
pub proof fn lemma_rect_intersects_symmetric(a1: Coord, a2: Coord, b1: Coord, b2: Coord)
    ensures
        rect_intersects_rect_spec(a1, a2, b1, b2) == rect_intersects_rect_spec(b1, b2, a1, a2),
{
}

/// The structural containment rule: a holder of one kind can only ever
/// contain shapes whose kind has no greater extent — a point can hold
/// only a point, a segment or a line string only point-like and linear
/// shapes, while areal shapes can hold anything.  Pairs outside this
/// rule are contained-false without any coordinate work.
pub open spec fn can_contain(holder: Kind, held: Kind) -> bool {
    match holder {
        Kind::Point => held == Kind::Point,
        Kind::Line => held == Kind::Point || held == Kind::Line || held == Kind::LineString,
        Kind::LineString => held == Kind::Point || held == Kind::Line || held == Kind::LineString,
        _ => true,
    }
}

/// Which pairs a spatial join of a given mode must actually test: every
/// pair for intersection, and only structurally possible pairs for the
/// two containment directions.
pub open spec fn possible(mode: Interaction, small_kind: Kind, big_kind: Kind) -> bool {
    match mode {
        Interaction::Intersects => true,
        Interaction::Contains => can_contain(small_kind, big_kind),
        Interaction::Within => can_contain(big_kind, small_kind),
    }
}

/// Tests the structural containment rule.
pub fn can_contain_exec(holder: Kind, held: Kind) -> (r: bool)
    ensures
        r == can_contain(holder, held),
{
    match holder {
        Kind::Point => matches!(held, Kind::Point),
        Kind::Line => matches!(held, Kind::Point | Kind::Line | Kind::LineString),
        Kind::LineString => matches!(held, Kind::Point | Kind::Line | Kind::LineString),
        _ => true,
    }
}

/// Tests which directional predicate a join of the given mode needs for
/// a candidate pair, applying the structural shortcut.
pub fn mode_possible(mode: Interaction, small_kind: Kind, big_kind: Kind) -> (r: bool)
    ensures
        r == possible(mode, small_kind, big_kind),
{
    match mode {
        Interaction::Intersects => true,
        Interaction::Contains => can_contain_exec(small_kind, big_kind),
        Interaction::Within => can_contain_exec(big_kind, small_kind),
    }
}

} // verus!
