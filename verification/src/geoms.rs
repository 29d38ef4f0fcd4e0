//! The closed set of supported geometry kinds, and their validation.
//!
//! Exactly six kinds are supported: point, line (one segment), line
//! string (at least two points), polygon (an exterior ring of at least
//! three points plus optional interior rings), axis-aligned rectangle,
//! and triangle.  Every coordinate is the bit pattern of a finite
//! double-precision value; validation rejects the first element that
//! breaks one of these rules and names its position and kind.

use vstd::prelude::*;
use crate::bits::{finite_bits, is_finite};
use crate::structs::Error;

verus! {

/// One planar coordinate pair, each component the bit pattern of a
/// double-precision value.
#[derive(Clone, Copy, PartialEq, Eq, Structural, Debug)]
pub struct Coord {
    pub x: u64,
    pub y: u64,
}

/// The tag of a geometry kind.
#[derive(Clone, Copy, PartialEq, Eq, Structural, Debug)]
pub enum Kind {
    Point,
    Line,
    LineString,
    Polygon,
    Rect,
    Triangle,
}

/// A geometry: one of the six supported kinds.
#[derive(Clone, PartialEq, Debug)]
pub enum Geom {
    Point(Coord),
    Line(Coord, Coord),
    LineString(Vec<Coord>),
    Polygon { exterior: Vec<Coord>, interiors: Vec<Vec<Coord>> },
    Rect(Coord, Coord),
    Triangle(Coord, Coord, Coord),
}

/// The mathematical shape of a geometry.
pub ghost enum GView {
    Point(Coord),
    Line(Coord, Coord),
    LineString(Seq<Coord>),
    Polygon { exterior: Seq<Coord>, interiors: Seq<Seq<Coord>> },
    Rect(Coord, Coord),
    Triangle(Coord, Coord, Coord),
}

impl View for Geom {
    type V = GView;

    open spec fn view(&self) -> GView {
        match self {
            Geom::Point(c) => GView::Point(*c),
            Geom::Line(a, b) => GView::Line(*a, *b),
            Geom::LineString(pts) => GView::LineString(pts@),
            Geom::Polygon { exterior, interiors } => GView::Polygon {
                exterior: exterior@,
                interiors: interiors@.map_values(|r: Vec<Coord>| r@),
            },
            Geom::Rect(a, b) => GView::Rect(*a, *b),
            Geom::Triangle(a, b, c) => GView::Triangle(*a, *b, *c),
        }
    }
}

impl GView {
    /// The kind tag of a shape.
    pub open spec fn kind(self) -> Kind {
        match self {
            GView::Point(_) => Kind::Point,
            GView::Line(..) => Kind::Line,
            GView::LineString(_) => Kind::LineString,
            GView::Polygon { .. } => Kind::Polygon,
            GView::Rect(..) => Kind::Rect,
            GView::Triangle(..) => Kind::Triangle,
        }
    }
}

/// Both components of a coordinate are finite.
pub open spec fn coord_valid(c: Coord) -> bool {
    finite_bits(c.x) && finite_bits(c.y)
}

/// Every coordinate of a ring is finite.
pub open spec fn coords_valid(s: Seq<Coord>) -> bool {
    forall|i: int| 0 <= i < s.len() ==> coord_valid(#[trigger] s[i])
}

/// Every interior ring holds at least two points, all finite.
pub open spec fn rings_valid(rings: Seq<Seq<Coord>>) -> bool {
    forall|i: int|
        0 <= i < rings.len() ==> (#[trigger] rings[i]).len() >= 2 && coords_valid(rings[i])
}

/// A shape is valid: all coordinates finite, a line string holds at
/// least two points, a polygon exterior holds at least three points and
/// every interior ring at least two.
pub open spec fn geom_valid(g: GView) -> bool {
    match g {
        GView::Point(c) => coord_valid(c),
        GView::Line(a, b) => coord_valid(a) && coord_valid(b),
        GView::LineString(pts) => pts.len() >= 2 && coords_valid(pts),
        GView::Polygon { exterior, interiors } => {
            &&& exterior.len() >= 3
            &&& coords_valid(exterior)
            &&& rings_valid(interiors)
        },
        GView::Rect(a, b) => coord_valid(a) && coord_valid(b),
        GView::Triangle(a, b, c) => coord_valid(a) && coord_valid(b) && coord_valid(c),
    }
}

/// The error reported for an invalid shape at a given position: a size
/// violation is named as such, any other failure names a bad coordinate
/// and the offending kind.
pub open spec fn expected_error(g: GView, pos: usize) -> Error {
    match g {
        GView::LineString(pts) => if pts.len() < 2 {
            Error::LineStringTooSmall(pos)
        } else {
            Error::BadCoordinateValue(pos, Kind::LineString)
        },
        GView::Polygon { exterior, .. } => if exterior.len() < 3 {
            Error::PolygonExteriorTooSmall(pos)
        } else {
            Error::BadCoordinateValue(pos, Kind::Polygon)
        },
        _ => Error::BadCoordinateValue(pos, g.kind()),
    }
}

/// Tests whether both components of a coordinate are finite.
pub fn coord_is_valid(c: &Coord) -> (r: bool)
    ensures
        r == coord_valid(*c),
{
    is_finite(c.x) && is_finite(c.y)
}

/// Tests whether every coordinate of a ring is finite.
fn ring_coords_valid(v: &Vec<Coord>) -> (r: bool)
    ensures
        r == coords_valid(v@),
{
    let n: usize = v.len();
    let mut i: usize = 0;
    let mut ok: bool = true;
    while i < n
        invariant
            0 <= i <= n,
            n == v@.len(),
            ok == (forall|k: int| 0 <= k < i ==> coord_valid(#[trigger] v@[k])),
        decreases n - i,
    {
        let c: Coord = v[i];
        let good: bool = coord_is_valid(&c);
        ok = ok && good;
        i = i + 1;
    }
    ok
}

impl Geom {
    /// The kind tag of this geometry.
    pub fn kind(&self) -> (k: Kind)
        ensures
            k == self@.kind(),
    {
        match self {
            Geom::Point(_) => Kind::Point,
            Geom::Line(..) => Kind::Line,
            Geom::LineString(_) => Kind::LineString,
            Geom::Polygon { .. } => Kind::Polygon,
            Geom::Rect(..) => Kind::Rect,
            Geom::Triangle(..) => Kind::Triangle,
        }
    }

    /// Validates this geometry as the element at `position` of an input
    /// sequence: reports a size violation or a non-finite coordinate,
    /// naming the position and the offending kind.
    pub fn is_safe(&self, position: usize) -> (r: Result<(), Error>)
        ensures
            geom_valid(self@) ==> r == Ok::<(), Error>(()),
            !geom_valid(self@) ==> r == Err::<(), Error>(expected_error(self@, position)),
    {
        match self {
            Geom::Point(c) => {
                if coord_is_valid(c) {
                    Ok(())
                } else {
                    Err(Error::BadCoordinateValue(position, Kind::Point))
                }
            },
            Geom::Line(a, b) => {
                if coord_is_valid(a) && coord_is_valid(b) {
                    Ok(())
                } else {
                    Err(Error::BadCoordinateValue(position, Kind::Line))
                }
            },
            Geom::LineString(pts) => {
                if pts.len() < 2 {
                    Err(Error::LineStringTooSmall(position))
                } else if ring_coords_valid(pts) {
                    Ok(())
                } else {
                    Err(Error::BadCoordinateValue(position, Kind::LineString))
                }
            },
            Geom::Polygon { exterior, interiors } => {
                if exterior.len() < 3 {
                    Err(Error::PolygonExteriorTooSmall(position))
                } else if !ring_coords_valid(exterior) {
                    Err(Error::BadCoordinateValue(position, Kind::Polygon))
                } else {
                    let ghost ints = interiors@.map_values(|r: Vec<Coord>| r@);
                    let n: usize = interiors.len();
                    let mut i: usize = 0;
                    let mut ok: bool = true;
                    while i < n
                        invariant
                            0 <= i <= n,
                            n == interiors@.len(),
                            ints == interiors@.map_values(|r: Vec<Coord>| r@),
                            ok == (forall|k: int|
                                0 <= k < i ==> (#[trigger] ints[k]).len() >= 2 && coords_valid(
                                    ints[k],
                                )),
                        decreases n - i,
                    {
                        let ring_len_ok: bool = interiors[i].len() >= 2;
                        let ring_ok: bool = ring_len_ok && ring_coords_valid(&interiors[i]);
                        proof {
                            assert(ints[i as int] == interiors@[i as int]@);
                            if ok && ring_ok {
                                assert forall|k: int| 0 <= k < i + 1 implies (#[trigger] ints[k]).len()
                                    >= 2 && coords_valid(ints[k]) by {}
                            }
                        }
                        ok = ok && ring_ok;
                        i = i + 1;
                    }
                    proof {
                        assert(ints.len() == n);
                        assert(ok == rings_valid(ints));
                    }
                    if ok {
                        Ok(())
                    } else {
                        Err(Error::BadCoordinateValue(position, Kind::Polygon))
                    }
                }
            },
            Geom::Rect(a, b) => {
                if coord_is_valid(a) && coord_is_valid(b) {
                    Ok(())
                } else {
                    Err(Error::BadCoordinateValue(position, Kind::Rect))
                }
            },
            Geom::Triangle(a, b, c) => {
                if coord_is_valid(a) && coord_is_valid(b) && coord_is_valid(c) {
                    Ok(())
                } else {
                    Err(Error::BadCoordinateValue(position, Kind::Triangle))
                }
            },
        }
    }

    /// A copy of this geometry with the same shape.
    pub fn duplicate(&self) -> (r: Geom)
        ensures
            r@ == self@,
    {
        match self {
            Geom::Point(c) => Geom::Point(*c),
            Geom::Line(a, b) => Geom::Line(*a, *b),
            Geom::LineString(pts) => Geom::LineString(copy_coords(pts)),
            Geom::Polygon { exterior, interiors } => {
                let ext: Vec<Coord> = copy_coords(exterior);
                let n: usize = interiors.len();
                let mut ints: Vec<Vec<Coord>> = Vec::new();
                let mut i: usize = 0;
                while i < n
                    invariant
                        0 <= i <= n,
                        n == interiors@.len(),
                        ints@.len() == i,
                        forall|k: int| 0 <= k < i ==> (#[trigger] ints@[k])@ == interiors@[k]@,
                    decreases n - i,
                {
                    let ring: Vec<Coord> = copy_coords(&interiors[i]);
                    ints.push(ring);
                    i = i + 1;
                }
                proof {
                    assert(ints@.map_values(|r: Vec<Coord>| r@) =~= interiors@.map_values(
                        |r: Vec<Coord>| r@,
                    ));
                }
                Geom::Polygon { exterior: ext, interiors: ints }
            },
            Geom::Rect(a, b) => Geom::Rect(*a, *b),
            Geom::Triangle(a, b, c) => Geom::Triangle(*a, *b, *c),
        }
    }
}

/// A copy of a coordinate ring.
fn copy_coords(v: &Vec<Coord>) -> (r: Vec<Coord>)
    ensures
        r@ == v@,
{
    let n: usize = v.len();
    let mut w: Vec<Coord> = Vec::new();
    let mut i: usize = 0;
    while i < n
        invariant
            0 <= i <= n,
            n == v@.len(),
            w@ =~= v@.take(i as int),
        decreases n - i,
    {
        let c: Coord = v[i];
        w.push(c);
        proof {
            assert(w@ =~= v@.take(i + 1));
        }
        i = i + 1;
    }
    proof {
        assert(v@.take(n as int) =~= v@);
    }
    w
}

} // verus!
