//! Shared value types: errors, interaction modes, the configuration, and
//! the result rows of joins and proximity maps.

use vstd::prelude::*;
use crate::bits::{finite_bits, key_of, is_finite, le, lemma_zero_key};
use crate::geoms::{Geom, Kind};

verus! {

/// A typed, recoverable construction-time error.  Validation fails fast
/// on the first offending element; no index is built on failure.
#[derive(Clone, Copy, PartialEq, Eq, Structural, Debug)]
pub enum Error {
    /// A non-finite coordinate at the given position, naming the kind of
    /// the offending geometry.
    BadCoordinateValue(usize, Kind),
    /// The distance threshold (given as a bit pattern) is not finite or
    /// is negative.
    BadMaxDistance(u64),
    /// A line string at the given position holds fewer than two points.
    LineStringTooSmall(usize),
    /// A polygon at the given position has an exterior of fewer than
    /// three points.
    PolygonExteriorTooSmall(usize),
}

/// Which directional relation a spatial join evaluates.
#[derive(Clone, Copy, PartialEq, Eq, Structural, Debug)]
pub enum Interaction {
    /// Report pairs that intersect.
    Intersects,
    /// Report pairs where the big element lies within the small one.
    Within,
    /// Report pairs where the small element contains the big one.
    Contains,
}

/// Configuration of an index: the proximity threshold, held as the bit
/// pattern of a double-precision value.
#[derive(Clone, Copy, PartialEq, Eq, Structural, Debug)]
pub struct Config {
    pub max_distance: u64,
}

impl Config {
    /// A threshold is accepted when it is finite and not below zero.
    pub open spec fn valid_spec(self) -> bool {
        finite_bits(self.max_distance) && key_of(self.max_distance) >= 0
    }

    /// The default configuration: a zero threshold.
    pub fn new() -> (r: Config)
        ensures
            r.max_distance == 0,
            r.valid_spec(),
    {
        proof {
            lemma_zero_key();
        }
        Config { max_distance: 0 }
    }

    /// Replaces the proximity threshold.
    pub fn max_distance(self, value: u64) -> (r: Config)
        ensures
            r.max_distance == value,
    {
        Config { max_distance: value }
    }

    /// Rejects a threshold that is not finite or is negative, naming the
    /// rejected bit pattern.
    pub fn validate(&self) -> (r: Option<Error>)
        ensures
            self.valid_spec() ==> r == None::<Error>,
            !self.valid_spec() ==> r == Some(Error::BadMaxDistance(self.max_distance)),
    {
        proof {
            lemma_zero_key();
        }
        let fin: bool = is_finite(self.max_distance);
        let nonneg: bool = le(0, self.max_distance);
        if fin && nonneg {
            None
        } else {
            Some(Error::BadMaxDistance(self.max_distance))
        }
    }
}

/// One spatial-join result: the positions of a matching pair in the big
/// and small input sequences.
#[derive(Clone, Copy, PartialEq, Eq, Structural, Debug, PartialOrd, Ord, Hash)]
pub struct SJoinRow {
    pub big_index: usize,
    pub small_index: usize,
}

/// A spatial-join result carrying copies of both matched geometries.
/// Rows compare by their index pair alone.
#[derive(Clone, Debug)]
pub struct SJoinGeoRow {
    pub big_index: usize,
    pub small_index: usize,
    pub big: Geom,
    pub small: Geom,
}

impl PartialEq for SJoinGeoRow {
    fn eq(&self, other: &Self) -> (r: bool) {
        self.big_index == other.big_index && self.small_index == other.small_index
    }
}

impl vstd::std_specs::cmp::PartialEqSpecImpl for SJoinGeoRow {
    open spec fn obeys_eq_spec() -> bool {
        true
    }

    open spec fn eq_spec(&self, other: &Self) -> bool {
        self.big_index == other.big_index && self.small_index == other.small_index
    }
}

/// One proximity-map result: the positions of a pair whose distance is
/// within the threshold, and that distance as a bit pattern.  Rows
/// compare by their index pair alone.
#[derive(Clone, Copy, Debug)]
pub struct ProxMapRow {
    pub big_index: usize,
    pub small_index: usize,
    pub distance: u64,
}

impl PartialEq for ProxMapRow {
    fn eq(&self, other: &Self) -> (r: bool) {
        self.big_index == other.big_index && self.small_index == other.small_index
    }
}

impl vstd::std_specs::cmp::PartialEqSpecImpl for ProxMapRow {
    open spec fn obeys_eq_spec() -> bool {
        true
    }

    open spec fn eq_spec(&self, other: &Self) -> bool {
        self.big_index == other.big_index && self.small_index == other.small_index
    }
}

/// A proximity-map result carrying copies of both matched geometries.
/// Rows compare by their index pair alone.
#[derive(Clone, Debug)]
pub struct ProxMapGeoRow {
    pub big_index: usize,
    pub small_index: usize,
    pub big: Geom,
    pub small: Geom,
    pub distance: u64,
}

impl PartialEq for ProxMapGeoRow {
    fn eq(&self, other: &Self) -> (r: bool) {
        self.big_index == other.big_index && self.small_index == other.small_index
    }
}

impl vstd::std_specs::cmp::PartialEqSpecImpl for ProxMapGeoRow {
    open spec fn obeys_eq_spec() -> bool {
        true
    }

    open spec fn eq_spec(&self, other: &Self) -> bool {
        self.big_index == other.big_index && self.small_index == other.small_index
    }
}

} // verus!
