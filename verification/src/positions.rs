//! Position bookkeeping for type buckets.
//!
//! When a mixed geometry sequence is split into type-homogeneous buckets,
//! each bucket remembers the original position of every element it holds.
//! Positions are kept either as a contiguous ascending range or as an
//! explicit ascending list; a list that happens to be contiguous is
//! collapsed back to a range (the canonical form).  Two partial partitions
//! built over adjacent chunks of the input are combined with `merge`,
//! which is associative over chunk order, so a parallel reduction may
//! combine chunks in any association order and still produce the same
//! canonical result.

use vstd::prelude::*;

verus! {

/// A strictly ascending sequence of positions.
pub open spec fn ascending(s: Seq<int>) -> bool {
    forall|i: int, j: int| 0 <= i < j < s.len() ==> s[i] < s[j]
}

/// A sequence of consecutive integers.
pub open spec fn contiguous(s: Seq<int>) -> bool {
    forall|i: int| 0 <= i < s.len() ==> #[trigger] s[i] == s[0] + i
}

/// The sequence `start, start + 1, ..., end - 1`.
pub open spec fn range_seq(start: int, end: int) -> Seq<int> {
    Seq::new(if end >= start { (end - start) as nat } else { 0 }, |i: int| start + i)
}

/// Every position of `a` lies before every position of `b` (trivially
/// true when either side is empty).
pub open spec fn before(a: Seq<int>, b: Seq<int>) -> bool {
    a.len() == 0 || b.len() == 0 || a.last() < b.first()
}

/// The ascending union of two separated position sequences.
pub open spec fn merged_seq(a: Seq<int>, b: Seq<int>) -> Seq<int> {
    if before(a, b) {
        a + b
    } else {
        b + a
    }
}

/// The original positions of one type bucket, in ascending order: either
/// a contiguous range `start..end` or an explicit ascending list.
#[derive(PartialEq, Eq, Debug, Clone)]
pub enum Indexes {
    Range { start: usize, end: usize },
    Explicit(Vec<usize>),
}

impl Indexes {
    /// The positions held, as an ascending sequence of integers.
    pub open spec fn seq(&self) -> Seq<int> {
        match self {
            Indexes::Range { start, end } => range_seq(*start as int, *end as int),
            Indexes::Explicit(v) => v@.map_values(|x: usize| x as int),
        }
    }

    /// Well-formed: ascending, positions below `usize::MAX`, and an empty
    /// range is always `0..0`.
    pub open spec fn wf(&self) -> bool {
        match self {
            Indexes::Range { start, end } => *start <= *end && (start == end ==> *start == 0),
            Indexes::Explicit(v) => {
                &&& v@.len() > 0
                &&& ascending(self.seq())
                &&& v@.last() < usize::MAX
            },
        }
    }

    /// Canonical: well-formed, and an explicit list is never contiguous
    /// (a contiguous list is represented as a range instead).
    pub open spec fn canonical(&self) -> bool {
        self.wf() && match self {
            Indexes::Range { .. } => true,
            Indexes::Explicit(_) => !contiguous(self.seq()),
        }
    }
}

/// The representation `push` produces: appending exactly at the end of a
/// range extends the range; any other append yields an explicit list.
pub open spec fn push_repr(prev: Indexes, index: usize, next: Indexes) -> bool {
    match prev {
        Indexes::Range { start, end } => if index == end {
            next == (Indexes::Range { start, end: (index + 1) as usize })
        } else {
            next is Explicit
        },
        Indexes::Explicit(_) => next is Explicit,
    }
}

/// The representation `add_offset` produces: the kind is kept, and a
/// non-empty range is shifted bound for bound (an empty range stays as
/// it is).
pub open spec fn offset_repr(prev: Indexes, offset: usize, next: Indexes) -> bool {
    match prev {
        Indexes::Range { start, end } => if start == end {
            next == prev
        } else {
            next == (Indexes::Range {
                start: (start + offset) as usize,
                end: (end + offset) as usize,
            })
        },
        Indexes::Explicit(_) => next is Explicit,
    }
}

/// Two `Indexes` values have identical representations: the same variant
/// holding the same positions.
pub open spec fn repr_eq(a: Indexes, b: Indexes) -> bool {
    match (a, b) {
        (Indexes::Range { start: s1, end: e1 }, Indexes::Range { start: s2, end: e2 }) => s1 == s2
            && e1 == e2,
        (Indexes::Explicit(u), Indexes::Explicit(v)) => u@ == v@,
        _ => false,
    }
}

/// A range of consecutive integers ascends.
proof fn lemma_range_ascending(start: int, end: int)
    ensures
        ascending(range_seq(start, end)),
        contiguous(range_seq(start, end)),
{
    let s = range_seq(start, end);
    assert forall|i: int, j: int| 0 <= i < j < s.len() implies s[i] < s[j] by {
        assert(s[i] == start + i);
        assert(s[j] == start + j);
    }
    assert forall|i: int| 0 <= i < s.len() implies #[trigger] s[i] == s[0] + i by {
        assert(s[i] == start + i);
    }
}

/// Appends the integers `start, ..., end - 1` to a vector.
fn push_range(w: &mut Vec<usize>, start: usize, end: usize)
    requires
        start <= end,
    ensures
        final(w)@.len() == old(w)@.len() + (end - start),
        forall|k: int| 0 <= k < old(w)@.len() ==> final(w)@[k] == old(w)@[k],
        forall|k: int|
            old(w)@.len() <= k < final(w)@.len() ==> (#[trigger] final(w)@[k]) as int == start + (k
                - old(w)@.len()),
{
    let base: usize = w.len();
    let mut i: usize = start;
    while i < end
        invariant
            start <= i <= end,
            w@.len() == base + (i - start),
            base == old(w)@.len(),
            forall|k: int| 0 <= k < base ==> w@[k] == old(w)@[k],
            forall|k: int| base <= k < w@.len() ==> (#[trigger] w@[k]) as int == start + (k - base),
        decreases end - i,
    {
        w.push(i);
        i = i + 1;
    }
}

/// Appends a copy of every element of `v` to `w`.
fn push_all(w: &mut Vec<usize>, v: &Vec<usize>)
    ensures
        final(w)@ == old(w)@ + v@,
{
    let n: usize = v.len();
    let mut i: usize = 0;
    while i < n
        invariant
            0 <= i <= n,
            n == v@.len(),
            w@ =~= old(w)@ + v@.take(i as int),
        decreases n - i,
    {
        let x: usize = v[i];
        w.push(x);
        proof {
            assert(w@ =~= old(w)@ + v@.take(i + 1));
        }
        i = i + 1;
    }
    proof {
        assert(v@.take(n as int) =~= v@);
    }
}

impl Default for Indexes {
    /// The empty position set, as the canonical empty range.
    fn default() -> (r: Indexes)
        ensures
            r.canonical(),
            r.seq() == Seq::<int>::empty(),
            r == (Indexes::Range { start: 0usize, end: 0usize }),
    {
        proof {
            assert(range_seq(0, 0) =~= Seq::<int>::empty());
        }
        Indexes::Range { start: 0, end: 0 }
    }
}

impl Indexes {
    /// The empty position set.
    pub fn new() -> (r: Indexes)
        ensures
            r.canonical(),
            r.seq() == Seq::<int>::empty(),
            r == (Indexes::Range { start: 0usize, end: 0usize }),
    {
        proof {
            assert(range_seq(0, 0) =~= Seq::<int>::empty());
        }
        Indexes::Range { start: 0, end: 0 }
    }

    /// How many positions are held.
    pub fn len(&self) -> (r: usize)
        requires
            self.wf(),
        ensures
            r as int == self.seq().len(),
    {
        match self {
            Indexes::Range { start, end } => *end - *start,
            Indexes::Explicit(v) => v.len(),
        }
    }

    /// Appends a position greater than every position already held.
    pub fn push(&mut self, index: usize)
        requires
            old(self).wf(),
            index < usize::MAX,
            old(self).seq().len() > 0 ==> old(self).seq().last() < index as int,
        ensures
            final(self).wf(),
            final(self).seq() == old(self).seq().push(index as int),
            push_repr(*old(self), index, *final(self)),
    {
        let ghost target = old(self).seq().push(index as int);
        let mut tmp: Indexes = Indexes::Range { start: 0, end: 0 };
        core::mem::swap(&mut tmp, self);
        match tmp {
            Indexes::Explicit(mut v) => {
                v.push(index);
                proof {
                    assert(v@.map_values(|x: usize| x as int) =~= target);
                    assert forall|i: int, j: int| 0 <= i < j < target.len() implies target[i]
                        < target[j] by {
                        if j < target.len() - 1 {
                            assert(old(self).seq()[i] < old(self).seq()[j]);
                        } else {
                            assert(old(self).seq()[i] <= old(self).seq().last());
                        }
                    }
                }
                *self = Indexes::Explicit(v);
            },
            Indexes::Range { start, end } => {
                if end == index {
                    proof {
                        assert(range_seq(start as int, index + 1) =~= target);
                    }
                    *self = Indexes::Range { start, end: index + 1 };
                } else {
                    let mut v: Vec<usize> = Vec::new();
                    push_range(&mut v, start, end);
                    v.push(index);
                    proof {
                        assert(v@.map_values(|x: usize| x as int) =~= target);
                        assert forall|i: int, j: int| 0 <= i < j < target.len() implies target[i]
                            < target[j] by {
                            assert(forall|k: int|
                                0 <= k < old(self).seq().len() ==> old(self).seq()[k] == start + k);
                        }
                    }
                    *self = Indexes::Explicit(v);
                }
            },
        }
    }

    /// The original position stored at bucket-local index `i`.
    pub fn get(&self, i: usize) -> (r: usize)
        requires
            self.wf(),
            i < self.seq().len(),
        ensures
            r as int == self.seq()[i as int],
    {
        match self {
            Indexes::Range { start, end: _ } => *start + i,
            Indexes::Explicit(v) => v[i],
        }
    }

    /// Shifts every position by `offset` (used to relocate a partition
    /// built over a chunk to the chunk's place in the whole input).
    pub fn add_offset(&mut self, offset: usize)
        requires
            old(self).wf(),
            forall|i: int|
                0 <= i < old(self).seq().len() ==> #[trigger] old(self).seq()[i] + offset
                    < usize::MAX,
        ensures
            final(self).wf(),
            final(self).seq() == old(self).seq().map_values(|x: int| x + offset as int),
            offset_repr(*old(self), offset, *final(self)),
    {
        let ghost target = old(self).seq().map_values(|x: int| x + offset as int);
        let mut tmp: Indexes = Indexes::Range { start: 0, end: 0 };
        core::mem::swap(&mut tmp, self);
        match tmp {
            Indexes::Range { start, end } => {
                if start == end {
                    proof {
                        assert(range_seq(start as int, end as int) =~= target);
                    }
                    *self = Indexes::Range { start, end };
                } else {
                    proof {
                        assert(old(self).seq()[end - 1 - start] == end - 1);
                        assert(range_seq(start + offset, end + offset) =~= target);
                    }
                    *self = Indexes::Range { start: start + offset, end: end + offset };
                }
            },
            Indexes::Explicit(v) => {
                proof {
                    assert forall|k: int| 0 <= k < v@.len() implies (#[trigger] v@[k]) as int
                        + offset < usize::MAX by {
                        assert(old(self).seq()[k] == v@[k] as int);
                        assert(old(self).seq()[k] + offset < usize::MAX);
                    }
                }
                let n: usize = v.len();
                let mut w: Vec<usize> = Vec::new();
                let mut i: usize = 0;
                while i < n
                    invariant
                        0 <= i <= n,
                        n == v@.len(),
                        w@.len() == i,
                        forall|k: int|
                            0 <= k < n ==> (#[trigger] v@[k]) as int + offset < usize::MAX,
                        forall|k: int|
                            0 <= k < i ==> (#[trigger] w@[k]) as int == (v@[k] as int)
                                + offset as int,
                    decreases n - i,
                {
                    let x: usize = v[i];
                    w.push(x + offset);
                    i = i + 1;
                }
                proof {
                    assert(w@.map_values(|x: usize| x as int) =~= target);
                    assert forall|a: int, b: int|
                        0 <= a < b < target.len() implies target[a] < target[b] by {
                        assert(old(self).seq()[a] < old(self).seq()[b]);
                    }
                    assert(target.last() == old(self).seq().last() + offset);
                    assert(w@.last() as int == target.last());
                }
                *self = Indexes::Explicit(w);
            },
        }
    }

    /// Collapses an explicit contiguous list back to a range; leaves the
    /// held positions unchanged.
    pub fn canonicalize(&mut self)
        requires
            old(self).wf(),
        ensures
            final(self).canonical(),
            final(self).seq() == old(self).seq(),
    {
        let mut tmp: Indexes = Indexes::Range { start: 0, end: 0 };
        core::mem::swap(&mut tmp, self);
        match tmp {
            Indexes::Range { start, end } => {
                *self = Indexes::Range { start, end };
            },
            Indexes::Explicit(v) => {
                let n: usize = v.len();
                let mut cont: bool = true;
                let mut i: usize = 1;
                while i < n
                    invariant
                        n == v@.len(),
                        n > 0,
                        1 <= i <= n,
                        cont == (forall|k: int|
                            0 <= k < i ==> #[trigger] (v@[k] as int) == v@[0] + k),
                    decreases n - i,
                {
                    let prev: usize = v[i - 1];
                    let cur: usize = v[i];
                    let step_ok: bool = prev < cur && cur - prev == 1;
                    proof {
                        if cont && step_ok {
                            assert forall|k: int| 0 <= k < i + 1 implies #[trigger] (v@[k] as int)
                                == v@[0] + k by {
                                if k == i {
                                    assert((v@[i - 1] as int) == v@[0] + (i - 1));
                                }
                            }
                        }
                    }
                    cont = cont && step_ok;
                    i = i + 1;
                }
                if cont {
                    let first: usize = v[0];
                    let last: usize = v[n - 1];
                    proof {
                        let s = old(self).seq();
                        assert((v@[n - 1] as int) == v@[0] + (n - 1));
                        assert(range_seq(first as int, last + 1) =~= s);
                    }
                    *self = Indexes::Range { start: first, end: last + 1 };
                } else {
                    proof {
                        let s = old(self).seq();
                        let k = choose|k: int|
                            0 <= k < n && ((#[trigger] v@[k]) as int) != v@[0] + k;
                        assert(s[k] != s[0] + k);
                    }
                    *self = Indexes::Explicit(v);
                }
            },
        }
    }

    /// All positions held, in ascending order.
    pub fn iter(&self) -> (r: Vec<usize>)
        requires
            self.wf(),
        ensures
            r@.map_values(|x: usize| x as int) == self.seq(),
    {
        match self {
            Indexes::Range { start, end } => {
                let mut v: Vec<usize> = Vec::new();
                push_range(&mut v, *start, *end);
                proof {
                    assert(v@.map_values(|x: usize| x as int) =~= self.seq());
                }
                v
            },
            Indexes::Explicit(v) => {
                let mut w: Vec<usize> = Vec::new();
                push_all(&mut w, v);
                proof {
                    assert(w@ =~= v@);
                    assert(w@.map_values(|x: usize| x as int) =~= self.seq());
                }
                w
            },
        }
    }

    /// All positions held, in ascending order, consuming the value.
    pub fn into_iter(self) -> (r: Vec<usize>)
        requires
            self.wf(),
        ensures
            r@.map_values(|x: usize| x as int) == self.seq(),
    {
        (&self).iter()
    }

    /// Combines two separated position sets into their ascending union,
    /// in canonical form.  Either argument may lie entirely before the
    /// other, so a parallel reduction may hand the two sides in either
    /// order.
    pub fn merge(self, other: Indexes) -> (r: Indexes)
        requires
            self.wf(),
            other.wf(),
            before(self.seq(), other.seq()) || before(other.seq(), self.seq()),
        ensures
            r.canonical(),
            r.seq() == merged_seq(self.seq(), other.seq()),
    {
        let ghost sa = self.seq();
        let ghost sb = other.seq();
        proof {
            lemma_indexes_ascending(self);
            lemma_indexes_ascending(other);
        }
        let mut a: Indexes = self;
        let mut b: Indexes = other;
        a.canonicalize();
        b.canonicalize();
        let mut res: Indexes = match (a, b) {
            (Indexes::Range { start: s1, end: e1 }, Indexes::Range { start: s2, end: e2 }) => {
                join_ranges(s1, e1, s2, e2)
            },
            (Indexes::Range { start: s1, end: e1 }, Indexes::Explicit(v)) => {
                join_range_vec(s1, e1, v)
            },
            (Indexes::Explicit(v), Indexes::Range { start: s1, end: e1 }) => {
                proof {
                    lemma_merged_seq_symmetric(sa, sb);
                }
                join_range_vec(s1, e1, v)
            },
            (Indexes::Explicit(u), Indexes::Explicit(v)) => { join_vec(u, v) },
        };
        res.canonicalize();
        res
    }
}

/// A well-formed position set ascends.
pub proof fn lemma_indexes_ascending(x: Indexes)
    requires
        x.wf(),
    ensures
        ascending(x.seq()),
{
    match x {
        Indexes::Range { start, end } => {
            lemma_range_ascending(start as int, end as int);
        },
        Indexes::Explicit(_) => {},
    }
}

/// Separation does not care which side is named first: the merged
/// sequence is the same ascending union either way.
proof fn lemma_merged_seq_symmetric(a: Seq<int>, b: Seq<int>)
    requires
        ascending(a),
        ascending(b),
        before(a, b) || before(b, a),
    ensures
        merged_seq(a, b) == merged_seq(b, a),
{
    if a.len() == 0 || b.len() == 0 {
        assert(a + b =~= b + a);
    } else {
        assert(a[0] <= a.last());
        assert(b[0] <= b.last());
    }
}

/// Concatenating two ascending sequences, the first entirely before the
/// second, yields an ascending sequence.
proof fn lemma_ascending_concat(a: Seq<int>, b: Seq<int>)
    requires
        ascending(a),
        ascending(b),
        before(a, b),
    ensures
        ascending(a + b),
{
    let c = a + b;
    assert forall|i: int, j: int| 0 <= i < j < c.len() implies c[i] < c[j] by {
        if i < a.len() && j >= a.len() {
            assert(c[i] == a[i]);
            assert(c[j] == b[j - a.len()]);
            assert(a[i] <= a.last());
            assert(b.first() <= b[j - a.len()]);
        }
    }
}

fn join_ranges(s1: usize, e1: usize, s2: usize, e2: usize) -> (r: Indexes)
    requires
        (Indexes::Range { start: s1, end: e1 }).wf(),
        (Indexes::Range { start: s2, end: e2 }).wf(),
        before(range_seq(s1 as int, e1 as int), range_seq(s2 as int, e2 as int)) || before(
            range_seq(s2 as int, e2 as int),
            range_seq(s1 as int, e1 as int),
        ),
    ensures
        r.wf(),
        r.seq() == merged_seq(range_seq(s1 as int, e1 as int), range_seq(s2 as int, e2 as int)),
{
    let ghost ra = range_seq(s1 as int, e1 as int);
    let ghost rb = range_seq(s2 as int, e2 as int);
    proof {
        lemma_range_ascending(s1 as int, e1 as int);
        lemma_range_ascending(s2 as int, e2 as int);
    }
    if s1 == e1 {
        proof {
            assert(ra + rb =~= rb);
            lemma_merged_seq_symmetric(ra, rb);
        }
        Indexes::Range { start: s2, end: e2 }
    } else if s2 == e2 {
        proof {
            assert(ra + rb =~= ra);
            assert(rb + ra =~= ra);
        }
        Indexes::Range { start: s1, end: e1 }
    } else if e1 == s2 {
        proof {
            assert(ra.last() == e1 - 1);
            assert(rb.first() == s2);
            assert(range_seq(s1 as int, e2 as int) =~= ra + rb);
        }
        Indexes::Range { start: s1, end: e2 }
    } else if e2 == s1 {
        proof {
            assert(rb.last() == e2 - 1);
            assert(ra.first() == s1);
            assert(range_seq(s2 as int, e1 as int) =~= rb + ra);
            assert(!before(ra, rb));
        }
        Indexes::Range { start: s2, end: e1 }
    } else {
        let ghost first_low = e1 < s2;
        let (lo_s, lo_e, hi_s, hi_e): (usize, usize, usize, usize) = if e1 < s2 {
            (s1, e1, s2, e2)
        } else {
            proof {
                assert(ra.last() == e1 - 1);
                assert(rb.first() == s2);
                assert(!before(ra, rb));
                assert(before(rb, ra));
            }
            (s2, e2, s1, e1)
        };
        let ghost lo = range_seq(lo_s as int, lo_e as int);
        let ghost hi = range_seq(hi_s as int, hi_e as int);
        proof {
            lemma_range_ascending(lo_s as int, lo_e as int);
            lemma_range_ascending(hi_s as int, hi_e as int);
            lemma_ascending_concat(lo, hi);
        }
        let mut v: Vec<usize> = Vec::new();
        push_range(&mut v, lo_s, lo_e);
        push_range(&mut v, hi_s, hi_e);
        proof {
        assert(v@.map_values(|x: usize| x as int) =~= lo + hi);
            assert(merged_seq(ra, rb) == lo + hi);
            assert((lo + hi).last() == hi.last());
            assert(v@.last() as int == (lo + hi).last());
            assert(hi.last() == hi_e - 1);
        }
        Indexes::Explicit(v)
    }
}

fn join_vec(a: Vec<usize>, b: Vec<usize>) -> (r: Indexes)
    requires
        (Indexes::Explicit(a)).wf(),
        (Indexes::Explicit(b)).wf(),
        before(a@.map_values(|x: usize| x as int), b@.map_values(|x: usize| x as int)) || before(
            b@.map_values(|x: usize| x as int),
            a@.map_values(|x: usize| x as int),
        ),
    ensures
        r.wf(),
        r.seq() == merged_seq(
            a@.map_values(|x: usize| x as int),
            b@.map_values(|x: usize| x as int),
        ),
{
    let ghost sa = a@.map_values(|x: usize| x as int);
    let ghost sb = b@.map_values(|x: usize| x as int);
    let a0: usize = a[0];
    let b0: usize = b[0];
    if a0 <= b0 {
        proof {
            assert(sa.first() <= sb.first());
            if !before(sa, sb) {
                assert(before(sb, sa));
                assert(sb.first() <= sb.last());
                assert(sb.last() < sa.first());
                assert(false);
            }
            lemma_ascending_concat(sa, sb);
        }
        let mut a: Vec<usize> = a;
        let mut b: Vec<usize> = b;
        a.append(&mut b);
        proof {
            assert(a@.map_values(|x: usize| x as int) =~= sa + sb);
            assert((sa + sb).last() == sb.last());
            assert(a@.last() as int == (sa + sb).last());
        }
        Indexes::Explicit(a)
    } else {
        proof {
            assert(sa.first() > sb.first());
            if !before(sb, sa) {
                assert(before(sa, sb));
                assert(sa.first() <= sa.last());
                assert(sa.last() < sb.first());
                assert(false);
            }
            lemma_ascending_concat(sb, sa);
        }
        let mut a: Vec<usize> = a;
        let mut b: Vec<usize> = b;
        b.append(&mut a);
        proof {
            assert(b@.map_values(|x: usize| x as int) =~= sb + sa);
            assert((sb + sa).last() == sa.last());
            assert(b@.last() as int == (sb + sa).last());
        }
        Indexes::Explicit(b)
    }
}

fn join_range_vec(s1: usize, e1: usize, v: Vec<usize>) -> (r: Indexes)
    requires
        (Indexes::Range { start: s1, end: e1 }).wf(),
        (Indexes::Explicit(v)).wf(),
        before(range_seq(s1 as int, e1 as int), v@.map_values(|x: usize| x as int)) || before(
            v@.map_values(|x: usize| x as int),
            range_seq(s1 as int, e1 as int),
        ),
    ensures
        r.wf(),
        r.seq() == merged_seq(range_seq(s1 as int, e1 as int), v@.map_values(|x: usize| x as int)),
{
    let ghost ra = range_seq(s1 as int, e1 as int);
    let ghost sv = v@.map_values(|x: usize| x as int);
    proof {
        lemma_range_ascending(s1 as int, e1 as int);
    }
    if s1 == e1 {
        proof {
            assert(ra + sv =~= sv);
            assert(sv + ra =~= sv);
        }
        Indexes::Explicit(v)
    } else {
        let v0: usize = v[0];
        if e1 <= v0 {
            proof {
                assert(ra.last() == e1 - 1);
                assert(sv.first() == v0);
                assert(before(ra, sv));
                lemma_ascending_concat(ra, sv);
            }
            let mut w: Vec<usize> = Vec::new();
            push_range(&mut w, s1, e1);
            push_all(&mut w, &v);
            proof {
                assert(w@.map_values(|x: usize| x as int) =~= ra + sv);
                assert((ra + sv).last() == sv.last());
                assert(w@.last() as int == (ra + sv).last());
            }
            Indexes::Explicit(w)
        } else {
            proof {
                assert(sv.first() == v0);
                assert(ra.first() == s1);
                assert(ra.last() == e1 - 1);
                if !before(sv, ra) {
                    assert(before(ra, sv));
                    assert(e1 - 1 < v0);
                    assert(false);
                }
                assert(!before(ra, sv) || sv.len() == 0);
                lemma_ascending_concat(sv, ra);
            }
            let mut w: Vec<usize> = Vec::new();
            push_all(&mut w, &v);
            push_range(&mut w, s1, e1);
            proof {
                assert(w@.map_values(|x: usize| x as int) =~= sv + ra);
                assert((sv + ra).last() == ra.last());
                assert(w@.last() as int == (sv + ra).last());
            }
            Indexes::Explicit(w)
        }
    }
}

/// Canonical representations are unique: two canonical position sets
/// holding the same positions are the same representation.
pub proof fn lemma_canonical_unique(a: Indexes, b: Indexes)
    requires
        a.canonical(),
        b.canonical(),
        a.seq() == b.seq(),
    ensures
        repr_eq(a, b),
{
    match (a, b) {
        (Indexes::Range { start: s1, end: e1 }, Indexes::Range { start: s2, end: e2 }) => {
            assert(a.seq().len() == e1 - s1);
            assert(b.seq().len() == e2 - s2);
            if s1 == e1 {
                assert(s2 == e2);
            } else {
                assert(a.seq()[0] == s1 as int);
                assert(b.seq()[0] == s2 as int);
            }
        },
        (Indexes::Range { start: s1, end: e1 }, Indexes::Explicit(v)) => {
            let s = b.seq();
            assert(s.len() > 0);
            assert(!contiguous(s));
            let k = choose|k: int| 0 <= k < s.len() && #[trigger] s[k] != s[0] + k;
            assert(a.seq()[k] == s1 + k);
            assert(a.seq()[0] == s1 as int);
            assert(false);
        },
        (Indexes::Explicit(v), Indexes::Range { start: s1, end: e1 }) => {
            let s = a.seq();
            assert(s.len() > 0);
            assert(!contiguous(s));
            let k = choose|k: int| 0 <= k < s.len() && #[trigger] s[k] != s[0] + k;
            assert(b.seq()[k] == s1 + k);
            assert(b.seq()[0] == s1 as int);
            assert(false);
        },
        (Indexes::Explicit(u), Indexes::Explicit(v)) => {
            assert(u@.len() == a.seq().len());
            assert(v@.len() == b.seq().len());
            assert forall|i: int| 0 <= i < u@.len() implies u@[i] == v@[i] by {
                assert(a.seq()[i] == u@[i] as int);
                assert(b.seq()[i] == v@[i] as int);
            }
            assert(u@ =~= v@);
        },
    }
}

/// Merging is associative over separated chunks: whichever association
/// order a parallel reduction uses, the canonical result holds the same
/// representation.
pub proof fn lemma_merge_order_independent(
    r1: Indexes,
    r2: Indexes,
    a: Seq<int>,
    b: Seq<int>,
    c: Seq<int>,
)
    requires
        r1.canonical(),
        r2.canonical(),
        before(a, b),
        before(b, c),
        before(a, c),
        r1.seq() == merged_seq(merged_seq(a, b), c),
        r2.seq() == merged_seq(a, merged_seq(b, c)),
    ensures
        repr_eq(r1, r2),
{
    assert(merged_seq(a, b) == a + b);
    assert(merged_seq(b, c) == b + c);
    assert(before(a + b, c)) by {
        if (a + b).len() > 0 && c.len() > 0 {
            if b.len() > 0 {
                assert((a + b).last() == b.last());
            } else {
                assert(a + b =~= a);
            }
        }
    }
    assert(before(a, b + c)) by {
        if a.len() > 0 && (b + c).len() > 0 {
            if b.len() > 0 {
                assert((b + c).first() == b.first());
            } else {
                assert(b + c =~= c);
            }
        }
    }
    assert(r1.seq() == (a + b) + c);
    assert(r2.seq() == a + (b + c));
    assert((a + b) + c =~= a + (b + c));
    lemma_canonical_unique(r1, r2);
}

} // verus!
