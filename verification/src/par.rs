//! The chunked construction path.
//!
//! The input is cut into contiguous chunks of `len / workers` elements
//! (at least one), each chunk is partitioned on its own — in parallel,
//! through a work-stealing pool — and the partial partitions are merged
//! back together.  The merge itself and the fold over the chunk results
//! are verified; the parallel map is trusted only to hand back, in chunk
//! order, values that meet the verified per-chunk contract.

use vstd::prelude::*;
use rayon::iter::IntoParallelRefIterator;
use rayon::iter::ParallelIterator;
use crate::geoms::{Geom, GView, Kind};
use crate::partition::{SplitGeoSeq, chunk_contract, views_of, all_valid, first_bad,
    is_chunk_partition, chunk_kind_ok, canonical_indexes, positions_of, shifted,
    lemma_positions_props, lemma_shifted_props, lemma_empty_chunk, lemma_merge_chunk,
    lemma_first_bad_props, lemma_first_bad_prefix, lemma_first_bad_split};
use crate::positions::before;
use crate::structs::Error;

verus! {

/// Relies on `num_cpus::get`: the number of usable cores, always at
/// least one.
#[verifier::external_body]
pub fn worker_count() -> (n: usize)
    ensures
        1 <= n,
{
    num_cpus::get()
}

/// Relies on rayon's parallel iterators: mapping the chunk list and
/// collecting into a vector keeps the list's length and order, so each
/// slot holds what the verified `chunk_partition` returns for its chunk
/// — a value meeting that function's contract.
#[verifier::external_body]
fn par_chunk_partitions(seq: &Vec<Geom>, bounds: &Vec<(usize, usize)>) -> (r: Vec<
    Result<SplitGeoSeq, Error>,
>)
    requires
        forall|i: int|
            0 <= i < bounds@.len() ==> (#[trigger] bounds@[i]).0 <= bounds@[i].1 <= seq@.len(),
    ensures
        r@.len() == bounds@.len(),
        forall|i: int|
            0 <= i < bounds@.len() ==> chunk_contract(
                views_of(seq@),
                bounds@[i].0 as int,
                bounds@[i].1 as int,
                #[trigger] r@[i],
            ),
{
    bounds.par_iter().map(|b| SplitGeoSeq::chunk_partition(seq, b.0, b.1)).collect()
}

/// The positions recorded by a chunk partition lie within its chunk.
proof fn lemma_chunk_idx_bounds(p: SplitGeoSeq, s: Seq<GView>, off: int, k: Kind)
    requires
        chunk_kind_ok(p, s, off, k),
    ensures
        forall|j: int|
            0 <= j < p.idx_spec(k).seq().len() ==> off <= #[trigger] p.idx_spec(k).seq()[j] < off
                + s.len(),
{
    lemma_positions_props(s, k);
    lemma_shifted_props(positions_of(s, k), off);
    assert forall|j: int| 0 <= j < p.idx_spec(k).seq().len() implies off
        <= #[trigger] p.idx_spec(k).seq()[j] < off + s.len() by {
        assert(p.idx_spec(k).seq()[j] == positions_of(s, k)[j] + off);
    }
}

impl SplitGeoSeq {
    /// Partitions a whole sequence by cutting it into per-core chunks,
    /// partitioning the chunks concurrently, and merging the partial
    /// partitions in chunk order.  The result meets exactly the contract
    /// of the direct, single-pass construction.
    pub fn par_try_from(seq: &Vec<Geom>) -> (r: Result<SplitGeoSeq, Error>)
        ensures
            chunk_contract(views_of(seq@), 0, seq@.len() as int, r),
    {
        let ghost vs = views_of(seq@);
        let n: usize = seq.len();
        proof {
            assert(views_of(seq@).len() == seq@.len());
        }
        let workers: usize = worker_count();
        let step: usize = if n / workers >= 1 {
            n / workers
        } else {
            1
        };
        let mut bounds: Vec<(usize, usize)> = Vec::new();
        let mut s: usize = 0;
        while s < n
            invariant
                0 <= s <= n,
                step >= 1,
                bounds@.len() == 0 ==> s == 0,
                bounds@.len() > 0 ==> bounds@[0].0 == 0 && bounds@.last().1 == s,
                forall|i: int|
                    0 <= i < bounds@.len() ==> (#[trigger] bounds@[i]).0 <= bounds@[i].1 && (
                    bounds@[i]).1 <= s,
                forall|i: int|
                    0 <= i < bounds@.len() - 1 ==> (#[trigger] bounds@[i]).1 == bounds@[i + 1].0,
            decreases n - s,
        {
            let e: usize = if n - s > step {
                s + step
            } else {
                n
            };
            bounds.push((s, e));
            s = e;
        }
        let chunks_all: Vec<Result<SplitGeoSeq, Error>> = par_chunk_partitions(seq, &bounds);
        let empty: SplitGeoSeq = SplitGeoSeq::new();
        proof {
            lemma_empty_chunk(empty, n as int);
            assert(vs.subrange(n as int, n as int) =~= Seq::<GView>::empty());
            assert forall|k: Kind| (#[trigger] empty.idx_spec(k)).canonical() by {}
            assert(canonical_indexes(empty));
        }
        let mut acc: Result<SplitGeoSeq, Error> = Ok(empty);
        let ghost mut lo: int = n as int;
        let mut chunks: Vec<Result<SplitGeoSeq, Error>> = chunks_all;
        while chunks.len() > 0
            invariant
                n == seq@.len(),
                vs == views_of(seq@),
                vs.len() == n,
                chunks@.len() <= bounds@.len(),
                bounds@.len() == 0 ==> n == 0,
                bounds@.len() > 0 ==> bounds@[0].0 == 0 && bounds@.last().1 == n,
                forall|i: int|
                    0 <= i < bounds@.len() ==> (#[trigger] bounds@[i]).0 <= bounds@[i].1 && (
                    bounds@[i]).1 <= n,
                forall|i: int|
                    0 <= i < bounds@.len() - 1 ==> (#[trigger] bounds@[i]).1 == bounds@[i + 1].0,
                forall|i: int|
                    0 <= i < chunks@.len() ==> chunk_contract(
                        vs,
                        bounds@[i].0 as int,
                        bounds@[i].1 as int,
                        #[trigger] chunks@[i],
                    ),
                lo == (if chunks@.len() == 0 {
                    0int
                } else {
                    bounds@[chunks@.len() - 1].1 as int
                }),
                chunk_contract(vs, lo, n as int, acc),
            decreases chunks@.len(),
        {
            let ghost c = chunks@.len() - 1;
            proof {
                assert(bounds@[c].1 as int == lo);
            }
            let ghost a = bounds@[c].0 as int;
            let ch: Result<SplitGeoSeq, Error> = chunks.pop().unwrap();
            proof {
                assert(chunk_contract(vs, a, lo, ch));
                assert(0 <= a <= lo <= n);
            }
            let prev: Result<SplitGeoSeq, Error> = acc;
            match (ch, prev) {
                (Err(e), _) => {
                    proof {
                        let suba = vs.subrange(a, lo);
                        let suban = vs.subrange(a, n as int);
                        assert(suban.subrange(0, lo - a) =~= suba);
                        lemma_first_bad_props(suba);
                        lemma_first_bad_prefix(suban, lo - a);
                        assert(suban[first_bad(suba)] == suba[first_bad(suba)]);
                    }
                    acc = Err(e);
                },
                (Ok(_), Err(e)) => {
                    proof {
                        let suba = vs.subrange(a, n as int);
                        let sublo = vs.subrange(lo, n as int);
                        assert(suba.subrange(0, lo - a) =~= vs.subrange(a, lo));
                        assert(suba.subrange(lo - a, suba.len() as int) =~= sublo);
                        lemma_first_bad_split(suba, lo - a);
                        lemma_first_bad_props(sublo);
                        let fb = first_bad(sublo);
                        assert(suba[lo - a + fb] == sublo[fb]);
                    }
                    acc = Err(e);
                },
                (Ok(p), Ok(q)) => {
                    proof {
                        let sp = vs.subrange(a, lo);
                        let sq = vs.subrange(lo, n as int);
                        assert(sp.len() == lo - a);
                        assert forall|k: Kind| #[trigger] p.idx_spec(k).wf() by {
                            assert(chunk_kind_ok(p, sp, a, k));
                        }
                        assert forall|k: Kind| #[trigger] q.idx_spec(k).wf() by {
                            assert(chunk_kind_ok(q, sq, lo, k));
                        }
                        assert forall|k: Kind| before(
                            #[trigger] p.idx_spec(k).seq(),
                            q.idx_spec(k).seq(),
                        ) by {
                            assert(chunk_kind_ok(p, sp, a, k));
                            assert(chunk_kind_ok(q, sq, lo, k));
                            lemma_chunk_idx_bounds(p, sp, a, k);
                            lemma_chunk_idx_bounds(q, sq, lo, k);
                            let ps = p.idx_spec(k).seq();
                            let qs = q.idx_spec(k).seq();
                            if ps.len() > 0 && qs.len() > 0 {
                                assert(ps[ps.len() - 1] < a + sp.len());
                                assert(qs[0] >= lo);
                            }
                        }
                    }
                    let m: SplitGeoSeq = SplitGeoSeq::merge(p, q);
                    proof {
                        let sp = vs.subrange(a, lo);
                        let sq = vs.subrange(lo, n as int);
                        assert(is_chunk_partition(q, sq, a + sp.len()));
                        assert forall|k: Kind| #[trigger] m.idx_spec(k).wf() by {
                            assert(m.idx_spec(k).canonical());
                        }
                        lemma_merge_chunk(p, q, m, sp, sq, a);
                        assert(sp + sq =~= vs.subrange(a, n as int));
                        assert forall|i: int|
                            0 <= i < vs.subrange(a, n as int).len() implies crate::geoms::geom_valid(
                            #[trigger] vs.subrange(a, n as int)[i],
                        ) by {
                            if i < lo - a {
                                assert(sp[i] == vs.subrange(a, n as int)[i]);
                            } else {
                                assert(sq[i - (lo - a)] == vs.subrange(a, n as int)[i]);
                            }
                        }
                    }
                    proof {
                        assert forall|k: Kind| (#[trigger] m.idx_spec(k)).canonical() by {}
                        assert(canonical_indexes(m));
                    }
                    acc = Ok(m);
                },
            }
            proof {
                lo = a;
                if chunks@.len() > 0 {
                    assert(bounds@[chunks@.len() - 1].1 == bounds@[c].0);
                }
            }
        }
        proof {
            assert(lo == 0);
        }
        acc
    }
}

} // verus!
