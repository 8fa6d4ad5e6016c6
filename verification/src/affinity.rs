//! The species affinity matrix: a fixed square table of signed fixed-point
//! weights, indexed by quantized hue. Entry `[i][j]` is the force
//! coefficient an agent of species bucket `i` feels toward one of bucket
//! `j`: positive attracts, negative repels, zero ignores.

use vstd::prelude::*;
use crate::fp::abs;

verus! {

/// One full hue turn in fixed point; species values live in `[0, HUE_LIMIT)`.
pub const HUE_LIMIT: i64 = 360_000;

/// Largest magnitude of a matrix weight.
pub const AFFINITY_LIMIT: i64 = 1_000_000;

/// Largest number of species buckets.
pub const SPECIES_LIMIT: usize = 360;

pub struct AffinityMatrix {
    pub n: usize,
    pub entries: Vec<i64>,
}

impl AffinityMatrix {
    /// A sane matrix: square, at least one bucket, bounded weights.
    pub open spec fn wf(self) -> bool {
        &&& 1 <= self.n <= SPECIES_LIMIT
        &&& self.entries@.len() == self.n * self.n
        &&& forall|i: int|
            0 <= i < self.entries@.len() ==> abs(#[trigger] self.entries@[i] as int)
                <= AFFINITY_LIMIT as int
    }

    /// The weight at row `i`, column `j`.
    pub open spec fn entry_spec(self, i: int, j: int) -> int {
        self.entries@[i * self.n + j] as int
    }

    /// The species bucket of a hue: `[0, HUE_LIMIT)` is split into `n`
    /// contiguous, equal-width, non-overlapping intervals.
    pub open spec fn bucket_spec(self, color: int) -> int {
        color * self.n / (HUE_LIMIT as int)
    }

    /// The affinity a hue-`a` agent feels toward a hue-`b` agent.
    pub open spec fn affinity_spec(self, a: int, b: int) -> int {
        self.entry_spec(self.bucket_spec(a), self.bucket_spec(b))
    }

    /// Validate and build a matrix of `n` species buckets from the
    /// row-major weights. Fails exactly when the shape or a weight is bad.
    pub fn new(n: usize, entries: Vec<i64>) -> (r: Option<AffinityMatrix>)
        ensures
            r is Some <==> {
                &&& 1 <= n <= SPECIES_LIMIT
                &&& entries@.len() == n * n
                &&& forall|i: int|
                    0 <= i < entries@.len() ==> abs(#[trigger] entries@[i] as int)
                        <= AFFINITY_LIMIT as int
            },
            r is Some ==> r.unwrap().wf() && r.unwrap().n == n && r.unwrap().entries@
                == entries@,
    {
        if n < 1 || n > SPECIES_LIMIT {
            return None;
        }
        proof {
            assert(n * n <= SPECIES_LIMIT * SPECIES_LIMIT) by (nonlinear_arith)
                requires
                    0 <= n <= SPECIES_LIMIT,
                ;
        }
        if entries.len() != n * n {
            return None;
        }
        let mut i: usize = 0;
        while i < entries.len()
            invariant
                0 <= i <= entries.len(),
                forall|j: int|
                    0 <= j < i ==> abs(#[trigger] entries@[j] as int) <= AFFINITY_LIMIT as int,
            decreases entries.len() - i,
        {
            let e = entries[i];
            if e > AFFINITY_LIMIT || e < -AFFINITY_LIMIT {
                return None;
            }
            i = i + 1;
        }
        Some(AffinityMatrix { n, entries })
    }

    /// The species bucket of a hue. Bucketing is total and exhaustive:
    /// every hue in `[0, HUE_LIMIT)` lands in exactly one bucket in
    /// `[0, n)`.
    pub fn bucket(&self, color: i64) -> (r: usize)
        requires
            self.wf(),
            0 <= color < HUE_LIMIT,
        ensures
            r == self.bucket_spec(color as int),
            r < self.n,
    {
        proof {
            lemma_bucket_total(*self, color as int);
            assert(color as int * self.n as int <= HUE_LIMIT as int * SPECIES_LIMIT as int)
                by (nonlinear_arith)
                requires
                    0 <= color < HUE_LIMIT as int,
                    0 <= self.n <= SPECIES_LIMIT as int,
                ;
        }
        let prod: i64 = color * (self.n as i64);
        (prod / HUE_LIMIT) as usize
    }

    /// The affinity weight between two hues.
    pub fn affinity(&self, a: i64, b: i64) -> (r: i64)
        requires
            self.wf(),
            0 <= a < HUE_LIMIT,
            0 <= b < HUE_LIMIT,
        ensures
            r == self.affinity_spec(a as int, b as int),
            abs(r as int) <= AFFINITY_LIMIT as int,
    {
        let ba = self.bucket(a);
        let bb = self.bucket(b);
        proof {
            lemma_index_in_square(ba as int, bb as int, self.n as int);
        }
        self.entries[ba * self.n + bb]
    }
}

/// Species bucketing is total and exhaustive: every hue in
/// `[0, HUE_LIMIT)` maps to exactly one bucket index in `[0, n)`.
pub proof fn lemma_bucket_total(m: AffinityMatrix, color: int)
    requires
        m.wf(),
        0 <= color < HUE_LIMIT as int,
    ensures
        0 <= m.bucket_spec(color) < m.n,
{
    assert(0 <= color * m.n / (HUE_LIMIT as int) < m.n) by (nonlinear_arith)
        requires
            0 <= color < HUE_LIMIT as int,
            1 <= m.n <= SPECIES_LIMIT as int,
        ;
}

/// A row-column pair of a square table indexes inside it.
proof fn lemma_index_in_square(i: int, j: int, n: int)
    by (nonlinear_arith)
    requires
        0 <= i < n,
        0 <= j < n,
        n <= SPECIES_LIMIT as int,
    ensures
        0 <= i * n + j < n * n,
        n * n <= SPECIES_LIMIT as int * SPECIES_LIMIT as int,
{
}

} // verus!
