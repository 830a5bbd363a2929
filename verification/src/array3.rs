//! A dense three-dimensional array of `u64` values.
//!
//! The score and cost tables of the distance computation are
//! three-dimensional: the leading axis is the coefficient, the trailing two
//! axes are event indices of the two trains. The array is stored row-major
//! in one flat vector; the element at `(i, j, k)` lives at flat position
//! `(i * n1 + j) * n2 + k`.

use vstd::prelude::*;

verus! {

pub struct Array3 {
    data: Vec<u64>,
    n0: usize,
    n1: usize,
    n2: usize,
}

impl Array3 {
    /// Extent of the leading axis.
    pub closed spec fn dim0(self) -> int {
        self.n0 as int
    }

    /// Extent of the middle axis.
    pub closed spec fn dim1(self) -> int {
        self.n1 as int
    }

    /// Extent of the trailing axis.
    pub closed spec fn dim2(self) -> int {
        self.n2 as int
    }

    /// The backing vector holds exactly one cell per position.
    pub closed spec fn wf(self) -> bool {
        self.data.len() == self.n0 * self.n1 * self.n2
    }

    /// The value stored at position `(i, j, k)`.
    pub closed spec fn at(self, i: int, j: int, k: int) -> u64 {
        self.data@[(i * self.n1 + j) * self.n2 + k]
    }

    /// A freshly allocated array with every cell zero.
    pub fn zeros(n0: usize, n1: usize, n2: usize) -> (r: Array3)
        requires
            n0 * n1 <= usize::MAX,
            n0 * n1 * n2 <= usize::MAX,
        ensures
            r.wf(),
            r.dim0() == n0,
            r.dim1() == n1,
            r.dim2() == n2,
            forall|i: int, j: int, k: int|
                0 <= i < n0 && 0 <= j < n1 && 0 <= k < n2 ==> r.at(i, j, k) == 0u64,
    {
        let step: usize = n0 * n1;
        let total: usize = step * n2;
        let mut data: Vec<u64> = Vec::new();
        while data.len() < total
            invariant
                data@.len() <= total,
                forall|p: int| 0 <= p < data@.len() ==> data@[p] == 0u64,
            decreases total - data@.len(),
        {
            data.push(0u64);
        }
        let r = Array3 { data, n0, n1, n2 };
        proof {
            assert forall|i: int, j: int, k: int|
                0 <= i < n0 && 0 <= j < n1 && 0 <= k < n2 implies r.at(i, j, k) == 0u64 by {
                lemma_flat_index(n0 as int, n1 as int, n2 as int, i, j, k);
            }
        }
        r
    }

    /// The three extents, leading axis first.
    pub fn dim(&self) -> (r: (usize, usize, usize))
        ensures
            r.0 == self.dim0(),
            r.1 == self.dim1(),
            r.2 == self.dim2(),
    {
        (self.n0, self.n1, self.n2)
    }

    /// Read the cell at `(i, j, k)`.
    pub fn get(&self, i: usize, j: usize, k: usize) -> (r: u64)
        requires
            self.wf(),
            i < self.dim0(),
            j < self.dim1(),
            k < self.dim2(),
        ensures
            r == self.at(i as int, j as int, k as int),
    {
        proof {
            lemma_flat_index(
                self.n0 as int,
                self.n1 as int,
                self.n2 as int,
                i as int,
                j as int,
                k as int,
            );
        }
        let idx: usize = (i * self.n1 + j) * self.n2 + k;
        self.data[idx]
    }

    /// Overwrite the cell at `(i, j, k)`; every other cell keeps its value.
    pub fn set(&mut self, i: usize, j: usize, k: usize, v: u64)
        requires
            old(self).wf(),
            i < old(self).dim0(),
            j < old(self).dim1(),
            k < old(self).dim2(),
        ensures
            final(self).wf(),
            final(self).dim0() == old(self).dim0(),
            final(self).dim1() == old(self).dim1(),
            final(self).dim2() == old(self).dim2(),
            final(self).at(i as int, j as int, k as int) == v,
            forall|a: int, b: int, c: int|
                0 <= a < old(self).dim0() && 0 <= b < old(self).dim1() && 0 <= c < old(self).dim2()
                    && !(a == i && b == j && c == k)
                    ==> final(self).at(a, b, c) == old(self).at(a, b, c),
    {
        proof {
            lemma_flat_index(
                self.n0 as int,
                self.n1 as int,
                self.n2 as int,
                i as int,
                j as int,
                k as int,
            );
        }
        let idx: usize = (i * self.n1 + j) * self.n2 + k;
        self.data[idx] = v;
        proof {
            assert forall|a: int, b: int, c: int|
                0 <= a < self.dim0() && 0 <= b < self.dim1() && 0 <= c < self.dim2()
                    && !(a == i && b == j && c == k)
                    implies self.at(a, b, c) == old(self).at(a, b, c) by {
                lemma_flat_index(self.n0 as int, self.n1 as int, self.n2 as int, a, b, c);
                lemma_flat_index_injective(
                    self.n0 as int,
                    self.n1 as int,
                    self.n2 as int,
                    a,
                    b,
                    c,
                    i as int,
                    j as int,
                    k as int,
                );
            }
        }
    }
}

/// The flat position of an in-range triple is itself in range, and the
/// prefix products stay within the vector's length.
proof fn lemma_flat_index(n0: int, n1: int, n2: int, i: int, j: int, k: int)
    requires
        0 <= i < n0,
        0 <= j < n1,
        0 <= k < n2,
    ensures
        0 <= i * n1 + j < n0 * n1,
        0 <= (i * n1 + j) * n2 + k < n0 * n1 * n2,
        n0 * n1 <= n0 * n1 * n2,
{
    assert(0 <= i * n1 + j < n0 * n1) by (nonlinear_arith)
        requires
            0 <= i < n0,
            0 <= j < n1,
    ;
    assert((i * n1 + j) * n2 + k < n0 * n1 * n2 && n0 * n1 <= n0 * n1 * n2) by (nonlinear_arith)
        requires
            0 <= i * n1 + j < n0 * n1,
            0 <= k < n2,
    ;
}

/// Distinct in-range triples map to distinct flat positions.
proof fn lemma_flat_index_injective(
    n0: int,
    n1: int,
    n2: int,
    a: int,
    b: int,
    c: int,
    i: int,
    j: int,
    k: int,
)
    requires
        0 <= a < n0,
        0 <= b < n1,
        0 <= c < n2,
        0 <= i < n0,
        0 <= j < n1,
        0 <= k < n2,
        !(a == i && b == j && c == k),
    ensures
        (a * n1 + b) * n2 + c != (i * n1 + j) * n2 + k,
{
    assert((a * n1 + b) * n2 + c != (i * n1 + j) * n2 + k) by (nonlinear_arith)
        requires
            0 <= a < n0,
            0 <= b < n1,
            0 <= c < n2,
            0 <= i < n0,
            0 <= j < n1,
            0 <= k < n2,
            !(a == i && b == j && c == k),
    ;
}

} // verus!
