use vstd::prelude::*;
use crate::amplitude::Amplitude;

verus! {

/// `r + d * c` addresses an entry of a `d × d` matrix stored column by column.
pub(crate) proof fn lemma_entry_in_bounds(r: nat, c: nat, d: nat)
    requires
        r < d,
        c < d,
    ensures
        r + d * c < d * d,
{
    assert(r + d * c < d * d) by (nonlinear_arith)
        requires
            r < d,
            c < d,
    ;
}

/// Entries of earlier columns come before every entry of column `c`.
pub(crate) proof fn lemma_earlier_column(r: nat, b: nat, c: nat, d: nat)
    requires
        r < d,
        b < c,
    ensures
        r + d * b < d * c,
{
    assert(r + d * b < d * c) by (nonlinear_arith)
        requires
            r < d,
            b < c,
    ;
}

/// A dense complex square matrix, stored column by column: the entry in row
/// `r` and column `c` of a `dim × dim` matrix sits at `r + dim * c`.
#[derive(Clone, Debug)]
pub struct SquareMatrix<C> {
    dim: usize,
    data: Vec<C>,
}

impl<C: Amplitude> SquareMatrix<C> {
    /// The number of rows (and columns).
    pub closed spec fn size(&self) -> nat {
        self.dim as nat
    }

    /// The entries, column by column.
    pub closed spec fn entries(&self) -> Seq<C> {
        self.data@
    }

    /// The entry in row `r` and column `c`.
    pub open spec fn at(&self, r: int, c: int) -> C {
        self.entries()[r + self.size() * c]
    }

    /// The storage holds exactly `dim²` entries.
    pub open spec fn wf(&self) -> bool {
        self.entries().len() == self.size() * self.size()
    }

    /// Returns the number of rows (and columns).
    pub fn dim(&self) -> (r: usize)
        ensures
            r == self.size(),
    {
        self.dim
    }

    /// Returns the entry in row `r` and column `c`.
    pub fn entry(&self, r: usize, c: usize) -> (e: C)
        requires
            self.wf(),
            r < self.size(),
            c < self.size(),
        ensures
            e == self.at(r as int, c as int),
    {
        let len = self.data.len();
        proof {
            lemma_entry_in_bounds(r as nat, c as nat, self.dim as nat);
            assert(self.dim * c <= r + self.dim * c);
        }
        self.data[r + self.dim * c]
    }

    /// Builds a matrix from its rows. Returns `None` unless every row is as
    /// long as there are rows (and the entries can be counted in a `usize`).
    pub fn from_rows(rows: &Vec<Vec<C>>) -> (m: Option<Self>)
        ensures
            m is Some <==> {
                &&& forall|r: int| 0 <= r < rows.len() ==> #[trigger] rows[r].len() == rows.len()
                &&& rows.len() * rows.len() <= usize::MAX
            },
            m matches Some(m) ==> {
                &&& m.wf()
                &&& m.size() == rows.len()
                &&& forall|r: int, c: int| 0 <= r < rows.len() && 0 <= c < rows.len()
                    ==> m.at(r, c) == #[trigger] rows[r]@[c]
            },
    {
        let dim = rows.len();
        let mut r: usize = 0;
        while r < dim
            invariant
                r <= dim,
                dim == rows.len(),
                forall|t: int| 0 <= t < r ==> #[trigger] rows[t].len() == dim,
            decreases dim - r,
        {
            if rows[r].len() != dim {
                return None;
            }
            r = r + 1;
        }
        if dim.checked_mul(dim).is_none() {
            return None;
        }
        let mut data: Vec<C> = Vec::new();
        let mut c: usize = 0;
        while c < dim
            invariant
                c <= dim,
                dim == rows.len(),
                dim * dim <= usize::MAX,
                forall|t: int| 0 <= t < dim ==> #[trigger] rows[t].len() == dim,
                data.len() == dim * c,
                forall|i: int, j: int| 0 <= i < dim && 0 <= j < c
                    ==> data@[i + dim * j] == #[trigger] rows[i]@[j],
            decreases dim - c,
        {
            let mut i: usize = 0;
            while i < dim
                invariant
                    i <= dim,
                    c < dim,
                    dim == rows.len(),
                    dim * dim <= usize::MAX,
                    forall|t: int| 0 <= t < dim ==> #[trigger] rows[t].len() == dim,
                    data.len() == dim * c + i,
                    forall|a: int, b: int| 0 <= a < dim && 0 <= b < c
                        ==> data@[a + dim * b] == #[trigger] rows[a]@[b],
                    forall|a: int| 0 <= a < i ==> data@[a + dim * c] == #[trigger] rows[a]@[c as int],
                decreases dim - i,
            {
                proof {
                    lemma_entry_in_bounds(i as nat, c as nat, dim as nat);
                    assert(rows[i as int].len() == dim);
                    assert forall|a: int, b: int| 0 <= a < dim && 0 <= b < c
                        implies a + dim * b < data.len() && data@[a + dim * b] == #[trigger] rows[a]@[b] by {
                        lemma_earlier_column(a as nat, b as nat, c as nat, dim as nat);
                    }
                }
                data.push(rows[i][c]);
                i = i + 1;
            }
            proof {
                assert(dim * c + dim == dim * (c + 1)) by (nonlinear_arith);
                assert forall|a: int, b: int| 0 <= a < dim && 0 <= b < c + 1
                    implies data@[a + dim * b] == #[trigger] rows[a]@[b] by {
                    if b < c {
                        lemma_entry_in_bounds(a as nat, b as nat, dim as nat);
                    }
                }
            }
            c = c + 1;
        }
        Some(SquareMatrix { dim, data })
    }

    /// The entries row by row: the entry in row `r` and column `c` sits at
    /// `dim * r + c`.
    pub fn to_row_major(&self) -> (v: Vec<C>)
        requires
            self.wf(),
        ensures
            v.len() == self.size() * self.size(),
            forall|r: int, c: int| 0 <= r < self.size() && 0 <= c < self.size()
                ==> #[trigger] v@[self.size() * r + c] == self.at(r, c),
    {
        let dim = self.dim;
        let mut v: Vec<C> = Vec::new();
        let mut r: usize = 0;
        while r < dim
            invariant
                self.wf(),
                dim == self.size(),
                r <= dim,
                v.len() == dim * r,
                forall|a: int, b: int| 0 <= a < r && 0 <= b < dim
                    ==> v@[dim * a + b] == #[trigger] self.at(a, b),
            decreases dim - r,
        {
            let mut c: usize = 0;
            while c < dim
                invariant
                    self.wf(),
                    dim == self.size(),
                    r < dim,
                    c <= dim,
                    v.len() == dim * r + c,
                    forall|a: int, b: int| 0 <= a < r && 0 <= b < dim
                        ==> v@[dim * a + b] == #[trigger] self.at(a, b),
                    forall|b: int| 0 <= b < c ==> #[trigger] v@[dim * r + b] == self.at(r as int, b),
                decreases dim - c,
            {
                proof {
                    lemma_entry_in_bounds(c as nat, r as nat, dim as nat);
                    assert forall|a: int, b: int| 0 <= a < r && 0 <= b < dim
                        implies dim * a + b < v.len() && v@[dim * a + b] == #[trigger] self.at(a, b) by {
                        lemma_earlier_column(b as nat, a as nat, r as nat, dim as nat);
                    }
                }
                v.push(self.entry(r, c));
                c = c + 1;
            }
            proof {
                assert(dim * r + dim == dim * (r + 1)) by (nonlinear_arith);
            }
            r = r + 1;
        }
        v
    }

    /// The transpose: row `r` and column `c` hold the entry in row `c` and
    /// column `r`.
    pub fn transpose(&self) -> (t: Self)
        requires
            self.wf(),
        ensures
            t.wf(),
            t.size() == self.size(),
            forall|r: int, c: int| 0 <= r < self.size() && 0 <= c < self.size()
                ==> #[trigger] t.at(r, c) == self.at(c, r),
    {
        let dim = self.dim;
        let mut data: Vec<C> = Vec::new();
        let mut c: usize = 0;
        while c < dim
            invariant
                self.wf(),
                dim == self.size(),
                c <= dim,
                data.len() == dim * c,
                forall|a: int, b: int| 0 <= a < dim && 0 <= b < c
                    ==> data@[a + dim * b] == #[trigger] self.at(b, a),
            decreases dim - c,
        {
            let mut r: usize = 0;
            while r < dim
                invariant
                    self.wf(),
                    dim == self.size(),
                    c < dim,
                    r <= dim,
                    data.len() == dim * c + r,
                    forall|a: int, b: int| 0 <= a < dim && 0 <= b < c
                        ==> data@[a + dim * b] == #[trigger] self.at(b, a),
                    forall|a: int| 0 <= a < r ==> #[trigger] data@[a + dim * c] == self.at(c as int, a),
                decreases dim - r,
            {
                proof {
                    lemma_entry_in_bounds(r as nat, c as nat, dim as nat);
                    assert forall|a: int, b: int| 0 <= a < dim && 0 <= b < c
                        implies a + dim * b < data.len() && data@[a + dim * b] == #[trigger] self.at(b, a) by {
                        lemma_earlier_column(a as nat, b as nat, c as nat, dim as nat);
                    }
                }
                data.push(self.entry(c, r));
                r = r + 1;
            }
            proof {
                assert(dim * c + dim == dim * (c + 1)) by (nonlinear_arith);
            }
            c = c + 1;
        }
        SquareMatrix { dim, data }
    }

    /// The conjugate transpose `A†`.
    pub fn adjoint(&self) -> (t: Self)
        requires
            self.wf(),
        ensures
            t.wf(),
            t.size() == self.size(),
            forall|r: int, c: int| 0 <= r < self.size() && 0 <= c < self.size()
                ==> #[trigger] t.at(r, c) == C::conj_spec(self.at(c, r)),
    {
        let dim = self.dim;
        let mut data: Vec<C> = Vec::new();
        let mut c: usize = 0;
        while c < dim
            invariant
                self.wf(),
                dim == self.size(),
                c <= dim,
                data.len() == dim * c,
                forall|a: int, b: int| 0 <= a < dim && 0 <= b < c
                    ==> data@[a + dim * b] == C::conj_spec(#[trigger] self.at(b, a)),
            decreases dim - c,
        {
            let mut r: usize = 0;
            while r < dim
                invariant
                    self.wf(),
                    dim == self.size(),
                    c < dim,
                    r <= dim,
                    data.len() == dim * c + r,
                    forall|a: int, b: int| 0 <= a < dim && 0 <= b < c
                        ==> data@[a + dim * b] == C::conj_spec(#[trigger] self.at(b, a)),
                    forall|a: int| 0 <= a < r ==> data@[a + dim * c] == C::conj_spec(#[trigger] self.at(c as int, a)),
                decreases dim - r,
            {
                proof {
                    lemma_entry_in_bounds(r as nat, c as nat, dim as nat);
                    assert forall|a: int, b: int| 0 <= a < dim && 0 <= b < c
                        implies a + dim * b < data.len() && data@[a + dim * b] == C::conj_spec(#[trigger] self.at(b, a)) by {
                        lemma_earlier_column(a as nat, b as nat, c as nat, dim as nat);
                    }
                }
                data.push(self.entry(c, r).conj());
                r = r + 1;
            }
            proof {
                assert(dim * c + dim == dim * (c + 1)) by (nonlinear_arith);
            }
            c = c + 1;
        }
        SquareMatrix { dim, data }
    }

    /// A copy of the matrix.
    pub fn clone_matrix(&self) -> (m: Self)
        ensures
            m.size() == self.size(),
            m.entries() == self.entries(),
    {
        let n = self.data.len();
        let mut data: Vec<C> = Vec::new();
        let mut i: usize = 0;
        while i < n
            invariant
                n == self.data.len(),
                i <= n,
                data@ == self.data@.take(i as int),
            decreases n - i,
        {
            data.push(self.data[i]);
            proof {
                assert(self.data@.take(i + 1) == self.data@.take(i as int).push(self.data@[i as int]));
            }
            i = i + 1;
        }
        proof {
            assert(self.data@.take(n as int) == self.data@);
        }
        SquareMatrix { dim: self.dim, data }
    }

    /// The entrywise complex conjugate `Ā`.
    pub fn conjugate(&self) -> (m: Self)
        requires
            self.wf(),
        ensures
            m.wf(),
            m.size() == self.size(),
            forall|i: int| 0 <= i < m.entries().len() ==> #[trigger] m.entries()[i] == C::conj_spec(self.entries()[i]),
    {
        let n = self.data.len();
        let mut data: Vec<C> = Vec::new();
        let mut i: usize = 0;
        while i < n
            invariant
                self.wf(),
                n == self.entries().len(),
                i <= n,
                data.len() == i,
                forall|t: int| 0 <= t < i ==> #[trigger] data@[t] == C::conj_spec(self.entries()[t]),
            decreases n - i,
        {
            data.push(self.data[i].conj());
            i = i + 1;
        }
        SquareMatrix { dim: self.dim, data }
    }

    /// The entrywise sum `A + B`.
    pub fn sum(&self, other: &Self) -> (m: Self)
        requires
            self.wf(),
            other.wf(),
            other.size() == self.size(),
        ensures
            m.wf(),
            m.size() == self.size(),
            forall|i: int| 0 <= i < m.entries().len()
                ==> #[trigger] m.entries()[i] == C::add_spec(self.entries()[i], other.entries()[i]),
    {
        let n = self.data.len();
        let mut data: Vec<C> = Vec::new();
        let mut i: usize = 0;
        while i < n
            invariant
                self.wf(),
                other.wf(),
                other.size() == self.size(),
                n == self.entries().len(),
                i <= n,
                data.len() == i,
                forall|t: int| 0 <= t < i ==> #[trigger] data@[t] == C::add_spec(self.entries()[t], other.entries()[t]),
            decreases n - i,
        {
            data.push(self.data[i].plus(&other.data[i]));
            i = i + 1;
        }
        SquareMatrix { dim: self.dim, data }
    }

    /// The matrix product `A · B`: entry `(r, c)` is `Σₜ A[r, t] · B[t, c]`,
    /// summed in order of `t` from zero.
    pub fn product(&self, other: &Self) -> (m: Self)
        requires
            self.wf(),
            other.wf(),
            other.size() == self.size(),
        ensures
            m.wf(),
            m.size() == self.size(),
            forall|r: int, c: int| 0 <= r < self.size() && 0 <= c < self.size()
                ==> #[trigger] m.at(r, c) == product_entry(*self, *other, r, c, self.size()),
    {
        let dim = self.dim;
        let mut data: Vec<C> = Vec::new();
        let mut c: usize = 0;
        while c < dim
            invariant
                self.wf(),
                other.wf(),
                other.size() == self.size(),
                dim == self.size(),
                c <= dim,
                data.len() == dim * c,
                forall|a: int, b: int| 0 <= a < dim && 0 <= b < c
                    ==> data@[a + dim * b] == #[trigger] product_entry(*self, *other, a, b, dim as nat),
            decreases dim - c,
        {
            let mut r: usize = 0;
            while r < dim
                invariant
                    self.wf(),
                    other.wf(),
                    other.size() == self.size(),
                    dim == self.size(),
                    c < dim,
                    r <= dim,
                    data.len() == dim * c + r,
                    forall|a: int, b: int| 0 <= a < dim && 0 <= b < c
                        ==> data@[a + dim * b] == #[trigger] product_entry(*self, *other, a, b, dim as nat),
                    forall|a: int| 0 <= a < r
                        ==> data@[a + dim * c] == #[trigger] product_entry(*self, *other, a, c as int, dim as nat),
                decreases dim - r,
            {
                let mut acc = C::zero();
                let mut t: usize = 0;
                while t < dim
                    invariant
                        self.wf(),
                        other.wf(),
                        other.size() == self.size(),
                        dim == self.size(),
                        c < dim,
                        r < dim,
                        t <= dim,
                        acc == product_entry(*self, *other, r as int, c as int, t as nat),
                    decreases dim - t,
                {
                    acc = acc.plus(&self.entry(r, t).times(&other.entry(t, c)));
                    t = t + 1;
                }
                proof {
                    lemma_entry_in_bounds(r as nat, c as nat, dim as nat);
                    assert forall|a: int, b: int| 0 <= a < dim && 0 <= b < c
                        implies a + dim * b < data.len()
                            && data@[a + dim * b] == #[trigger] product_entry(*self, *other, a, b, dim as nat) by {
                        lemma_earlier_column(a as nat, b as nat, c as nat, dim as nat);
                    }
                }
                data.push(acc);
                r = r + 1;
            }
            proof {
                assert(dim * c + dim == dim * (c + 1)) by (nonlinear_arith);
            }
            c = c + 1;
        }
        SquareMatrix { dim, data }
    }

    /// The Kronecker product `A ⊗ B`: the entry in row `i₁·d + i₂` and
    /// column `j₁·d + j₂`, with `d` the dimension of `B`, is `A[i₁, j₁] · B[i₂, j₂]`.
    pub fn kronecker(&self, other: &Self) -> (m: Self)
        requires
            self.wf(),
            other.wf(),
            self.size() * other.size() * (self.size() * other.size()) <= usize::MAX,
        ensures
            m.wf(),
            m.size() == self.size() * other.size(),
            forall|i: int, j: int| 0 <= i < m.size() && 0 <= j < m.size()
                ==> #[trigger] m.at(i, j) == kronecker_entry(*self, *other, i, j),
    {
        let d1 = self.dim;
        let d2 = other.dim;
        proof {
            assert(d1 * d2 <= d1 * d2 * (d1 * d2) || d1 * d2 == 0) by (nonlinear_arith);
        }
        let dim = d1 * d2;
        let mut data: Vec<C> = Vec::new();
        let mut j: usize = 0;
        while j < dim
            invariant
                self.wf(),
                other.wf(),
                d1 == self.size(),
                d2 == other.size(),
                dim == d1 * d2,
                dim * dim <= usize::MAX,
                j <= dim,
                data.len() == dim * j,
                forall|a: int, b: int| 0 <= a < dim && 0 <= b < j
                    ==> data@[a + dim * b] == #[trigger] kronecker_entry(*self, *other, a, b),
            decreases dim - j,
        {
            let mut i: usize = 0;
            while i < dim
                invariant
                    self.wf(),
                    other.wf(),
                    d1 == self.size(),
                    d2 == other.size(),
                    dim == d1 * d2,
                    dim * dim <= usize::MAX,
                    j < dim,
                    i <= dim,
                    data.len() == dim * j + i,
                    forall|a: int, b: int| 0 <= a < dim && 0 <= b < j
                        ==> data@[a + dim * b] == #[trigger] kronecker_entry(*self, *other, a, b),
                    forall|a: int| 0 <= a < i ==> data@[a + dim * j] == #[trigger] kronecker_entry(*self, *other, a, j as int),
                decreases dim - i,
            {
                proof {
                    lemma_entry_in_bounds(i as nat, j as nat, dim as nat);
                    lemma_block_coordinates(i as nat, d1 as nat, d2 as nat);
                    lemma_block_coordinates(j as nat, d1 as nat, d2 as nat);
                    assert forall|a: int, b: int| 0 <= a < dim && 0 <= b < j
                        implies a + dim * b < data.len()
                            && data@[a + dim * b] == #[trigger] kronecker_entry(*self, *other, a, b) by {
                        lemma_earlier_column(a as nat, b as nat, j as nat, dim as nat);
                    }
                }
                let a = self.entry(i / d2, j / d2);
                let b = other.entry(i % d2, j % d2);
                data.push(a.times(&b));
                i = i + 1;
            }
            proof {
                assert(dim * j + dim == dim * (j + 1)) by (nonlinear_arith);
            }
            j = j + 1;
        }
        SquareMatrix { dim, data }
    }

    /// The product `A · v` of the matrix with a column vector: entry `r` is
    /// `row_times(A, r, v, dim)`.
    pub fn apply(&self, v: &Vec<C>) -> (w: Vec<C>)
        requires
            self.wf(),
            v.len() == self.size(),
        ensures
            w.len() == self.size(),
            forall|r: int| 0 <= r < self.size() ==> #[trigger] w@[r] == row_times(*self, r, v@, self.size()),
    {
        let dim = self.dim;
        let mut w: Vec<C> = Vec::new();
        let mut r: usize = 0;
        while r < dim
            invariant
                self.wf(),
                dim == self.size(),
                v.len() == dim,
                r <= dim,
                w.len() == r,
                forall|t: int| 0 <= t < r ==> #[trigger] w@[t] == row_times(*self, t, v@, dim as nat),
            decreases dim - r,
        {
            let mut acc = C::zero();
            let mut t: usize = 0;
            while t < dim
                invariant
                    self.wf(),
                    dim == self.size(),
                    v.len() == dim,
                    r < dim,
                    t <= dim,
                    acc == row_times(*self, r as int, v@, t as nat),
                decreases dim - t,
            {
                acc = acc.plus(&self.entry(r, t).times(&v[t]));
                t = t + 1;
            }
            w.push(acc);
            r = r + 1;
        }
        w
    }
}

/// An index below `d₁·d₂` splits into a block index below `d₁` and an
/// offset below `d₂`.
pub(crate) proof fn lemma_block_coordinates(i: nat, d1: nat, d2: nat)
    requires
        i < d1 * d2,
    ensures
        d2 > 0,
        i / d2 < d1,
        i % d2 < d2,
{
    assert(d2 > 0) by (nonlinear_arith)
        requires
            i < d1 * d2,
    ;
    assert(i / d2 < d1) by (nonlinear_arith)
        requires
            i < d1 * d2,
            d2 > 0,
    ;
}

/// `Σ_{t < m} A[r, t] · B[t, c]`, summed in order of `t` from zero.
pub open spec fn product_entry<C: Amplitude>(a: SquareMatrix<C>, b: SquareMatrix<C>, r: int, c: int, m: nat) -> C
    decreases m,
{
    if m == 0 {
        C::zero_spec()
    } else {
        let t = (m - 1) as int;
        C::add_spec(product_entry(a, b, r, c, (m - 1) as nat), C::mul_spec(a.at(r, t), b.at(t, c)))
    }
}

/// Entry `(i, j)` of `A ⊗ B`.
pub open spec fn kronecker_entry<C: Amplitude>(a: SquareMatrix<C>, b: SquareMatrix<C>, i: int, j: int) -> C {
    C::mul_spec(a.at(i / b.size() as int, j / b.size() as int), b.at(i % b.size() as int, j % b.size() as int))
}

/// `Σ_{t < m} A[r, t] · v[t]`, summed in order of `t` from zero.
pub open spec fn row_times<C: Amplitude>(a: SquareMatrix<C>, r: int, v: Seq<C>, m: nat) -> C
    decreases m,
{
    if m == 0 {
        C::zero_spec()
    } else {
        let t = (m - 1) as int;
        C::add_spec(row_times(a, r, v, (m - 1) as nat), C::mul_spec(a.at(r, t), v[t]))
    }
}

} // verus!
