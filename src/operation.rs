use vstd::prelude::*;
use vstd::arithmetic::power2::{pow2, lemma_pow2_unfold, lemma_pow2_pos, lemma_pow2_adds, lemma_pow2_strictly_increases, lemma2_to64};
use crate::amplitude::Amplitude;
use crate::matrix::{lemma_block_coordinates, lemma_entry_in_bounds, product_entry, SquareMatrix};

verus! {

/// Why a list of matrices does not make a channel, or a list of channels an
/// instrument.
#[derive(Clone, Copy, Debug, PartialEq, Eq)]
pub enum ChannelError {
    /// The list is empty.
    Empty,
    /// Two members differ in dimension (or, for an instrument, in arity).
    ShapeMismatch,
    /// The dimension is not a power of two.
    NotPowerOfTwo,
    /// The super-operator would have more entries than a `usize` can count.
    TooLarge,
}

/// `d` is `2ⁿ` for some `n`.
pub open spec fn is_power_of_two(d: nat) -> bool {
    exists|n: nat| pow2(n) == d
}

/// Finds `n` with `2ⁿ == d`, if there is one.
pub(crate) fn log2_exact(d: usize) -> (r: Option<usize>)
    ensures
        r is Some <==> is_power_of_two(d as nat),
        r matches Some(n) ==> pow2(n as nat) == d,
{
    let mut p: usize = 1;
    let mut n: usize = 0;
    proof {
        lemma2_to64();
    }
    while p < d && p <= usize::MAX / 2
        invariant
            p == pow2(n as nat),
            p >= 1,
            n <= 64,
            forall|m: nat| m < n ==> #[trigger] pow2(m) < d,
        decreases usize::MAX - p,
    {
        proof {
            lemma_pow2_unfold((n + 1) as nat);
            assert forall|m: nat| m < n + 1 implies #[trigger] pow2(m) < d by {
                if m < n {
                } else {
                    assert(m == n);
                }
            }
            if n + 1 > 64 {
                lemma2_to64();
                lemma_pow2_strictly_increases(64, (n + 1) as nat);
                assert(pow2((n + 1) as nat) == 2 * p);
                assert(2 * p <= usize::MAX);
                assert(usize::MAX < 0x10000000000000000);
                assert(false);
            }
        }
        p = 2 * p;
        n = n + 1;
    }
    if p == d {
        Some(n)
    } else {
        proof {
            assert forall|m: nat| pow2(m) != d by {
                if m < n {
                } else if m > n {
                    lemma_pow2_strictly_increases(n as nat, m);
                    if p > usize::MAX / 2 {
                        lemma_pow2_unfold((n + 1) as nat);
                        if m > n + 1 {
                            lemma_pow2_strictly_increases((n + 1) as nat, m);
                        }
                    }
                }
            }
        }
        None
    }
}

/// Entry `(r, c)` of `K† K`: `Σ_{t < m} conj(K[t, r]) · K[t, c]`, summed in
/// order.
pub open spec fn gram_entry<C: Amplitude>(k: SquareMatrix<C>, r: int, c: int, m: nat) -> C
    decreases m,
{
    if m == 0 {
        C::zero_spec()
    } else {
        let t = (m - 1) as int;
        C::add_spec(gram_entry(k, r, c, (m - 1) as nat), C::mul_spec(C::conj_spec(k.at(t, r)), k.at(t, c)))
    }
}

/// Entry `(r, c)` of the effect `Σ_{i < m} Kᵢ† Kᵢ`, for `m ≥ 1`, summed in
/// order.
pub open spec fn effect_entry<C: Amplitude>(kraus: Seq<SquareMatrix<C>>, r: int, c: int, m: nat) -> C
    decreases m,
{
    if m <= 1 {
        gram_entry(kraus[0], r, c, kraus[0].size())
    } else {
        C::add_spec(effect_entry(kraus, r, c, (m - 1) as nat), gram_entry(kraus[m - 1], r, c, kraus[m - 1].size()))
    }
}

/// Entry `(a, b)` of `K̄ ⊗ K`.
pub open spec fn conj_kron_entry<C: Amplitude>(k: SquareMatrix<C>, a: int, b: int) -> C {
    let d = k.size() as int;
    C::mul_spec(C::conj_spec(k.at(a / d, b / d)), k.at(a % d, b % d))
}

/// Entry `(a, b)` of the operation matrix `Σ_{i < m} K̄ᵢ ⊗ Kᵢ`, for `m ≥ 1`,
/// summed in order.
pub open spec fn super_operator_entry<C: Amplitude>(kraus: Seq<SquareMatrix<C>>, a: int, b: int, m: nat) -> C
    decreases m,
{
    if m <= 1 {
        conj_kron_entry(kraus[0], a, b)
    } else {
        C::add_spec(super_operator_entry(kraus, a, b, (m - 1) as nat), conj_kron_entry(kraus[m - 1], a, b))
    }
}

/// `K† K`.
fn gram<C: Amplitude>(k: &SquareMatrix<C>) -> (g: SquareMatrix<C>)
    requires
        k.wf(),
    ensures
        g.wf(),
        g.size() == k.size(),
        forall|r: int, c: int| 0 <= r < k.size() && 0 <= c < k.size() ==> #[trigger] g.at(r, c) == gram_entry(*k, r, c, k.size()),
{
    let adj = k.adjoint();
    let g = adj.product(k);
    proof {
        assert forall|r: int, c: int| 0 <= r < k.size() && 0 <= c < k.size()
            implies #[trigger] g.at(r, c) == gram_entry(*k, r, c, k.size()) by {
            lemma_gram(adj, *k, r, c, k.size());
        }
    }
    g
}

/// The product of `K†` with `K` sums the terms of `gram_entry`.
proof fn lemma_gram<C: Amplitude>(adj: SquareMatrix<C>, k: SquareMatrix<C>, r: int, c: int, m: nat)
    requires
        m <= k.size(),
        0 <= r < k.size(),
        forall|a: int, b: int| 0 <= a < k.size() && 0 <= b < k.size() ==> #[trigger] adj.at(a, b) == C::conj_spec(k.at(b, a)),
    ensures
        product_entry(adj, k, r, c, m) == gram_entry(k, r, c, m),
    decreases m,
{
    if m > 0 {
        lemma_gram(adj, k, r, c, (m - 1) as nat);
        assert(adj.at(r, m - 1) == C::conj_spec(k.at(m - 1, r)));
    }
}

/// `K̄ ⊗ K`.
fn channel_super_operator<C: Amplitude>(k: &SquareMatrix<C>) -> (m: SquareMatrix<C>)
    requires
        k.wf(),
        k.size() * k.size() * (k.size() * k.size()) <= usize::MAX,
    ensures
        m.wf(),
        m.size() == k.size() * k.size(),
        forall|a: int, b: int| 0 <= a < m.size() && 0 <= b < m.size() ==> #[trigger] m.at(a, b) == conj_kron_entry(*k, a, b),
{
    let conj = k.conjugate();
    let m = conj.kronecker(k);
    proof {
        assert forall|a: int, b: int| 0 <= a < m.size() && 0 <= b < m.size()
            implies #[trigger] m.at(a, b) == conj_kron_entry(*k, a, b) by {
            let d = k.size() as int;
            lemma_block_coordinates(a as nat, d as nat, d as nat);
            lemma_block_coordinates(b as nat, d as nat, d as nat);
            lemma_entry_in_bounds((a / d) as nat, (b / d) as nat, d as nat);
        }
    }
    m
}

/// A quantum channel given by its Kraus operators `K₀ … K_{k-1}`, each of
/// dimension `2ⁿ` for the channel's arity `n`. Built alongside are the
/// effect matrix `E = Σ Kᵢ† Kᵢ`, its transpose, and the operation matrix
/// `O = Σ K̄ᵢ ⊗ Kᵢ` that acts on a vectorized density matrix.
#[derive(Clone, Debug)]
pub struct Operation<C> {
    number_of_qubits: usize,
    kraus_operators: Vec<SquareMatrix<C>>,
    effect_matrix: SquareMatrix<C>,
    effect_matrix_transpose: SquareMatrix<C>,
    matrix: SquareMatrix<C>,
}

impl<C: Amplitude> Operation<C> {
    /// The number of qubits the channel acts on.
    pub closed spec fn arity(&self) -> nat {
        self.number_of_qubits as nat
    }

    /// The Kraus operators.
    pub closed spec fn kraus(&self) -> Seq<SquareMatrix<C>> {
        self.kraus_operators@
    }

    /// The effect matrix `E`.
    pub closed spec fn effect(&self) -> SquareMatrix<C> {
        self.effect_matrix
    }

    /// The transpose of the effect matrix.
    pub closed spec fn effect_transposed(&self) -> SquareMatrix<C> {
        self.effect_matrix_transpose
    }

    /// The operation matrix `O`.
    pub closed spec fn super_operator(&self) -> SquareMatrix<C> {
        self.matrix
    }

    /// Shapes agree with the arity and the cached transpose is the
    /// transpose of the effect matrix.
    pub open spec fn wf(&self) -> bool {
        &&& self.kraus().len() > 0
        &&& forall|i: int| 0 <= i < self.kraus().len()
            ==> (#[trigger] self.kraus()[i]).wf() && self.kraus()[i].size() == pow2(self.arity())
        &&& self.effect().wf()
        &&& self.effect().size() == pow2(self.arity())
        &&& self.effect_transposed().wf()
        &&& self.effect_transposed().size() == pow2(self.arity())
        &&& forall|r: int, c: int| 0 <= r < pow2(self.arity()) && 0 <= c < pow2(self.arity())
            ==> #[trigger] self.effect_transposed().at(r, c) == self.effect().at(c, r)
        &&& self.super_operator().wf()
        &&& self.super_operator().size() == pow2(2 * self.arity())
        &&& self.super_operator().size() * self.super_operator().size() <= usize::MAX
    }

    /// Builds the channel with the given Kraus operators. Fails when the
    /// list is empty, when two operators differ in dimension, when the
    /// dimension is not a power of two, or when the operation matrix would be
    /// too large to index.
    pub fn new(kraus_operators: Vec<SquareMatrix<C>>) -> (r: Result<Self, ChannelError>)
        requires
            forall|i: int| 0 <= i < kraus_operators.len() ==> (#[trigger] kraus_operators[i]).wf(),
        ensures
            r == Err::<Self, ChannelError>(ChannelError::Empty) <==> kraus_operators.len() == 0,
            r == Err::<Self, ChannelError>(ChannelError::ShapeMismatch) <==> kraus_operators.len() > 0
                && exists|i: int| 0 <= i < kraus_operators.len()
                    && #[trigger] kraus_operators[i].size() != kraus_operators[0].size(),
            r == Err::<Self, ChannelError>(ChannelError::NotPowerOfTwo) <==> kraus_operators.len() > 0
                && (forall|i: int| 0 <= i < kraus_operators.len()
                    ==> #[trigger] kraus_operators[i].size() == kraus_operators[0].size())
                && !is_power_of_two(kraus_operators[0].size()),
            r == Err::<Self, ChannelError>(ChannelError::TooLarge) <==> kraus_operators.len() > 0
                && (forall|i: int| 0 <= i < kraus_operators.len()
                    ==> #[trigger] kraus_operators[i].size() == kraus_operators[0].size())
                && is_power_of_two(kraus_operators[0].size())
                && kraus_operators[0].size() * kraus_operators[0].size()
                    * (kraus_operators[0].size() * kraus_operators[0].size()) > usize::MAX,
            r matches Ok(op) ==> {
                &&& op.wf()
                &&& op.kraus() == kraus_operators@
                &&& pow2(op.arity()) == kraus_operators[0].size()
                &&& forall|r: int, c: int| 0 <= r < pow2(op.arity()) && 0 <= c < pow2(op.arity())
                    ==> #[trigger] op.effect().at(r, c) == effect_entry(kraus_operators@, r, c, kraus_operators.len() as nat)
                &&& forall|a: int, b: int| 0 <= a < pow2(2 * op.arity()) && 0 <= b < pow2(2 * op.arity())
                    ==> #[trigger] op.super_operator().at(a, b)
                        == super_operator_entry(kraus_operators@, a, b, kraus_operators.len() as nat)
            },
    {
        let count = kraus_operators.len();
        if count == 0 {
            return Err(ChannelError::Empty);
        }
        let dim = kraus_operators[0].dim();
        let mut i: usize = 1;
        while i < count
            invariant
                1 <= i <= count,
                count == kraus_operators.len(),
                dim == kraus_operators[0].size(),
                forall|t: int| 0 <= t < i ==> #[trigger] kraus_operators[t].size() == dim,
            decreases count - i,
        {
            if kraus_operators[i].dim() != dim {
                return Err(ChannelError::ShapeMismatch);
            }
            i = i + 1;
        }
        let number_of_qubits = match log2_exact(dim) {
            Some(n) => n,
            None => {
                return Err(ChannelError::NotPowerOfTwo);
            },
        };
        let dim2 = match dim.checked_mul(dim) {
            Some(x) => x,
            None => {
                proof {
                    assert(dim * dim <= dim * dim * (dim * dim)) by (nonlinear_arith)
                        requires
                            dim * dim > usize::MAX,
                    ;
                }
                return Err(ChannelError::TooLarge);
            },
        };
        if dim2.checked_mul(dim2).is_none() {
            return Err(ChannelError::TooLarge);
        }
        proof {
            lemma_pow2_adds(number_of_qubits as nat, number_of_qubits as nat);
        }
        let first = &kraus_operators[0];
        let mut effect_matrix = gram(first);
        let mut matrix = channel_super_operator(first);
        let ghost ks = kraus_operators@;
        let mut i: usize = 1;
        while i < count
            invariant
                1 <= i <= count,
                count == kraus_operators.len(),
                dim == kraus_operators[0].size(),
                dim2 == dim * dim,
                dim2 * dim2 <= usize::MAX,
                forall|t: int| 0 <= t < count ==> #[trigger] kraus_operators[t].size() == dim,
                forall|t: int| 0 <= t < count ==> (#[trigger] kraus_operators[t]).wf(),
                effect_matrix.wf(),
                effect_matrix.size() == dim,
                matrix.wf(),
                matrix.size() == dim2,
                ks == kraus_operators@,
                forall|r: int, c: int| 0 <= r < dim && 0 <= c < dim
                    ==> #[trigger] effect_matrix.at(r, c) == effect_entry(ks, r, c, i as nat),
                forall|a: int, b: int| 0 <= a < dim2 && 0 <= b < dim2
                    ==> #[trigger] matrix.at(a, b) == super_operator_entry(ks, a, b, i as nat),
            decreases count - i,
        {
            let k = &kraus_operators[i];
            let term = gram(k);
            let next = effect_matrix.sum(&term);
            proof {
                assert forall|r: int, c: int| 0 <= r < dim && 0 <= c < dim
                    implies #[trigger] next.at(r, c) == effect_entry(ks, r, c, (i + 1) as nat) by {
                    lemma_entry_in_bounds(r as nat, c as nat, dim as nat);
                    assert(next.entries()[r + dim * c] == C::add_spec(effect_matrix.entries()[r + dim * c], term.entries()[r + dim * c]));
                    assert(effect_matrix.at(r, c) == effect_entry(ks, r, c, i as nat));
                    assert(*k == ks[i as int]);
                    assert(term.at(r, c) == gram_entry(ks[i as int], r, c, ks[i as int].size()));
                }
            }
            effect_matrix = next;
            let term = channel_super_operator(k);
            let next = matrix.sum(&term);
            proof {
                assert forall|a: int, b: int| 0 <= a < dim2 && 0 <= b < dim2
                    implies #[trigger] next.at(a, b) == super_operator_entry(ks, a, b, (i + 1) as nat) by {
                    lemma_entry_in_bounds(a as nat, b as nat, dim2 as nat);
                    assert(next.entries()[a + dim2 * b] == C::add_spec(matrix.entries()[a + dim2 * b], term.entries()[a + dim2 * b]));
                    assert(matrix.at(a, b) == super_operator_entry(ks, a, b, i as nat));
                    assert(*k == ks[i as int]);
                    assert(term.at(a, b) == conj_kron_entry(ks[i as int], a, b));
                }
            }
            matrix = next;
            i = i + 1;
        }
        let effect_matrix_transpose = effect_matrix.transpose();
        Ok(Operation { number_of_qubits, kraus_operators, effect_matrix, effect_matrix_transpose, matrix })
    }

    /// The number of qubits the channel acts on.
    pub fn number_of_qubits(&self) -> (n: usize)
        ensures
            n == self.arity(),
    {
        self.number_of_qubits
    }

    /// The Kraus operators.
    pub fn kraus_operators(&self) -> (k: &Vec<SquareMatrix<C>>)
        ensures
            k@ == self.kraus(),
    {
        &self.kraus_operators
    }

    /// The effect matrix `E = Σ Kᵢ† Kᵢ`.
    pub fn effect_matrix(&self) -> (e: &SquareMatrix<C>)
        ensures
            *e == self.effect(),
    {
        &self.effect_matrix
    }

    /// The transpose of the effect matrix.
    pub fn effect_matrix_transpose(&self) -> (e: &SquareMatrix<C>)
        ensures
            *e == self.effect_transposed(),
    {
        &self.effect_matrix_transpose
    }

    /// The operation matrix `O = Σ K̄ᵢ ⊗ Kᵢ`.
    pub fn matrix(&self) -> (m: &SquareMatrix<C>)
        ensures
            *m == self.super_operator(),
    {
        &self.matrix
    }

    /// The effect matrix, row by row.
    pub fn get_effect_matrix(&self) -> (v: Vec<C>)
        requires
            self.wf(),
        ensures
            v.len() == self.effect().size() * self.effect().size(),
            forall|r: int, c: int| 0 <= r < self.effect().size() && 0 <= c < self.effect().size()
                ==> #[trigger] v@[self.effect().size() * r + c] == self.effect().at(r, c),
    {
        self.effect_matrix.to_row_major()
    }

    /// The operation matrix, row by row.
    pub fn get_operation_matrix(&self) -> (v: Vec<C>)
        requires
            self.wf(),
        ensures
            v.len() == self.super_operator().size() * self.super_operator().size(),
            forall|r: int, c: int| 0 <= r < self.super_operator().size() && 0 <= c < self.super_operator().size()
                ==> #[trigger] v@[self.super_operator().size() * r + c] == self.super_operator().at(r, c),
    {
        self.matrix.to_row_major()
    }

    /// Each Kraus operator, row by row.
    pub fn get_kraus_operators(&self) -> (v: Vec<Vec<C>>)
        requires
            self.wf(),
        ensures
            v.len() == self.kraus().len(),
            forall|i: int| 0 <= i < v.len() ==> {
                let k = #[trigger] self.kraus()[i];
                &&& v@[i].len() == k.size() * k.size()
                &&& forall|r: int, c: int| 0 <= r < k.size() && 0 <= c < k.size()
                    ==> #[trigger] v@[i]@[k.size() * r + c] == k.at(r, c)
            },
    {
        let mut v: Vec<Vec<C>> = Vec::new();
        let mut i: usize = 0;
        while i < self.kraus_operators.len()
            invariant
                self.wf(),
                i <= self.kraus().len(),
                v.len() == i,
                forall|t: int| 0 <= t < i ==> {
                    let k = #[trigger] self.kraus()[t];
                    &&& v@[t].len() == k.size() * k.size()
                    &&& forall|r: int, c: int| 0 <= r < k.size() && 0 <= c < k.size()
                        ==> #[trigger] v@[t]@[k.size() * r + c] == k.at(r, c)
                },
            decreases self.kraus().len() - i,
        {
            let row_major = self.kraus_operators[i].to_row_major();
            v.push(row_major);
            i = i + 1;
        }
        v
    }
}

/// Entry `x` (column by column) of `N = Σ_{j < m} Oⱼ`, for `m ≥ 1`, summed in
/// order.
pub open spec fn non_selective_entry<C: Amplitude>(ops: Seq<Operation<C>>, x: int, m: nat) -> C
    decreases m,
{
    if m <= 1 {
        ops[0].super_operator().entries()[x]
    } else {
        C::add_spec(non_selective_entry(ops, x, (m - 1) as nat), ops[m - 1].super_operator().entries()[x])
    }
}

/// Entry `x` (column by column) of `T = Σ_{j < m} Eⱼ`, for `m ≥ 1`, summed in
/// order.
pub open spec fn total_effect_entry<C: Amplitude>(ops: Seq<Operation<C>>, x: int, m: nat) -> C
    decreases m,
{
    if m <= 1 {
        ops[0].effect().entries()[x]
    } else {
        C::add_spec(total_effect_entry(ops, x, (m - 1) as nat), ops[m - 1].effect().entries()[x])
    }
}

/// A family of channels indexed by a measurement outcome, all of one arity.
/// Built alongside are the non-selective operation matrix `N = Σⱼ Oⱼ` and
/// the transpose of the total effect `T = Σⱼ Eⱼ`.
#[derive(Clone, Debug)]
pub struct Instrument<C> {
    number_of_qubits: usize,
    operations: Vec<Operation<C>>,
    non_selective_operation_matrix: SquareMatrix<C>,
    total_effect_transpose: SquareMatrix<C>,
}

impl<C: Amplitude> Instrument<C> {
    /// The number of qubits the instrument acts on.
    pub closed spec fn arity(&self) -> nat {
        self.number_of_qubits as nat
    }

    /// The channel of each outcome.
    pub closed spec fn outcomes(&self) -> Seq<Operation<C>> {
        self.operations@
    }

    /// The non-selective operation matrix `N`.
    pub closed spec fn non_selective(&self) -> SquareMatrix<C> {
        self.non_selective_operation_matrix
    }

    /// The transpose of the total effect `T`.
    pub closed spec fn total_effect_t(&self) -> SquareMatrix<C> {
        self.total_effect_transpose
    }

    /// Every outcome is a well-formed channel of the instrument's arity, and
    /// the cached matrices have the matching shapes.
    pub open spec fn wf(&self) -> bool {
        &&& self.outcomes().len() > 0
        &&& forall|j: int| 0 <= j < self.outcomes().len()
            ==> (#[trigger] self.outcomes()[j]).wf() && self.outcomes()[j].arity() == self.arity()
        &&& self.non_selective().wf()
        &&& self.non_selective().size() == pow2(2 * self.arity())
        &&& self.total_effect_t().wf()
        &&& self.total_effect_t().size() == pow2(self.arity())
    }

    /// Builds the instrument with one outcome per operation. Fails when the
    /// list is empty or when two operations differ in arity.
    pub fn new(operations: Vec<Operation<C>>) -> (r: Result<Self, ChannelError>)
        requires
            forall|j: int| 0 <= j < operations.len() ==> (#[trigger] operations[j]).wf(),
        ensures
            r == Err::<Self, ChannelError>(ChannelError::Empty) <==> operations.len() == 0,
            r == Err::<Self, ChannelError>(ChannelError::ShapeMismatch) <==> operations.len() > 0
                && exists|j: int| 0 <= j < operations.len()
                    && #[trigger] operations[j].arity() != operations[0].arity(),
            r is Ok <==> operations.len() > 0
                && forall|j: int| 0 <= j < operations.len()
                    ==> #[trigger] operations[j].arity() == operations[0].arity(),
            r matches Ok(instrument) ==> {
                &&& instrument.wf()
                &&& instrument.outcomes() == operations@
                &&& instrument.arity() == operations[0].arity()
                &&& forall|x: int| 0 <= x < instrument.non_selective().entries().len()
                    ==> #[trigger] instrument.non_selective().entries()[x]
                        == non_selective_entry(operations@, x, operations.len() as nat)
                &&& forall|r: int, c: int| 0 <= r < pow2(instrument.arity()) && 0 <= c < pow2(instrument.arity())
                    ==> #[trigger] instrument.total_effect_t().at(r, c)
                        == total_effect_entry(operations@, c + pow2(instrument.arity()) * r, operations.len() as nat)
            },
    {
        let count = operations.len();
        if count == 0 {
            return Err(ChannelError::Empty);
        }
        let number_of_qubits = operations[0].number_of_qubits();
        let mut i: usize = 1;
        while i < count
            invariant
                1 <= i <= count,
                count == operations.len(),
                number_of_qubits == operations[0].arity(),
                forall|t: int| 0 <= t < i ==> #[trigger] operations[t].arity() == number_of_qubits,
            decreases count - i,
        {
            if operations[i].number_of_qubits() != number_of_qubits {
                return Err(ChannelError::ShapeMismatch);
            }
            i = i + 1;
        }
        let mut non_selective_operation_matrix = operations[0].matrix().clone_matrix();
        let mut total_effect = operations[0].effect_matrix().clone_matrix();
        let ghost ops = operations@;
        let mut i: usize = 1;
        while i < count
            invariant
                1 <= i <= count,
                count == operations.len(),
                forall|t: int| 0 <= t < count ==> (#[trigger] operations[t]).wf(),
                forall|t: int| 0 <= t < count ==> #[trigger] operations[t].arity() == number_of_qubits,
                non_selective_operation_matrix.wf(),
                non_selective_operation_matrix.size() == pow2(2 * number_of_qubits as nat),
                total_effect.wf(),
                total_effect.size() == pow2(number_of_qubits as nat),
                ops == operations@,
                forall|x: int| 0 <= x < non_selective_operation_matrix.entries().len()
                    ==> #[trigger] non_selective_operation_matrix.entries()[x] == non_selective_entry(ops, x, i as nat),
                forall|x: int| 0 <= x < total_effect.entries().len()
                    ==> #[trigger] total_effect.entries()[x] == total_effect_entry(ops, x, i as nat),
            decreases count - i,
        {
            let op = &operations[i];
            assert(op.wf());
            assert(*op == ops[i as int]);
            non_selective_operation_matrix = non_selective_operation_matrix.sum(op.matrix());
            total_effect = total_effect.sum(op.effect_matrix());
            i = i + 1;
        }
        let total_effect_transpose = total_effect.transpose();
        proof {
            let d = pow2(number_of_qubits as nat);
            assert forall|r: int, c: int| 0 <= r < d && 0 <= c < d implies #[trigger] total_effect_transpose.at(r, c)
                == total_effect_entry(ops, c + d * r, count as nat) by {
                lemma_entry_in_bounds(c as nat, r as nat, d);
            }
        }
        Ok(Instrument { number_of_qubits, operations, non_selective_operation_matrix, total_effect_transpose })
    }

    /// The number of qubits the instrument acts on.
    pub fn number_of_qubits(&self) -> (n: usize)
        ensures
            n == self.arity(),
    {
        self.number_of_qubits
    }

    /// The channels of all outcomes.
    pub(crate) fn operations(&self) -> (ops: &Vec<Operation<C>>)
        ensures
            ops@ == self.outcomes(),
    {
        &self.operations
    }

    /// The number of outcomes.
    pub fn num_operations(&self) -> (n: usize)
        ensures
            n == self.outcomes().len(),
    {
        self.operations.len()
    }

    /// The channel of outcome `j`.
    pub fn operation(&self, j: usize) -> (op: &Operation<C>)
        requires
            j < self.outcomes().len(),
        ensures
            *op == self.outcomes()[j as int],
    {
        &self.operations[j]
    }

    /// The non-selective operation matrix `N = Σⱼ Oⱼ`, which applies the
    /// instrument without observing the outcome.
    pub fn non_selective_operation_matrix(&self) -> (m: &SquareMatrix<C>)
        ensures
            *m == self.non_selective(),
    {
        &self.non_selective_operation_matrix
    }

    /// The transpose of the total effect `T = Σⱼ Eⱼ`.
    pub fn total_effect_transposed(&self) -> (m: &SquareMatrix<C>)
        ensures
            *m == self.total_effect_t(),
    {
        &self.total_effect_transpose
    }
}

} // verus!
