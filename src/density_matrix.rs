//! The density-matrix simulator and its state.
use vstd::prelude::*;
use vstd::arithmetic::power2::{pow2, lemma_pow2_adds, lemma_pow2_pos};
use crate::amplitude::Amplitude;
use crate::error::{Error, StateDefect};
use crate::kernel::{apply_kernel, kernel_output, lemma_below_pow2, lemma_pow2_injective, power_of_two, valid_axes, KernelError};
use crate::matrix::{lemma_entry_in_bounds, SquareMatrix};
use crate::operation::{log2_exact, Instrument, Operation};
use crate::sampling::{last_supported, pick_outcome};

verus! {

/// `qubits` followed by each qubit shifted by `number_of_qubits`: the row
/// axes, then the column axes, that a super-operator acts on.
pub fn doubled_axes(qubits: &[usize], number_of_qubits: usize) -> (r: Vec<usize>)
    requires
        forall|j: int| 0 <= j < qubits.len() ==> #[trigger] qubits@[j] < number_of_qubits,
        2 * number_of_qubits <= usize::MAX,
    ensures
        r.len() == 2 * qubits.len(),
        forall|j: int| 0 <= j < qubits.len() ==> #[trigger] r@[j] == qubits@[j],
        forall|j: int| 0 <= j < qubits.len() ==> #[trigger] r@[j + qubits.len()] == qubits@[j] + number_of_qubits,
{
    let k = qubits.len();
    let mut r: Vec<usize> = Vec::new();
    let mut j: usize = 0;
    while j < k
        invariant
            j <= k,
            k == qubits.len(),
            r.len() == j,
            forall|t: int| 0 <= t < j ==> #[trigger] r@[t] == qubits@[t],
        decreases k - j,
    {
        r.push(qubits[j]);
        j = j + 1;
    }
    let mut j: usize = 0;
    while j < k
        invariant
            j <= k,
            k == qubits.len(),
            r.len() == k + j,
            forall|t: int| 0 <= t < qubits.len() ==> #[trigger] qubits@[t] < number_of_qubits,
            2 * number_of_qubits <= usize::MAX,
            forall|t: int| 0 <= t < k ==> #[trigger] r@[t] == qubits@[t],
            forall|t: int| 0 <= t < j ==> #[trigger] r@[t + k] == qubits@[t] + number_of_qubits,
        decreases k - j,
    {
        r.push(qubits[j] + number_of_qubits);
        j = j + 1;
    }
    r
}

/// Distinct qubits below `n` give distinct row and column axes below `2n`.
pub(crate) proof fn lemma_doubled_axes_valid(qubits: Seq<usize>, doubled: Seq<usize>, n: nat)
    requires
        valid_axes(qubits, n),
        doubled.len() == 2 * qubits.len(),
        forall|j: int| 0 <= j < qubits.len() ==> #[trigger] doubled[j] == qubits[j],
        forall|j: int| 0 <= j < qubits.len() ==> #[trigger] doubled[j + qubits.len()] == qubits[j] + n,
    ensures
        valid_axes(doubled, 2 * n),
{
    let k = qubits.len() as int;
    assert forall|i: int| 0 <= i < doubled.len() implies #[trigger] doubled[i] < 2 * n by {
        if i >= k {
            assert(doubled[(i - k) + k] == qubits[i - k] + n);
        }
    }
    assert forall|i: int, j: int| 0 <= i < doubled.len() && 0 <= j < doubled.len() && i != j
        implies doubled[i] != doubled[j] by {
        if i < k && j >= k {
            assert(doubled[(j - k) + k] == qubits[j - k] + n);
        } else if i >= k && j < k {
            assert(doubled[(i - k) + k] == qubits[i - k] + n);
        } else if i >= k && j >= k {
            assert(doubled[(i - k) + k] == qubits[i - k] + n);
            assert(doubled[(j - k) + k] == qubits[j - k] + n);
        }
    }
}

/// The row axes `qubits`, then the column axes `q + n` of a super-operator.
pub open spec fn doubled(qubits: Seq<usize>, n: nat) -> Seq<usize> {
    Seq::new(2 * qubits.len(), |j: int| if j < qubits.len() { qubits[j] } else { (qubits[j - qubits.len()] + n) as usize })
}

/// `Σ_{i < m} ρ[i, i]` for entries stored column by column, summed in order.
pub open spec fn diagonal_sum<C: Amplitude>(entries: Seq<C>, dim: nat, m: nat) -> C
    decreases m,
{
    if m == 0 {
        C::zero_spec()
    } else {
        let i = (m - 1) as int;
        C::add_spec(diagonal_sum(entries, dim, (m - 1) as nat), entries[i + dim * i])
    }
}

/// The real part of the diagonal sum.
pub open spec fn trace_of<C: Amplitude>(entries: Seq<C>, dim: nat) -> C {
    C::real_spec(diagonal_sum(entries, dim, dim))
}

/// The entries at `(row, col)` (stored at `col + dim · row`) and at
/// `(col, row)` are conjugate within the tolerance.
pub open spec fn mirrored_at<C: Amplitude>(entries: Seq<C>, dim: nat, row: int, col: int) -> bool {
    let elt = entries[col + dim * row];
    let mirror = entries[row + dim * col];
    &&& !C::lt_spec(C::tolerance_spec(), C::abs_re_spec(C::sub_spec(elt, mirror)))
    &&& !C::lt_spec(C::tolerance_spec(), C::abs_im_spec(C::add_spec(elt, mirror)))
}

/// The matrix is Hermitian within the tolerance.
pub open spec fn hermitian_within_tolerance<C: Amplitude>(entries: Seq<C>, dim: nat) -> bool {
    forall|row: int, col: int| 0 <= row < dim && 0 <= col < dim ==> #[trigger] mirrored_at(entries, dim, row, col)
}

/// `|Tr ρ − 1| ≤ ε`.
pub open spec fn normalized<C: Amplitude>(entries: Seq<C>, dim: nat) -> bool {
    C::le_spec(C::abs_re_spec(C::sub_spec(trace_of(entries, dim), C::one_spec())), C::tolerance_spec())
}

/// Every entry scaled by `1 / trace`.
pub open spec fn renormalized<C: Amplitude>(entries: Seq<C>, trace: C) -> Seq<C> {
    entries.map_values(|e: C| C::scale_spec(e, C::div_spec(C::one_spec(), trace)))
}

/// A vectorized density matrix `ρ` over `number_of_qubits` qubits, with
/// `dim = 2^number_of_qubits`. The entry in row `r` and column `c` is stored
/// at `r + dim * c`; read as a tensor over `2 · number_of_qubits` binary axes,
/// the first `number_of_qubits` axes index the column and the others the row,
/// qubit `0` most significant in each.
#[derive(Clone, Debug)]
pub struct DensityMatrix<C> {
    dim: usize,
    number_of_qubits: usize,
    trace_change: C,
    data: Vec<C>,
}

impl<C: Amplitude> View for DensityMatrix<C> {
    /// The dimension, the number of qubits, the trace change and the entries.
    type V = (nat, nat, C, Seq<C>);

    closed spec fn view(&self) -> (nat, nat, C, Seq<C>) {
        (self.dim as nat, self.number_of_qubits as nat, self.trace_change, self.data@)
    }
}

impl<C: Amplitude> DensityMatrix<C> {
    /// The dimension `D` of the `D × D` matrix.
    pub closed spec fn size(&self) -> nat {
        self.dim as nat
    }

    /// The number of qubits of the system.
    pub closed spec fn qubits(&self) -> nat {
        self.number_of_qubits as nat
    }

    /// The accumulated trace removed by renormalization.
    pub closed spec fn trace_factor(&self) -> C {
        self.trace_change
    }

    /// The entries, column by column.
    pub closed spec fn entries(&self) -> Seq<C> {
        self.data@
    }

    /// `dim = 2^number_of_qubits` and `dim²` entries are stored.
    pub open spec fn wf(&self) -> bool {
        &&& self.size() == pow2(self.qubits())
        &&& self.entries().len() == self.size() * self.size()
    }

    /// The all-zero state `|0…0⟩⟨0…0|` over `number_of_qubits` qubits.
    pub fn new(number_of_qubits: usize) -> (dm: Self)
        requires
            pow2(2 * number_of_qubits as nat) <= usize::MAX,
        ensures
            dm.wf(),
            dm.qubits() == number_of_qubits,
            dm.trace_factor() == C::one_spec(),
            dm.entries()[0] == C::one_spec(),
            forall|i: int| 1 <= i < dm.entries().len() ==> #[trigger] dm.entries()[i] == C::zero_spec(),
    {
        proof {
            lemma_pow2_adds(number_of_qubits as nat, number_of_qubits as nat);
            lemma_pow2_pos(number_of_qubits as nat);
            assert(pow2(number_of_qubits as nat) <= pow2(number_of_qubits as nat) * pow2(number_of_qubits as nat))
                by (nonlinear_arith)
                requires
                    pow2(number_of_qubits as nat) > 0,
            ;
        }
        let dim = power_of_two(number_of_qubits);
        let len = dim * dim;
        let zero = C::zero();
        let one = C::one();
        let mut data: Vec<C> = Vec::new();
        data.push(one);
        let mut i: usize = 1;
        while i < len
            invariant
                1 <= i <= len,
                data.len() == i,
                data@[0] == one,
                forall|t: int| 1 <= t < i ==> data@[t] == zero,
            decreases len - i,
        {
            data.push(zero);
            i = i + 1;
        }
        DensityMatrix { dim, number_of_qubits, trace_change: one, data }
    }

    /// Builds a density matrix from its raw fields. Returns `None` unless
    /// `dim = 2^number_of_qubits` and `data` holds `dim²` entries.
    pub fn try_from(dim: usize, number_of_qubits: usize, trace_change: C, data: Vec<C>) -> (r: Option<Self>)
        ensures
            r is Some <==> pow2(number_of_qubits as nat) == dim && data.len() == dim * dim,
            r matches Some(dm) ==> {
                &&& dm.wf()
                &&& dm.size() == dim
                &&& dm.qubits() == number_of_qubits
                &&& dm.trace_factor() == trace_change
                &&& dm.entries() == data@
            },
    {
        match log2_exact(dim) {
            Some(n) => {
                if n != number_of_qubits {
                    proof {
                        lemma_pow2_injective(n as nat, number_of_qubits as nat);
                    }
                    return None;
                }
            },
            None => {
                return None;
            },
        }
        match dim.checked_mul(dim) {
            Some(len) => {
                if data.len() != len {
                    return None;
                }
            },
            None => {
                return None;
            },
        }
        Some(DensityMatrix { dim, number_of_qubits, trace_change, data })
    }

    /// The entries, column by column.
    pub fn data(&self) -> (d: &Vec<C>)
        ensures
            d@ == self.entries(),
    {
        &self.data
    }

    /// The dimension `D` of the `D × D` matrix.
    pub fn dim(&self) -> (d: usize)
        ensures
            d == self.size(),
    {
        self.dim
    }

    /// The number of qubits of the system.
    pub fn number_of_qubits(&self) -> (n: usize)
        ensures
            n == self.qubits(),
    {
        self.number_of_qubits
    }

    /// The product of the traces removed by the renormalizations so far.
    pub fn trace_change(&self) -> (t: C)
        ensures
            t == self.trace_factor(),
    {
        self.trace_change
    }

    /// A copy of the state.
    pub fn duplicate(&self) -> (dm: Self)
        ensures
            dm@ == self@,
            dm.size() == self.size(),
            dm.qubits() == self.qubits(),
            dm.trace_factor() == self.trace_factor(),
            dm.entries() == self.entries(),
    {
        let n = self.data.len();
        let mut data: Vec<C> = Vec::new();
        let mut i: usize = 0;
        while i < n
            invariant
                n == self.data.len(),
                i <= n,
                data@ == self.data@.take(i as int),
            decreases n - i,
        {
            data.push(self.data[i]);
            proof {
                assert(self.data@.take(i + 1) == self.data@.take(i as int).push(self.data@[i as int]));
            }
            i = i + 1;
        }
        proof {
            assert(self.data@.take(n as int) == self.data@);
        }
        DensityMatrix { dim: self.dim, number_of_qubits: self.number_of_qubits, trace_change: self.trace_change, data }
    }

    /// `Tr(ρ)` as the trace function computes it.
    pub open spec fn trace_value(&self) -> C {
        trace_of(self.entries(), self.size())
    }

    /// Whether `ρ` equals its conjugate transpose within the tolerance.
    pub fn is_hermitian(&self) -> (r: bool)
        requires
            self.wf(),
        ensures
            r == hermitian_within_tolerance(self.entries(), self.size()),
    {
        let tolerance = C::tolerance();
        let dim = self.dim;
        let len = self.data.len();
        let mut row: usize = 0;
        while row < dim
            invariant
                self.wf(),
                dim == self.size(),
                len == self.entries().len(),
                row <= dim,
                tolerance == C::tolerance_spec(),
                forall|a: int, b: int| 0 <= a < row && 0 <= b < dim ==> #[trigger] mirrored_at(self.entries(), dim as nat, a, b),
            decreases dim - row,
        {
            let mut col: usize = 0;
            while col < dim
                invariant
                    self.wf(),
                    dim == self.size(),
                    len == self.entries().len(),
                    row < dim,
                    col <= dim,
                    tolerance == C::tolerance_spec(),
                    forall|a: int, b: int| 0 <= a < row && 0 <= b < dim ==> #[trigger] mirrored_at(self.entries(), dim as nat, a, b),
                    forall|b: int| 0 <= b < col ==> #[trigger] mirrored_at(self.entries(), dim as nat, row as int, b),
                decreases dim - col,
            {
                proof {
                    lemma_entry_in_bounds(col as nat, row as nat, dim as nat);
                    lemma_entry_in_bounds(row as nat, col as nat, dim as nat);
                }
                assert(dim * row <= col + dim * row);
                assert(dim * col <= row + dim * col);
                let elt = self.data[col + dim * row];
                let mirror = self.data[row + dim * col];
                if tolerance.lt(&elt.minus(&mirror).abs_re()) || tolerance.lt(&elt.plus(&mirror).abs_im()) {
                    proof {
                        assert(!mirrored_at(self.entries(), dim as nat, row as int, col as int));
                    }
                    return false;
                }
                col = col + 1;
            }
            row = row + 1;
        }
        true
    }

    /// `Tr(ρ)`, the sum of the diagonal, as a real value.
    pub fn trace(&self) -> (r: C)
        requires
            self.wf(),
        ensures
            r == self.trace_value(),
    {
        let dim = self.dim;
        let len = self.data.len();
        let mut trace = C::zero();
        let mut i: usize = 0;
        while i < dim
            invariant
                self.wf(),
                len == self.entries().len(),
                dim == self.size(),
                i <= dim,
                trace == diagonal_sum(self.entries(), dim as nat, i as nat),
            decreases dim - i,
        {
            proof {
                lemma_entry_in_bounds(i as nat, i as nat, dim as nat);
            }
            assert(dim * i <= i + dim * i);
            trace = trace.plus(&self.data[i + dim * i]);
            i = i + 1;
        }
        trace.real_part()
    }

    /// Whether the trace is 1 within the tolerance.
    pub fn is_normalized(&self) -> (r: bool)
        requires
            self.wf(),
        ensures
            r == normalized(self.entries(), self.size()),
    {
        self.trace().minus(&C::one()).abs_re().le(&C::tolerance())
    }

    /// Scales `ρ` by `1 / trace` and multiplies the trace change by `trace`.
    /// Fails, leaving the state as it was, when `trace` is under the
    /// tolerance.
    pub fn renormalize_with_trace(&mut self, trace: C) -> (r: Result<(), Error<C>>)
        requires
            old(self).wf(),
        ensures
            final(self).wf(),
            final(self).size() == old(self).size(),
            final(self).qubits() == old(self).qubits(),
            r is Err <==> C::lt_spec(trace, C::tolerance_spec()),
            r is Err ==> r == Err::<(), Error<C>>(Error::ProbabilityZeroEvent) && *final(self) == *old(self),
            r is Ok ==> final(self).entries() == renormalized(old(self).entries(), trace)
                && final(self).trace_factor() == C::mul_spec(old(self).trace_factor(), trace),
    {
        if trace.lt(&C::tolerance()) {
            return Err(Error::ProbabilityZeroEvent);
        }
        self.trace_change = self.trace_change.times(&trace);
        let factor = C::one().divided_by(&trace);
        let n = self.data.len();
        let ghost before = self.data@;
        let mut i: usize = 0;
        while i < n
            invariant
                n == self.data.len(),
                before.len() == n,
                i <= n,
                self.wf(),
                self.size() == old(self).size(),
                self.qubits() == old(self).qubits(),
                self.trace_factor() == C::mul_spec(old(self).trace_factor(), trace),
                before == old(self).entries(),
                factor == C::div_spec(C::one_spec(), trace),
                forall|t: int| 0 <= t < i ==> #[trigger] self.data@[t] == C::scale_spec(before[t], factor),
                forall|t: int| i <= t < n ==> #[trigger] self.data@[t] == before[t],
            decreases n - i,
        {
            let scaled = self.data[i].scaled(&factor);
            self.data.set(i, scaled);
            i = i + 1;
        }
        proof {
            assert(self.entries() =~= renormalized(old(self).entries(), trace));
        }
        Ok(())
    }

    /// Renormalizes so that the trace is 1.
    pub fn renormalize(&mut self) -> (r: Result<(), Error<C>>)
        requires
            old(self).wf(),
        ensures
            final(self).wf(),
            final(self).size() == old(self).size(),
            final(self).qubits() == old(self).qubits(),
            r is Err <==> C::lt_spec(old(self).trace_value(), C::tolerance_spec()),
            r is Err ==> r == Err::<(), Error<C>>(Error::ProbabilityZeroEvent) && *final(self) == *old(self),
            r is Ok ==> final(self).entries() == renormalized(old(self).entries(), old(self).trace_value())
                && final(self).trace_factor() == C::mul_spec(old(self).trace_factor(), old(self).trace_value()),
    {
        let trace = self.trace();
        self.renormalize_with_trace(trace)
    }

    /// Applies a super-operator of arity `qubits.len()` to the given qubits:
    /// the row axes `q` and the column axes `q + number_of_qubits`. Fails,
    /// leaving the state as it was, unless the qubits are distinct, each
    /// below the number of qubits, and the matrix has dimension `4^|qubits|`.
    pub fn apply_operation_matrix(&mut self, operation_matrix: &SquareMatrix<C>, qubits: &[usize]) -> (r: Result<(), KernelError>)
        requires
            old(self).wf(),
            operation_matrix.wf(),
        ensures
            final(self).wf(),
            final(self).size() == old(self).size(),
            final(self).qubits() == old(self).qubits(),
            r is Ok <==> valid_axes(qubits@, old(self).qubits())
                && operation_matrix.size() == pow2(2 * qubits.len() as nat),
            r is Err ==> *final(self) == *old(self),
            r is Ok ==> final(self).entries() == kernel_output(old(self).entries(), 2 * old(self).qubits(),
                *operation_matrix, doubled(qubits@, old(self).qubits()))
                && final(self).trace_factor() == old(self).trace_factor(),
    {
        let n = self.number_of_qubits;
        let k = qubits.len();
        let mut j: usize = 0;
        while j < k
            invariant
                j <= k,
                k == qubits.len(),
                self.wf(),
                n == self.qubits(),
                forall|t: int| 0 <= t < j ==> #[trigger] qubits@[t] < n,
            decreases k - j,
        {
            if qubits[j] >= n {
                return Err(KernelError::AxisOutOfRange);
            }
            j = j + 1;
        }
        // a vector's length is a `usize`, which bounds the number of axes
        let _entries = self.data.len();
        proof {
            lemma_pow2_adds(n as nat, n as nat);
            lemma_below_pow2((n + n) as nat);
        }
        let axes = doubled_axes(qubits, n);
        proof {
            if valid_axes(qubits@, n as nat) {
                lemma_doubled_axes_valid(qubits@, axes@, n as nat);
            } else {
                let t = choose|i: int, j: int| 0 <= i < qubits.len() && 0 <= j < qubits.len() && i != j
                    && qubits@[i] == qubits@[j];
                assert(axes@[t.0] == axes@[t.1]);
                assert(!axes@.no_duplicates());
            }
            assert(2 * n == n + n);
            assert(pow2((n + n) as nat) == self.size() * self.size());
            assert forall|j: int| qubits.len() <= j < axes.len() implies axes@[j] == doubled(qubits@, n as nat)[j] by {
                assert(axes@[(j - qubits.len()) + qubits.len()] == qubits@[j - qubits.len()] + n);
            }
            assert(axes@ =~= doubled(qubits@, n as nat));
        }
        apply_kernel(&mut self.data, 2 * n, operation_matrix, axes.as_slice())
    }
}

/// A quantum circuit simulator on a density matrix.
///
/// Each mutating method either leaves a well-formed density matrix behind or,
/// on a numerical failure, replaces the state by the error: from then on
/// every method that needs the state returns that same error, until a valid
/// state is installed with [`DensityMatrixSimulator::set_state`].
pub struct DensityMatrixSimulator<C> {
    state: Result<DensityMatrix<C>, Error<C>>,
    dim: usize,
}

impl<C: Amplitude> View for DensityMatrixSimulator<C> {
    /// The state (or the latched error) and the dimension of the system.
    type V = (Result<(nat, nat, C, Seq<C>), Error<C>>, nat);

    closed spec fn view(&self) -> (Result<(nat, nat, C, Seq<C>), Error<C>>, nat) {
        (
            match self.state {
                Ok(dm) => Ok(dm@),
                Err(e) => Err(e),
            },
            self.dim as nat,
        )
    }
}

/// Density matrices with equal views have equal entries and size.
pub proof fn lemma_view_fields<C: Amplitude>(a: DensityMatrix<C>, b: DensityMatrix<C>)
    requires
        a@ == b@,
    ensures
        a.entries() == b.entries(),
        a.size() == b.size(),
        a.qubits() == b.qubits(),
        a.trace_factor() == b.trace_factor(),
{
}

/// The errors that a simulator latches.
pub open spec fn latchable<C>(e: Error<C>) -> bool {
    e is ProbabilityZeroEvent || e is FailedToSampleInstrumentOutcome || e is Kernel
}

/// `ρ` with the super-operator `m` applied on the row and column axes of
/// `qubits`, before renormalization.
pub open spec fn evolved<C: Amplitude>(dm: DensityMatrix<C>, m: SquareMatrix<C>, qubits: Seq<usize>) -> Seq<C> {
    kernel_output(dm.entries(), 2 * dm.qubits(), m, doubled(qubits, dm.qubits()))
}

/// The trace of `ρ` with `m` applied on the single axes `qubits`: with `m`
/// the transpose of an effect `E`, this is `Tr(E ρ)`.
pub open spec fn weight<C: Amplitude>(dm: DensityMatrix<C>, m: SquareMatrix<C>, qubits: Seq<usize>) -> C {
    trace_of(kernel_output(dm.entries(), 2 * dm.qubits(), m, qubits), dm.size())
}

/// What applying the super-operator `m` of arity `arity` leaves behind on a
/// simulator that held `dm`: a kernel error and no change when the qubits do
/// not fit; `ProbabilityZeroEvent`, latched, when the new trace `τ` is under
/// the tolerance; otherwise the new state divided by `τ`, with the trace
/// change multiplied by `τ`.
pub open spec fn applied_outcome<C: Amplitude>(
    dm: DensityMatrix<C>,
    m: SquareMatrix<C>,
    qubits: Seq<usize>,
    arity: nat,
    after: DensityMatrixSimulator<C>,
    r: Result<(), Error<C>>,
) -> bool {
    let sigma = evolved(dm, m, qubits);
    let tau = trace_of(sigma, dm.size());
    if !(valid_axes(qubits, dm.qubits()) && arity == qubits.len()) {
        r is Err && r->Err_0 is Kernel && after.current() == Ok::<DensityMatrix<C>, Error<C>>(dm)
    } else if C::lt_spec(tau, C::tolerance_spec()) {
        &&& r == Err::<(), Error<C>>(Error::ProbabilityZeroEvent)
        &&& after.current() == Err::<DensityMatrix<C>, Error<C>>(Error::ProbabilityZeroEvent)
    } else {
        &&& r is Ok
        &&& after.current() is Ok
        &&& after.current()->Ok_0.size() == dm.size()
        &&& after.current()->Ok_0.qubits() == dm.qubits()
        &&& after.current()->Ok_0.entries() == renormalized(sigma, tau)
        &&& after.current()->Ok_0.trace_factor() == C::mul_spec(dm.trace_factor(), tau)
    }
}

/// `Tr(Eⱼ ρ)` for outcome `j` of the instrument.
pub open spec fn outcome_weight<C: Amplitude>(dm: DensityMatrix<C>, instrument: Instrument<C>, qubits: Seq<usize>, j: int) -> C {
    weight(dm, instrument.outcomes()[j].effect_transposed(), qubits)
}

/// `Σ_{i < j} Tr(Eᵢ ρ) / total`, summed in order.
pub open spec fn summed_weights<C: Amplitude>(
    dm: DensityMatrix<C>,
    instrument: Instrument<C>,
    qubits: Seq<usize>,
    total: C,
    j: nat,
) -> C
    decreases j,
{
    if j == 0 {
        C::zero_spec()
    } else {
        C::add_spec(
            summed_weights(dm, instrument, qubits, total, (j - 1) as nat),
            C::div_spec(outcome_weight(dm, instrument, qubits, j - 1), total),
        )
    }
}

/// The number of outcomes the scan reads: it stops at the first `j` from
/// `start` on whose preceding sum exceeds the draw, or at the last outcome.
pub open spec fn scanned<C: Amplitude>(
    dm: DensityMatrix<C>,
    instrument: Instrument<C>,
    qubits: Seq<usize>,
    total: C,
    draw: C,
    start: nat,
) -> nat
    decreases instrument.outcomes().len() - start,
{
    if start >= instrument.outcomes().len() {
        instrument.outcomes().len()
    } else if C::lt_spec(draw, summed_weights(dm, instrument, qubits, total, start)) {
        start
    } else {
        scanned(dm, instrument, qubits, total, draw, start + 1)
    }
}

/// For each of the first `s` outcomes, whether its weight reaches the
/// tolerance.
pub open spec fn supported_outcomes<C: Amplitude>(
    dm: DensityMatrix<C>,
    instrument: Instrument<C>,
    qubits: Seq<usize>,
    s: nat,
) -> Seq<bool> {
    Seq::new(s, |j: int| !C::lt_spec(outcome_weight(dm, instrument, qubits, j), C::tolerance_spec()))
}

/// The scan reads outcomes `0 .. o` when none before `o` exceeded the draw
/// and `o` is the last or does.
proof fn lemma_scanned<C: Amplitude>(
    dm: DensityMatrix<C>,
    instrument: Instrument<C>,
    qubits: Seq<usize>,
    total: C,
    draw: C,
    start: nat,
    o: nat,
)
    requires
        start <= o <= instrument.outcomes().len(),
        forall|j: nat| start <= j < o ==> !C::lt_spec(draw, #[trigger] summed_weights(dm, instrument, qubits, total, j)),
        o < instrument.outcomes().len() ==> C::lt_spec(draw, summed_weights(dm, instrument, qubits, total, o)),
    ensures
        scanned(dm, instrument, qubits, total, draw, start) == o,
    decreases o - start,
{
    if start < o {
        lemma_scanned(dm, instrument, qubits, total, draw, start + 1, o);
    }
}

/// What sampling `instrument` with the draw `draw` leaves behind on a
/// simulator that held `dm`, when the qubits fit the instrument.
pub open spec fn sampled_outcome<C: Amplitude>(
    dm: DensityMatrix<C>,
    instrument: Instrument<C>,
    qubits: Seq<usize>,
    draw: C,
    after: DensityMatrixSimulator<C>,
    r: Result<usize, Error<C>>,
) -> bool {
    let total = weight(dm, instrument.total_effect_t(), qubits);
    let s = scanned(dm, instrument, qubits, total, draw, 0);
    let picked = last_supported(supported_outcomes(dm, instrument, qubits, s));
    let short = C::le_spec(C::add_spec(summed_weights(dm, instrument, qubits, total, s), C::tolerance_spec()), draw);
    if C::lt_spec(total, C::tolerance_spec()) {
        &&& r == Err::<usize, Error<C>>(Error::ProbabilityZeroEvent)
        &&& after.current() == Err::<DensityMatrix<C>, Error<C>>(Error::ProbabilityZeroEvent)
    } else if short || picked is None {
        &&& r == Err::<usize, Error<C>>(Error::FailedToSampleInstrumentOutcome)
        &&& after.current() == Err::<DensityMatrix<C>, Error<C>>(Error::FailedToSampleInstrumentOutcome)
    } else {
        let j = picked->Some_0;
        let tau = outcome_weight(dm, instrument, qubits, j);
        let sigma = evolved(dm, instrument.outcomes()[j].super_operator(), qubits);
        &&& r == Ok::<usize, Error<C>>(j as usize)
        &&& after.current() is Ok
        &&& after.current()->Ok_0.size() == dm.size()
        &&& after.current()->Ok_0.qubits() == dm.qubits()
        &&& after.current()->Ok_0.entries() == renormalized(sigma, tau)
        &&& after.current()->Ok_0.trace_factor() == C::mul_spec(dm.trace_factor(), tau)
    }
}

/// A trace change must lie in `[ε, 1 + ε]`.
pub open spec fn out_of_trace_range<C: Amplitude>(trace: C) -> bool {
    C::lt_spec(trace, C::tolerance_spec()) || C::lt_spec(C::tolerance_spec(), C::sub_spec(trace, C::one_spec()))
}

/// What `set_state(new_state)` leaves behind: the new state on success, the
/// simulator as it was on failure.
pub open spec fn set_state_outcome<C: Amplitude>(
    before: DensityMatrixSimulator<C>,
    new_state: DensityMatrix<C>,
    after: DensityMatrixSimulator<C>,
    r: Result<(), Error<C>>,
) -> bool {
    &&& r is Ok ==> after@ == (Ok::<(nat, nat, C, Seq<C>), Error<C>>(new_state@), before@.1)
    &&& r is Ok ==> after.current() == Ok::<DensityMatrix<C>, Error<C>>(new_state)
    &&& r is Err ==> after@ == before@ && after.current() == before.current()
    &&& r is Ok <==> new_state.size() == before.system_dim() && normalized(new_state.entries(), new_state.size())
        && hermitian_within_tolerance(new_state.entries(), new_state.size())
}

/// Setting the state to (a copy of) the one the simulator holds changes
/// nothing, whether the state is accepted or refused; it is accepted when
/// the held state has unit trace and is Hermitian, within the tolerance.
pub proof fn lemma_set_state_round_trip<C: Amplitude>(
    before: DensityMatrixSimulator<C>,
    new_state: DensityMatrix<C>,
    after: DensityMatrixSimulator<C>,
    r: Result<(), Error<C>>,
)
    requires
        before.wf(),
        before.current() matches Ok(current) && new_state@ == current@,
        set_state_outcome(before, new_state, after, r),
    ensures
        after@ == before@,
        before.current() matches Ok(current) && normalized(current.entries(), current.size())
            && hermitian_within_tolerance(current.entries(), current.size()) ==> r is Ok,
{
    let current = before.current()->Ok_0;
    assert(new_state.entries() == current.entries() && new_state.size() == current.size()) by {
        lemma_view_fields(new_state, current);
    }
}

impl<C: Amplitude> DensityMatrixSimulator<C> {
    /// The density matrix, or the latched error.
    pub closed spec fn current(&self) -> Result<DensityMatrix<C>, Error<C>> {
        self.state
    }

    /// The dimension `2ⁿ` of the simulated system.
    pub closed spec fn system_dim(&self) -> nat {
        self.dim as nat
    }

    /// A held density matrix is well formed and of the system's dimension;
    /// a latched error is a numerical failure or a misapplied matrix.
    pub open spec fn wf(&self) -> bool {
        &&& self.current() matches Ok(dm) ==> dm.wf() && dm.size() == self.system_dim()
        &&& self.current() matches Err(e) ==> latchable(e)
    }

    /// Creates a simulator of `number_of_qubits` qubits in the state `|0…0⟩`.
    pub fn new(number_of_qubits: usize) -> (sim: Self)
        requires
            pow2(2 * number_of_qubits as nat) <= usize::MAX,
        ensures
            sim.wf(),
            sim.system_dim() == pow2(number_of_qubits as nat),
            sim.current() matches Ok(dm) && dm.qubits() == number_of_qubits,
            sim.current() matches Ok(dm) && dm.trace_factor() == C::one_spec() && dm.entries()[0] == C::one_spec(),
            sim.current() matches Ok(dm) && forall|i: int| 1 <= i < dm.entries().len()
                ==> #[trigger] dm.entries()[i] == C::zero_spec(),
    {
        let density_matrix = DensityMatrix::new(number_of_qubits);
        let dim = density_matrix.dim();
        DensityMatrixSimulator { state: Ok(density_matrix), dim }
    }

    /// Applies the channel `operation` to the given qubits, then
    /// renormalizes.
    pub fn apply_operation(&mut self, operation: &Operation<C>, qubits: &[usize]) -> (r: Result<(), Error<C>>)
        requires
            old(self).wf(),
            operation.wf(),
        ensures
            final(self).wf(),
            final(self).system_dim() == old(self).system_dim(),
            old(self).current() matches Err(e) ==> r == Err::<(), Error<C>>(e)
                && final(self).current() == old(self).current() && final(self)@ == old(self)@,
            old(self).current() matches Ok(dm) ==> applied_outcome(dm, operation.super_operator(), qubits@,
                operation.arity(), *final(self), r),
    {
        self.apply_super_operator(operation.matrix(), qubits, Ghost(operation.arity()))
    }

    /// Applies `instrument` to the given qubits without observing the
    /// outcome (non-selective evolution), then renormalizes.
    pub fn apply_instrument(&mut self, instrument: &Instrument<C>, qubits: &[usize]) -> (r: Result<(), Error<C>>)
        requires
            old(self).wf(),
            instrument.wf(),
        ensures
            final(self).wf(),
            final(self).system_dim() == old(self).system_dim(),
            old(self).current() matches Err(e) ==> r == Err::<(), Error<C>>(e)
                && final(self).current() == old(self).current() && final(self)@ == old(self)@,
            old(self).current() matches Ok(dm) ==> applied_outcome(dm, instrument.non_selective(), qubits@,
                instrument.arity(), *final(self), r),
    {
        self.apply_super_operator(instrument.non_selective_operation_matrix(), qubits, Ghost(instrument.arity()))
    }

    /// Applies a super-operator of the given arity, then renormalizes.
    fn apply_super_operator(&mut self, matrix: &SquareMatrix<C>, qubits: &[usize], Ghost(arity): Ghost<nat>) -> (r: Result<(), Error<C>>)
        requires
            old(self).wf(),
            matrix.wf(),
            matrix.size() == pow2(2 * arity),
        ensures
            final(self).wf(),
            final(self).system_dim() == old(self).system_dim(),
            old(self).current() matches Err(e) ==> r == Err::<(), Error<C>>(e)
                && final(self).current() == old(self).current() && final(self)@ == old(self)@,
            old(self).current() matches Ok(dm) ==> applied_outcome(dm, *matrix, qubits@, arity, *final(self), r),
    {
        proof {
            if arity != qubits.len() {
                lemma_pow2_injective(2 * arity, 2 * qubits.len() as nat);
            }
        }
        let outcome = match &mut self.state {
            Err(e) => {
                return Err(*e);
            },
            Ok(dm) => {
                match dm.apply_operation_matrix(matrix, qubits) {
                    Err(e) => {
                        return Err(Error::Kernel(e));
                    },
                    Ok(()) => {},
                }
                dm.renormalize()
            },
        };
        match outcome {
            Ok(()) => Ok(()),
            Err(e) => {
                self.state = Err(e);
                Err(e)
            },
        }
    }

    /// Applies `instrument` to the given qubits and observes an outcome,
    /// chosen by the uniform draw `random_sample` in `[0, 1)`: outcomes are
    /// scanned in order, summing their probabilities `Tr(Eⱼ ρ) / Tr(E ρ)`,
    /// until the sum exceeds the draw; the last scanned outcome of
    /// non-negligible probability is selected ([`crate::pick_outcome`]), its
    /// channel applied and the state renormalized by its probability mass.
    /// Returns the outcome's index.
    pub fn sample_instrument_with_distribution(
        &mut self,
        instrument: &Instrument<C>,
        qubits: &[usize],
        random_sample: C,
    ) -> (r: Result<usize, Error<C>>)
        requires
            old(self).wf(),
            instrument.wf(),
        ensures
            final(self).wf(),
            final(self).system_dim() == old(self).system_dim(),
            old(self).current() matches Err(e) ==> r == Err::<usize, Error<C>>(e)
                && final(self).current() == old(self).current() && final(self)@ == old(self)@,
            old(self).current() matches Ok(dm) ==> {
                &&& valid_axes(qubits@, dm.qubits()) && instrument.arity() == qubits.len()
                    ==> sampled_outcome(dm, *instrument, qubits@, random_sample, *final(self), r)
                &&& r is Ok ==> r->Ok_0 < instrument.outcomes().len()
                    && (final(self).current() matches Ok(dm2) && dm2.qubits() == dm.qubits())
                &&& r is Err ==> final(self).current() == Err::<DensityMatrix<C>, Error<C>>(r->Err_0)
                    || (r->Err_0 is Kernel && final(self).current() == old(self).current())
            },
    {
        let tolerance = C::tolerance();
        let current = match &self.state {
            Err(e) => {
                return Err(*e);
            },
            Ok(dm) => dm,
        };
        let n = current.number_of_qubits;
        let ghost q = qubits@;
        let ghost fits = valid_axes(qubits@, n as nat) && instrument.arity() == qubits.len();
        proof {
            lemma_pow2_adds(n as nat, n as nat);
            assert(2 * n == n + n);
            if valid_axes(qubits@, n as nat) {
                assert(valid_axes(qubits@, 2 * n as nat));
            }
        }
        // a vector's length is a `usize`, which bounds the number of axes
        let _entries = current.data.len();
        proof {
            lemma_below_pow2((n + n) as nat);
        }
        let mut tmp_state = current.duplicate();
        match apply_kernel(&mut tmp_state.data, 2 * n, instrument.total_effect_transposed(), qubits) {
            Err(e) => {
                return Err(Error::Kernel(e));
            },
            Ok(()) => {},
        }
        let total_effect_trace = tmp_state.trace();
        let ghost total = total_effect_trace;
        assert(total == weight(*current, instrument.total_effect_t(), q));
        if total_effect_trace.lt(&tolerance) {
            let err = Error::ProbabilityZeroEvent;
            self.state = Err(err);
            return Err(err);
        }
        let mut supported: Vec<bool> = Vec::new();
        let mut traces: Vec<C> = Vec::new();
        let mut summed_probability = C::zero();
        let count = instrument.num_operations();
        let mut outcome: usize = 0;
        while outcome < count
            invariant
                outcome <= count,
                *self == *old(self),
                self.wf(),
                self.state == Ok::<DensityMatrix<C>, Error<C>>(*current),
                count == instrument.outcomes().len(),
                instrument.wf(),
                current.wf(),
                n == current.qubits(),
                current.entries().len() == pow2(2 * n as nat),
                2 * n == n + n,
                2 * n <= usize::MAX,
                q == qubits@,
                tolerance == C::tolerance_spec(),
                total == total_effect_trace,
                fits ==> valid_axes(qubits@, 2 * n as nat) && instrument.arity() == qubits.len(),
                supported.len() == outcome,
                traces.len() == outcome,
                summed_probability == summed_weights(*current, *instrument, q, total, outcome as nat),
                supported@ == supported_outcomes(*current, *instrument, q, outcome as nat),
                forall|t: int| 0 <= t < outcome ==> #[trigger] traces@[t] == outcome_weight(*current, *instrument, q, t),
                forall|j: nat| j < outcome ==> !C::lt_spec(random_sample, #[trigger] summed_weights(*current, *instrument, q, total, j)),
            ensures
                outcome <= count,
                supported.len() == outcome,
                traces.len() == outcome,
                summed_probability == summed_weights(*current, *instrument, q, total, outcome as nat),
                supported@ == supported_outcomes(*current, *instrument, q, outcome as nat),
                forall|t: int| 0 <= t < outcome ==> #[trigger] traces@[t] == outcome_weight(*current, *instrument, q, t),
                forall|j: nat| j < outcome ==> !C::lt_spec(random_sample, #[trigger] summed_weights(*current, *instrument, q, total, j)),
                outcome < count ==> C::lt_spec(random_sample, summed_weights(*current, *instrument, q, total, outcome as nat)),
                *self == *old(self),
                self.state == Ok::<DensityMatrix<C>, Error<C>>(*current),
            decreases count - outcome,
        {
            if random_sample.lt(&summed_probability) {
                break;
            }
            let mut tmp_state = current.duplicate();
            let op = instrument.operation(outcome);
            assert(instrument.outcomes()[outcome as int].wf());
            match apply_kernel(&mut tmp_state.data, 2 * n, op.effect_matrix_transpose(), qubits) {
                Err(e) => {
                    proof {
                        assert(!fits) by {
                            if fits {
                                assert(instrument.outcomes()[outcome as int].arity() == instrument.arity());
                            }
                        }
                    }
                    return Err(Error::Kernel(e));
                },
                Ok(()) => {},
            }
            let outcome_trace = tmp_state.trace();
            summed_probability = summed_probability.plus(&outcome_trace.divided_by(&total_effect_trace));
            supported.push(!outcome_trace.lt(&tolerance));
            traces.push(outcome_trace);
            proof {
                assert(supported@ =~= supported_outcomes(*current, *instrument, q, (outcome + 1) as nat));
            }
            outcome = outcome + 1;
        }
        proof {
            lemma_scanned(*current, *instrument, q, total, random_sample, 0, outcome as nat);
        }
        let picked = pick_outcome(&supported);
        if summed_probability.plus(&tolerance).le(&random_sample) || picked.is_none() {
            let err = Error::FailedToSampleInstrumentOutcome;
            self.state = Err(err);
            return Err(err);
        }
        let last_non_zero_trace_outcome = match picked {
            Some(j) => j,
            None => 0,
        };
        let last_non_zero_trace = traces[last_non_zero_trace_outcome];
        let op = instrument.operation(last_non_zero_trace_outcome);
        proof {
            assert(instrument.outcomes()[last_non_zero_trace_outcome as int].wf());
            assert(supported@[last_non_zero_trace_outcome as int]);
            assert(last_non_zero_trace == outcome_weight(*current, *instrument, q, last_non_zero_trace_outcome as int));
            assert(*op == instrument.outcomes()[last_non_zero_trace_outcome as int]);
            if fits {
                assert(instrument.outcomes()[last_non_zero_trace_outcome as int].arity() == instrument.arity());
            }
        }
        let applied = match &mut self.state {
            Err(e) => {
                return Err(*e);
            },
            Ok(dm) => {
                match dm.apply_operation_matrix(op.matrix(), qubits) {
                    Err(e) => Err(Error::Kernel(e)),
                    Ok(()) => {
                        assert(dm.entries() == evolved(*current, op.super_operator(), q));
                        assert(dm.trace_factor() == current.trace_factor());
                        dm.renormalize_with_trace(last_non_zero_trace)
                    },
                }
            },
        };
        proof {
            let s0 = scanned(*current, *instrument, q, total, random_sample, 0);
            assert(s0 == outcome);
            assert(last_supported(supported_outcomes(*current, *instrument, q, s0)) == Some(last_non_zero_trace_outcome as int));
        }
        match applied {
            Ok(()) => Ok(last_non_zero_trace_outcome),
            Err(e) => {
                self.state = Err(e);
                Err(e)
            },
        }
    }

    /// The density matrix, or the latched error.
    pub fn state(&self) -> (r: Result<&DensityMatrix<C>, &Error<C>>)
        ensures
            self.current() matches Ok(dm) ==> (r matches Ok(d) && *d == dm),
            self.current() matches Err(e) ==> (r matches Err(x) && *x == e),
    {
        match &self.state {
            Ok(dm) => Ok(dm),
            Err(e) => Err(e),
        }
    }

    /// A copy of the density matrix, or the latched error.
    pub fn get_state(&self) -> (r: Result<DensityMatrix<C>, Error<C>>)
        ensures
            self.current() matches Ok(dm) ==> (r matches Ok(copy) && copy@ == dm@ && copy.wf() == dm.wf()),
            self.current() matches Err(e) ==> r == Err::<DensityMatrix<C>, Error<C>>(e),
    {
        match &self.state {
            Ok(dm) => Ok(dm.duplicate()),
            Err(e) => Err(*e),
        }
    }

    /// Replaces the state, clearing a latched error. The replacement must
    /// have the system's dimension, unit trace within the tolerance, and be
    /// Hermitian within the tolerance; otherwise the simulator is left as it
    /// was.
    pub fn set_state(&mut self, new_state: DensityMatrix<C>) -> (r: Result<(), Error<C>>)
        requires
            old(self).wf(),
            new_state.wf(),
        ensures
            final(self).wf(),
            final(self).system_dim() == old(self).system_dim(),
            set_state_outcome(*old(self), new_state, *final(self), r),
            r is Ok ==> final(self).current() == Ok::<DensityMatrix<C>, Error<C>>(new_state),
            new_state.size() != old(self).system_dim() ==> r == Err::<(), Error<C>>(
                Error::InvalidState(StateDefect::DimensionMismatch {
                    expected: old(self).system_dim() as usize,
                    actual: new_state.size() as usize,
                }),
            ),
            r is Err ==> r->Err_0 is InvalidState,
            new_state.size() == old(self).system_dim() && !normalized(new_state.entries(), new_state.size())
                ==> r == Err::<(), Error<C>>(Error::InvalidState(StateDefect::NotNormalized(new_state.trace_value()))),
            new_state.size() == old(self).system_dim() && normalized(new_state.entries(), new_state.size())
                && !hermitian_within_tolerance(new_state.entries(), new_state.size())
                ==> r == Err::<(), Error<C>>(Error::InvalidState(StateDefect::NotHermitian)),
            r is Ok <==> new_state.size() == old(self).system_dim() && normalized(new_state.entries(), new_state.size())
                && hermitian_within_tolerance(new_state.entries(), new_state.size()),
    {
        if self.dim != new_state.dim() {
            return Err(Error::InvalidState(StateDefect::DimensionMismatch { expected: self.dim, actual: new_state.dim() }));
        }
        if !new_state.is_normalized() {
            return Err(Error::InvalidState(StateDefect::NotNormalized(new_state.trace())));
        }
        if !new_state.is_hermitian() {
            return Err(Error::InvalidState(StateDefect::NotHermitian));
        }
        self.state = Ok(new_state);
        Ok(())
    }

    /// The product of the traces removed by renormalization so far, or the
    /// latched error.
    pub fn trace_change(&self) -> (r: Result<C, Error<C>>)
        ensures
            self.current() matches Ok(dm) ==> r == Ok::<C, Error<C>>(dm.trace_factor()),
            self.current() matches Err(e) ==> r == Err::<C, Error<C>>(e),
    {
        match &self.state {
            Ok(dm) => Ok(dm.trace_change()),
            Err(e) => Err(*e),
        }
    }

    /// Sets the trace change to `trace`, which must lie in `[ε, 1 + ε]`.
    pub fn set_trace(&mut self, trace: C) -> (r: Result<(), Error<C>>)
        requires
            old(self).wf(),
        ensures
            final(self).wf(),
            final(self).system_dim() == old(self).system_dim(),
            r is Err ==> final(self)@ == old(self)@ && final(self).current() == old(self).current(),
            r == Err::<(), Error<C>>(Error::NotNormalized(trace)) <==> out_of_trace_range(trace),
            !out_of_trace_range(trace) && old(self).current() is Err ==> r == Err::<(), Error<C>>(old(self).current()->Err_0),
            !out_of_trace_range(trace) && old(self).current() is Ok ==> r is Ok,
            r is Ok ==> old(self).current() is Ok && (final(self).current() matches Ok(dm2) && {
                let dm = old(self).current()->Ok_0;
                &&& dm2.trace_factor() == trace
                &&& dm2.entries() == dm.entries()
                &&& dm2.size() == dm.size()
                &&& dm2.qubits() == dm.qubits()
            }),
    {
        let tolerance = C::tolerance();
        if trace.lt(&tolerance) || tolerance.lt(&trace.minus(&C::one())) {
            return Err(Error::NotNormalized(trace));
        }
        match &mut self.state {
            Err(e) => Err(*e),
            Ok(dm) => {
                dm.trace_change = trace;
                Ok(())
            },
        }
    }
}

} // verus!
