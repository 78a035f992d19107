//! The state-vector simulator and its state.
use vstd::prelude::*;
use vstd::arithmetic::power2::{pow2, lemma_pow2_pos};
use crate::amplitude::Amplitude;
use crate::density_matrix::{latchable, out_of_trace_range};
use crate::error::{Error, StateDefect};
use crate::kernel::{apply_kernel, kernel_output, lemma_pow2_injective, power_of_two, valid_axes, KernelError};
use crate::matrix::SquareMatrix;
use crate::operation::{log2_exact, Instrument, Operation};
use crate::sampling::{last_supported, lemma_last_supported, pick_outcome};

verus! {

/// A state vector `ψ` over `number_of_qubits` qubits, with
/// `dim = 2^number_of_qubits` amplitudes; qubit `0` is the most significant
/// bit of an amplitude's index.
#[derive(Clone, Debug)]
pub struct StateVector<C> {
    dim: usize,
    number_of_qubits: usize,
    trace_change: C,
    data: Vec<C>,
}

impl<C: Amplitude> View for StateVector<C> {
    /// The dimension, the number of qubits, the trace change and the amplitudes.
    type V = (nat, nat, C, Seq<C>);

    closed spec fn view(&self) -> (nat, nat, C, Seq<C>) {
        (self.dim as nat, self.number_of_qubits as nat, self.trace_change, self.data@)
    }
}

impl<C: Amplitude> StateVector<C> {
    /// The number of amplitudes.
    pub closed spec fn size(&self) -> nat {
        self.dim as nat
    }

    /// The number of qubits of the system.
    pub closed spec fn qubits(&self) -> nat {
        self.number_of_qubits as nat
    }

    /// The accumulated probability removed by renormalization.
    pub closed spec fn trace_factor(&self) -> C {
        self.trace_change
    }

    /// The amplitudes.
    pub closed spec fn entries(&self) -> Seq<C> {
        self.data@
    }

    /// `dim = 2^number_of_qubits` and `dim` amplitudes are stored.
    pub open spec fn wf(&self) -> bool {
        &&& self.size() == pow2(self.qubits())
        &&& self.entries().len() == self.size()
    }

    /// The state `|0…0⟩` over `number_of_qubits` qubits.
    pub fn new(number_of_qubits: usize) -> (sv: Self)
        requires
            pow2(number_of_qubits as nat) <= usize::MAX,
        ensures
            sv.wf(),
            sv.qubits() == number_of_qubits,
            sv.trace_factor() == C::one_spec(),
            sv.entries()[0] == C::one_spec(),
            forall|i: int| 1 <= i < sv.entries().len() ==> #[trigger] sv.entries()[i] == C::zero_spec(),
    {
        proof {
            lemma_pow2_pos(number_of_qubits as nat);
        }
        let dim = power_of_two(number_of_qubits);
        let zero = C::zero();
        let one = C::one();
        let mut data: Vec<C> = Vec::new();
        data.push(one);
        let mut i: usize = 1;
        while i < dim
            invariant
                1 <= i <= dim,
                data.len() == i,
                data@[0] == one,
                forall|t: int| 1 <= t < i ==> data@[t] == zero,
            decreases dim - i,
        {
            data.push(zero);
            i = i + 1;
        }
        StateVector { dim, number_of_qubits, trace_change: one, data }
    }

    /// Builds a state vector from its raw fields. Returns `None` unless
    /// `dim = 2^number_of_qubits` and `data` holds `dim` amplitudes.
    pub fn try_from(dim: usize, number_of_qubits: usize, trace_change: C, data: Vec<C>) -> (r: Option<Self>)
        ensures
            r is Some <==> pow2(number_of_qubits as nat) == dim && data.len() == dim,
            r matches Some(sv) ==> {
                &&& sv.wf()
                &&& sv.size() == dim
                &&& sv.qubits() == number_of_qubits
                &&& sv.trace_factor() == trace_change
                &&& sv.entries() == data@
            },
    {
        match log2_exact(dim) {
            Some(n) => {
                if n != number_of_qubits {
                    proof {
                        lemma_pow2_injective(n as nat, number_of_qubits as nat);
                    }
                    return None;
                }
            },
            None => {
                return None;
            },
        }
        if data.len() != dim {
            return None;
        }
        Some(StateVector { dim, number_of_qubits, trace_change, data })
    }

    /// The amplitudes.
    pub fn data(&self) -> (d: &Vec<C>)
        ensures
            d@ == self.entries(),
    {
        &self.data
    }

    /// The number of amplitudes.
    pub fn dim(&self) -> (d: usize)
        ensures
            d == self.size(),
    {
        self.dim
    }

    /// The number of qubits of the system.
    pub fn number_of_qubits(&self) -> (n: usize)
        ensures
            n == self.qubits(),
    {
        self.number_of_qubits
    }

    /// The product of the probabilities removed by renormalization so far.
    pub fn trace_change(&self) -> (t: C)
        ensures
            t == self.trace_factor(),
    {
        self.trace_change
    }

    /// A copy of the state.
    pub fn duplicate(&self) -> (sv: Self)
        ensures
            sv@ == self@,
            sv.size() == self.size(),
            sv.qubits() == self.qubits(),
            sv.trace_factor() == self.trace_factor(),
            sv.entries() == self.entries(),
    {
        let n = self.data.len();
        let mut data: Vec<C> = Vec::new();
        let mut i: usize = 0;
        while i < n
            invariant
                n == self.data.len(),
                i <= n,
                data@ == self.data@.take(i as int),
            decreases n - i,
        {
            data.push(self.data[i]);
            proof {
                assert(self.data@.take(i + 1) == self.data@.take(i as int).push(self.data@[i as int]));
            }
            i = i + 1;
        }
        proof {
            assert(self.data@.take(n as int) == self.data@);
        }
        StateVector { dim: self.dim, number_of_qubits: self.number_of_qubits, trace_change: self.trace_change, data }
    }

    /// `‖ψ‖² = Σ |ψᵢ|²`, as a real value.
    pub fn norm_squared(&self) -> (r: C)
        ensures
            r == norm_sum(self.entries(), self.entries().len()),
    {
        let n = self.data.len();
        let mut sum = C::zero();
        let mut i: usize = 0;
        while i < n
            invariant
                n == self.data.len(),
                i <= n,
                sum == norm_sum(self.entries(), i as nat),
            decreases n - i,
        {
            sum = sum.plus(&self.data[i].norm_sqr());
            i = i + 1;
        }
        sum
    }

    /// Whether `‖ψ‖² = 1` within the tolerance.
    pub fn is_normalized(&self) -> (r: bool)
        ensures
            r == unit_norm(self.entries()),
    {
        self.norm_squared().minus(&C::one()).abs_re().le(&C::tolerance())
    }

    /// Scales `ψ` by `1 / √norm_squared` and multiplies the trace change by
    /// `norm_squared`. Fails, leaving the state as it was, when
    /// `norm_squared` is under the tolerance.
    pub fn renormalize_with_norm_squared(&mut self, norm_squared: C) -> (r: Result<(), Error<C>>)
        requires
            old(self).wf(),
        ensures
            final(self).wf(),
            final(self).size() == old(self).size(),
            final(self).qubits() == old(self).qubits(),
            r is Err <==> C::lt_spec(norm_squared, C::tolerance_spec()),
            r is Err ==> r == Err::<(), Error<C>>(Error::ProbabilityZeroEvent) && *final(self) == *old(self),
            r is Ok ==> final(self).entries() == rescaled(old(self).entries(), norm_squared)
                && final(self).trace_factor() == C::mul_spec(old(self).trace_factor(), norm_squared),
    {
        if norm_squared.lt(&C::tolerance()) {
            return Err(Error::ProbabilityZeroEvent);
        }
        self.trace_change = self.trace_change.times(&norm_squared);
        let factor = C::one().divided_by(&norm_squared.sqrt());
        let n = self.data.len();
        let ghost before = self.data@;
        let mut i: usize = 0;
        while i < n
            invariant
                n == self.data.len(),
                before.len() == n,
                before == old(self).entries(),
                i <= n,
                self.wf(),
                self.size() == old(self).size(),
                self.qubits() == old(self).qubits(),
                self.trace_factor() == C::mul_spec(old(self).trace_factor(), norm_squared),
                factor == C::div_spec(C::one_spec(), C::sqrt_spec(norm_squared)),
                forall|t: int| 0 <= t < i ==> #[trigger] self.data@[t] == C::scale_spec(before[t], factor),
                forall|t: int| i <= t < n ==> #[trigger] self.data@[t] == before[t],
            decreases n - i,
        {
            let scaled = self.data[i].scaled(&factor);
            self.data.set(i, scaled);
            i = i + 1;
        }
        proof {
            assert(self.entries() =~= rescaled(old(self).entries(), norm_squared));
        }
        Ok(())
    }

    /// Renormalizes so that `‖ψ‖² = 1`.
    pub fn renormalize(&mut self) -> (r: Result<(), Error<C>>)
        requires
            old(self).wf(),
        ensures
            final(self).wf(),
            final(self).size() == old(self).size(),
            final(self).qubits() == old(self).qubits(),
            r is Err <==> C::lt_spec(norm_sum(old(self).entries(), old(self).entries().len()), C::tolerance_spec()),
            r is Err ==> r == Err::<(), Error<C>>(Error::ProbabilityZeroEvent) && *final(self) == *old(self),
            r is Ok ==> final(self).entries() == rescaled(old(self).entries(), norm_sum(old(self).entries(), old(self).entries().len()))
                && final(self).trace_factor() == C::mul_spec(old(self).trace_factor(),
                    norm_sum(old(self).entries(), old(self).entries().len())),
    {
        let norm_squared = self.norm_squared();
        self.renormalize_with_norm_squared(norm_squared)
    }

    /// Applies `matrix` to the given qubits. Fails, leaving the state as it
    /// was, unless the qubits are distinct, each below the number of qubits,
    /// and the matrix has dimension `2^|qubits|`.
    pub fn apply_matrix(&mut self, matrix: &SquareMatrix<C>, qubits: &[usize]) -> (r: Result<(), KernelError>)
        requires
            old(self).wf(),
            matrix.wf(),
        ensures
            final(self).wf(),
            final(self).size() == old(self).size(),
            final(self).qubits() == old(self).qubits(),
            r is Ok <==> valid_axes(qubits@, old(self).qubits()) && matrix.size() == pow2(qubits.len() as nat),
            r is Err ==> *final(self) == *old(self),
            r is Ok ==> final(self).entries() == kernel_output(old(self).entries(), old(self).qubits(), *matrix, qubits@)
                && final(self).trace_factor() == old(self).trace_factor(),
    {
        let n = self.number_of_qubits;
        apply_kernel(&mut self.data, n, matrix, qubits)
    }
}

/// `Σ_{i < m} |ψᵢ|²`, summed in order.
pub open spec fn norm_sum<C: Amplitude>(entries: Seq<C>, m: nat) -> C
    decreases m,
{
    if m == 0 {
        C::zero_spec()
    } else {
        C::add_spec(norm_sum(entries, (m - 1) as nat), C::norm_sqr_spec(entries[m - 1]))
    }
}

/// `|‖ψ‖² − 1| ≤ ε`.
pub open spec fn unit_norm<C: Amplitude>(entries: Seq<C>) -> bool {
    C::le_spec(C::abs_re_spec(C::sub_spec(norm_sum(entries, entries.len()), C::one_spec())), C::tolerance_spec())
}

/// Every amplitude scaled by `1 / √norm_squared`.
pub open spec fn rescaled<C: Amplitude>(entries: Seq<C>, norm_squared: C) -> Seq<C> {
    entries.map_values(|e: C| C::scale_spec(e, C::div_spec(C::one_spec(), C::sqrt_spec(norm_squared))))
}

/// `Σ_{i < j} p[i] / total`, summed in order.
pub open spec fn branch_sum<C: Amplitude>(p: Seq<C>, total: C, j: nat) -> C
    decreases j,
{
    if j == 0 {
        C::zero_spec()
    } else {
        C::add_spec(branch_sum(p, total, (j - 1) as nat), C::div_spec(p[j - 1], total))
    }
}

/// The number of branches the scan reads from `start` on: it stops at the
/// first whose preceding sum exceeds the draw, or after the last.
pub open spec fn branch_scan<C: Amplitude>(p: Seq<C>, total: C, draw: C, start: nat) -> nat
    decreases p.len() - start,
{
    if start >= p.len() {
        p.len()
    } else if C::lt_spec(draw, branch_sum(p, total, start)) {
        start
    } else {
        branch_scan(p, total, draw, start + 1)
    }
}

/// The branch that the draw selects, if any.
pub open spec fn branch_choice<C: Amplitude>(p: Seq<C>, total: C, draw: C) -> Option<int> {
    let s = branch_scan(p, total, draw, 0);
    if C::le_spec(C::add_spec(branch_sum(p, total, s), C::tolerance_spec()), draw) {
        None
    } else {
        last_supported(Seq::new(s, |j: int| !C::lt_spec(p[j], C::tolerance_spec())))
    }
}

/// The scan reads branches `0 .. o` when none before `o` exceeded the draw
/// and `o` is the last or does.
proof fn lemma_branch_scan<C: Amplitude>(p: Seq<C>, total: C, draw: C, start: nat, o: nat)
    requires
        start <= o <= p.len(),
        forall|j: nat| start <= j < o ==> !C::lt_spec(draw, #[trigger] branch_sum(p, total, j)),
        o < p.len() ==> C::lt_spec(draw, branch_sum(p, total, o)),
    ensures
        branch_scan(p, total, draw, start) == o,
    decreases o - start,
{
    if start < o {
        lemma_branch_scan(p, total, draw, start + 1, o);
    }
}

/// The rule that picks a branch from a random draw `random_sample` in
/// `[0, 1)`: branches are scanned in order, adding `p / total` for each, until
/// the sum exceeds the draw; the last scanned branch whose probability is not
/// under the tolerance is picked ([`crate::pick_outcome`]). Returns `None`
/// when no such branch was scanned, or when the sum stayed a tolerance short
/// of the draw.
pub fn select_branch<C: Amplitude>(probabilities: &Vec<C>, total: C, random_sample: C) -> (r: Option<usize>)
    ensures
        match branch_choice(probabilities@, total, random_sample) {
            None => r is None,
            Some(j) => r == Some(j as usize),
        },
        r matches Some(j) ==> j < probabilities.len(),
{
    let tolerance = C::tolerance();
    let mut supported: Vec<bool> = Vec::new();
    let mut summed_probability = C::zero();
    let count = probabilities.len();
    let ghost p = probabilities@;
    let mut branch: usize = 0;
    while branch < count
        invariant
            branch <= count,
            count == probabilities.len(),
            p == probabilities@,
            tolerance == C::tolerance_spec(),
            supported.len() == branch,
            supported@ == Seq::new(branch as nat, |j: int| !C::lt_spec(p[j], C::tolerance_spec())),
            summed_probability == branch_sum(p, total, branch as nat),
            forall|j: nat| j < branch ==> !C::lt_spec(random_sample, #[trigger] branch_sum(p, total, j)),
        ensures
            branch <= count,
            supported@ == Seq::new(branch as nat, |j: int| !C::lt_spec(p[j], C::tolerance_spec())),
            summed_probability == branch_sum(p, total, branch as nat),
            forall|j: nat| j < branch ==> !C::lt_spec(random_sample, #[trigger] branch_sum(p, total, j)),
            branch < count ==> C::lt_spec(random_sample, branch_sum(p, total, branch as nat)),
        decreases count - branch,
    {
        if random_sample.lt(&summed_probability) {
            break;
        }
        let q = probabilities[branch];
        summed_probability = summed_probability.plus(&q.divided_by(&total));
        supported.push(!q.lt(&tolerance));
        proof {
            assert(supported@ =~= Seq::new((branch + 1) as nat, |j: int| !C::lt_spec(p[j], C::tolerance_spec())));
        }
        branch = branch + 1;
    }
    proof {
        lemma_branch_scan(p, total, random_sample, 0, branch as nat);
    }
    let picked = pick_outcome(&supported);
    if summed_probability.plus(&tolerance).le(&random_sample) {
        None
    } else {
        picked
    }
}

/// The probability `‖K ψ‖²` of the branch of Kraus operator `K`.
pub open spec fn branch_probability<C: Amplitude>(sv: StateVector<C>, k: SquareMatrix<C>, qubits: Seq<usize>) -> C {
    let out = kernel_output(sv.entries(), sv.qubits(), k, qubits);
    norm_sum(out, out.len())
}

/// The branches `(outcome, Kraus index)` of the first `m` channels, in order.
pub open spec fn branches<C: Amplitude>(ops: Seq<Operation<C>>, m: nat) -> Seq<(int, int)>
    decreases m,
{
    if m == 0 {
        Seq::empty()
    } else {
        branches(ops, (m - 1) as nat) + Seq::new(ops[m - 1].kraus().len(), |i: int| ((m - 1) as int, i))
    }
}

/// The probability of each branch of the first `m` channels.
pub open spec fn branch_probabilities<C: Amplitude>(
    sv: StateVector<C>,
    ops: Seq<Operation<C>>,
    qubits: Seq<usize>,
    m: nat,
) -> Seq<C> {
    branches(ops, m).map_values(|b: (int, int)| branch_probability(sv, ops[b.0].kraus()[b.1], qubits))
}

/// `Σ_{i < m} p[i]`, summed in order.
pub open spec fn seq_sum<C: Amplitude>(p: Seq<C>, m: nat) -> C
    decreases m,
{
    if m == 0 {
        C::zero_spec()
    } else {
        C::add_spec(seq_sum(p, (m - 1) as nat), p[m - 1])
    }
}

/// The pairs `(owners[t], indices[t])`.
pub open spec fn pairs(owners: Seq<usize>, indices: Seq<usize>) -> Seq<(int, int)> {
    Seq::new(owners.len(), |t: int| (owners[t] as int, indices[t] as int))
}

/// What following one trajectory through the channels `ops` (one per
/// outcome) with the draw `draw` leaves behind on a simulator that held `sv`:
/// `ProbabilityZeroEvent` when the branches' total probability is under the
/// tolerance; `FailedToSampleInstrumentOutcome` when the draw selects no
/// branch; otherwise the outcome of the selected branch, with its Kraus
/// operator applied and the state renormalized by the branch's probability.
pub open spec fn trajectory_outcome<C: Amplitude>(
    sv: StateVector<C>,
    ops: Seq<Operation<C>>,
    qubits: Seq<usize>,
    draw: C,
    after: StateVectorSimulator<C>,
    r: Result<usize, Error<C>>,
) -> bool {
    let bs = branches(ops, ops.len());
    let p = branch_probabilities(sv, ops, qubits, ops.len());
    let total = seq_sum(p, p.len());
    if C::lt_spec(total, C::tolerance_spec()) {
        &&& r == Err::<usize, Error<C>>(Error::ProbabilityZeroEvent)
        &&& after.current() == Err::<StateVector<C>, Error<C>>(Error::ProbabilityZeroEvent)
    } else if branch_choice(p, total, draw) is None {
        &&& r == Err::<usize, Error<C>>(Error::FailedToSampleInstrumentOutcome)
        &&& after.current() == Err::<StateVector<C>, Error<C>>(Error::FailedToSampleInstrumentOutcome)
    } else {
        let b = branch_choice(p, total, draw)->Some_0;
        let out = kernel_output(sv.entries(), sv.qubits(), ops[bs[b].0].kraus()[bs[b].1], qubits);
        &&& r == Ok::<usize, Error<C>>(bs[b].0 as usize)
        &&& after.current() is Ok
        &&& after.current()->Ok_0.size() == sv.size()
        &&& after.current()->Ok_0.qubits() == sv.qubits()
        &&& after.current()->Ok_0.entries() == rescaled(out, p[b])
        &&& after.current()->Ok_0.trace_factor() == C::mul_spec(sv.trace_factor(), p[b])
    }
}

/// A result that does not report the outcome, read as one that reports
/// `outcome`.
pub open spec fn with_outcome<C>(r: Result<(), Error<C>>, outcome: usize) -> Result<usize, Error<C>> {
    match r {
        Ok(_) => Ok(outcome),
        Err(e) => Err(e),
    }
}

/// Taking in one more channel appends its branches and their probabilities.
proof fn lemma_branches_step<C: Amplitude>(sv: StateVector<C>, ops: Seq<Operation<C>>, qubits: Seq<usize>, j: nat)
    requires
        j < ops.len(),
    ensures
        branches(ops, j + 1) == branches(ops, j) + Seq::new(ops[j as int].kraus().len(), |i: int| (j as int, i)),
        branch_probabilities(sv, ops, qubits, j + 1) == branch_probabilities(sv, ops, qubits, j)
            + Seq::new(ops[j as int].kraus().len(), |i: int| branch_probability(sv, ops[j as int].kraus()[i], qubits)),
{
    let b = branches(ops, j + 1);
    assert(b == branches(ops, j) + Seq::new(ops[j as int].kraus().len(), |i: int| (j as int, i)));
    assert(branch_probabilities(sv, ops, qubits, j + 1) =~= branch_probabilities(sv, ops, qubits, j)
        + Seq::new(ops[j as int].kraus().len(), |i: int| branch_probability(sv, ops[j as int].kraus()[i], qubits)));
}

/// Each branch names a channel and one of its Kraus operators.
proof fn lemma_branch_in_range<C: Amplitude>(ops: Seq<Operation<C>>, m: nat, b: int)
    requires
        m <= ops.len(),
        0 <= b < branches(ops, m).len(),
    ensures
        0 <= branches(ops, m)[b].0 < m,
        0 <= branches(ops, m)[b].1 < ops[branches(ops, m)[b].0].kraus().len(),
    decreases m,
{
    if m > 0 {
        let prev = branches(ops, (m - 1) as nat);
        if b < prev.len() {
            lemma_branch_in_range(ops, (m - 1) as nat, b);
            assert(branches(ops, m)[b] == prev[b]);
        }
    }
}

/// The scan reads at most all branches.
proof fn lemma_branch_scan_bound<C: Amplitude>(p: Seq<C>, total: C, draw: C, start: nat)
    ensures
        branch_scan(p, total, draw, start) <= p.len(),
    decreases p.len() - start,
{
    if start < p.len() {
        lemma_branch_scan_bound(p, total, draw, start + 1);
    }
}

/// Appends, for each Kraus operator `Kᵢ` of one outcome, the probability
/// `‖Kᵢ ψ‖²` of its branch, the outcome `owner` and the operator's index.
fn collect_branches<C: Amplitude>(
    state: &StateVector<C>,
    kraus: &Vec<SquareMatrix<C>>,
    qubits: &[usize],
    owner: usize,
    probabilities: &mut Vec<C>,
    owners: &mut Vec<usize>,
    indices: &mut Vec<usize>,
) -> (r: Result<(), KernelError>)
    requires
        state.wf(),
        forall|i: int| 0 <= i < kraus.len() ==> (#[trigger] kraus[i]).wf(),
        old(indices).len() == old(owners).len(),
    ensures
        final(indices).len() == final(owners).len(),
        valid_axes(qubits@, state.qubits())
            && (forall|i: int| 0 <= i < kraus.len() ==> #[trigger] kraus[i].size() == pow2(qubits.len() as nat))
            ==> r is Ok,
        r is Ok && kraus.len() > 0 ==> valid_axes(qubits@, state.qubits()) && kraus[0].size() == pow2(qubits.len() as nat),
        r is Ok ==> final(probabilities)@ == old(probabilities)@
            + Seq::new(kraus.len() as nat, |i: int| branch_probability(*state, kraus@[i], qubits@)),
        r is Ok ==> pairs(final(owners)@, final(indices)@) == pairs(old(owners)@, old(indices)@)
            + Seq::new(kraus.len() as nat, |i: int| (owner as int, i)),
{
    let count = kraus.len();
    let mut i: usize = 0;
    while i < count
        invariant
            i <= count,
            count == kraus.len(),
            state.wf(),
            forall|t: int| 0 <= t < kraus.len() ==> (#[trigger] kraus[t]).wf(),
            indices.len() == owners.len(),
            probabilities@ == old(probabilities)@
                + Seq::new(i as nat, |t: int| branch_probability(*state, kraus@[t], qubits@)),
            pairs(owners@, indices@) == pairs(old(owners)@, old(indices)@) + Seq::new(i as nat, |t: int| (owner as int, t)),
            i > 0 ==> valid_axes(qubits@, state.qubits()) && kraus[0].size() == pow2(qubits.len() as nat),
        decreases count - i,
    {
        let mut branch_state = state.duplicate();
        match branch_state.apply_matrix(&kraus[i], qubits) {
            Err(e) => {
                return Err(e);
            },
            Ok(()) => {},
        }
        let p = branch_state.norm_squared();
        proof {
            assert(branch_state.entries().len() == state.entries().len());
            assert(p == branch_probability(*state, kraus@[i as int], qubits@));
        }
        let ghost before_pairs = pairs(owners@, indices@);
        probabilities.push(p);
        owners.push(owner);
        indices.push(i);
        proof {
            assert(probabilities@ =~= old(probabilities)@
                + Seq::new((i + 1) as nat, |t: int| branch_probability(*state, kraus@[t], qubits@)));
            assert(pairs(owners@, indices@) =~= before_pairs.push((owner as int, i as int)));
            assert(pairs(owners@, indices@) =~= pairs(old(owners)@, old(indices)@)
                + Seq::new((i + 1) as nat, |t: int| (owner as int, t)));
        }
        i = i + 1;
    }
    Ok(())
}

/// A quantum circuit simulator on a state vector, following one trajectory:
/// a channel with several Kraus operators applies one of them, picked at
/// random with the probability of its branch.
///
/// Numerical failures latch as in [`crate::DensityMatrixSimulator`].
pub struct StateVectorSimulator<C> {
    state: Result<StateVector<C>, Error<C>>,
    dim: usize,
}

impl<C: Amplitude> View for StateVectorSimulator<C> {
    /// The state (or the latched error) and the dimension of the system.
    type V = (Result<(nat, nat, C, Seq<C>), Error<C>>, nat);

    closed spec fn view(&self) -> (Result<(nat, nat, C, Seq<C>), Error<C>>, nat) {
        (
            match self.state {
                Ok(sv) => Ok(sv@),
                Err(e) => Err(e),
            },
            self.dim as nat,
        )
    }
}

/// What `set_state(new_state)` leaves behind: the new state on success, the
/// simulator as it was on failure.
pub open spec fn sv_set_state_outcome<C: Amplitude>(
    before: StateVectorSimulator<C>,
    new_state: StateVector<C>,
    after: StateVectorSimulator<C>,
    r: Result<(), Error<C>>,
) -> bool {
    &&& r is Ok ==> after@ == (Ok::<(nat, nat, C, Seq<C>), Error<C>>(new_state@), before@.1)
    &&& r is Ok ==> after.current() == Ok::<StateVector<C>, Error<C>>(new_state)
    &&& r is Err ==> after@ == before@ && after.current() == before.current()
    &&& r is Ok <==> new_state.size() == before.system_dim() && unit_norm(new_state.entries())
}

/// Setting the state to (a copy of) the one the simulator holds changes
/// nothing, whether the state is accepted or refused; it is accepted when
/// the held state has unit norm within the tolerance.
pub proof fn lemma_sv_set_state_round_trip<C: Amplitude>(
    before: StateVectorSimulator<C>,
    new_state: StateVector<C>,
    after: StateVectorSimulator<C>,
    r: Result<(), Error<C>>,
)
    requires
        before.wf(),
        before.current() matches Ok(current) && new_state@ == current@,
        sv_set_state_outcome(before, new_state, after, r),
    ensures
        after@ == before@,
        before.current() matches Ok(current) && unit_norm(current.entries()) ==> r is Ok,
{
    let current = before.current()->Ok_0;
    assert(new_state.entries() == current.entries() && new_state.size() == current.size()) by {
        lemma_sv_view_fields(new_state, current);
    }
}

/// State vectors with equal views have equal amplitudes and size.
pub proof fn lemma_sv_view_fields<C: Amplitude>(a: StateVector<C>, b: StateVector<C>)
    requires
        a@ == b@,
    ensures
        a.entries() == b.entries(),
        a.size() == b.size(),
        a.qubits() == b.qubits(),
        a.trace_factor() == b.trace_factor(),
{
}

impl<C: Amplitude> StateVectorSimulator<C> {
    /// The state vector, or the latched error.
    pub closed spec fn current(&self) -> Result<StateVector<C>, Error<C>> {
        self.state
    }

    /// The dimension `2ⁿ` of the simulated system.
    pub closed spec fn system_dim(&self) -> nat {
        self.dim as nat
    }

    /// A held state vector is well formed and of the system's dimension; a
    /// latched error is a numerical failure or a misapplied matrix.
    pub open spec fn wf(&self) -> bool {
        &&& self.current() matches Ok(sv) ==> sv.wf() && sv.size() == self.system_dim()
        &&& self.current() matches Err(e) ==> latchable(e)
    }

    /// What a sampling call promises: the latch holds; when the qubits fit
    /// the channels, the trajectory step described by `trajectory_outcome`;
    /// otherwise a kernel error that changed nothing.
    pub open spec fn sampled(
        old: Self,
        new: Self,
        ops: Seq<Operation<C>>,
        qubits: Seq<usize>,
        arity: nat,
        draw: C,
        r: Result<usize, Error<C>>,
    ) -> bool {
        &&& new.wf()
        &&& new.system_dim() == old.system_dim()
        &&& old.current() matches Err(e) ==> r == Err::<usize, Error<C>>(e) && new.current() == old.current()
            && new@ == old@
        &&& old.current() matches Ok(sv) ==> {
            &&& valid_axes(qubits, sv.qubits()) && arity == qubits.len()
                ==> trajectory_outcome(sv, ops, qubits, draw, new, r)
            &&& !(valid_axes(qubits, sv.qubits()) && arity == qubits.len())
                ==> r is Err && r->Err_0 is Kernel && new.current() == old.current()
        }
    }

    /// Creates a simulator of `number_of_qubits` qubits in the state `|0…0⟩`.
    pub fn new(number_of_qubits: usize) -> (sim: Self)
        requires
            pow2(number_of_qubits as nat) <= usize::MAX,
        ensures
            sim.wf(),
            sim.system_dim() == pow2(number_of_qubits as nat),
            sim.current() matches Ok(sv) && sv.qubits() == number_of_qubits,
            sim.current() matches Ok(sv) && sv.trace_factor() == C::one_spec() && sv.entries()[0] == C::one_spec(),
            sim.current() matches Ok(sv) && forall|i: int| 1 <= i < sv.entries().len()
                ==> #[trigger] sv.entries()[i] == C::zero_spec(),
    {
        let state_vector = StateVector::new(number_of_qubits);
        let dim = state_vector.dim();
        StateVectorSimulator { state: Ok(state_vector), dim }
    }

    /// Latches `e` and returns it.
    fn latch<T>(&mut self, e: Error<C>) -> (r: Result<T, Error<C>>)
        requires
            old(self).wf(),
            latchable(e),
        ensures
            final(self).wf(),
            final(self).system_dim() == old(self).system_dim(),
            final(self).current() == Err::<StateVector<C>, Error<C>>(e),
            r == Err::<T, Error<C>>(e),
    {
        self.state = Err(e);
        Err(e)
    }

    /// Picks the branch that the draw selects among the collected
    /// probabilities; latches `ProbabilityZeroEvent` when their total is
    /// under the tolerance and `FailedToSampleInstrumentOutcome` when the draw
    /// selects none.
    fn choose_branch(&mut self, probabilities: &Vec<C>, random_sample: C) -> (r: Result<usize, Error<C>>)
        requires
            old(self).wf(),
        ensures
            final(self).wf(),
            final(self).system_dim() == old(self).system_dim(),
            ({
                let p = probabilities@;
                let total = seq_sum(p, p.len());
                if C::lt_spec(total, C::tolerance_spec()) {
                    &&& r == Err::<usize, Error<C>>(Error::ProbabilityZeroEvent)
                    &&& final(self).current() == Err::<StateVector<C>, Error<C>>(Error::ProbabilityZeroEvent)
                } else if branch_choice(p, total, random_sample) is None {
                    &&& r == Err::<usize, Error<C>>(Error::FailedToSampleInstrumentOutcome)
                    &&& final(self).current() == Err::<StateVector<C>, Error<C>>(Error::FailedToSampleInstrumentOutcome)
                } else {
                    &&& r == Ok::<usize, Error<C>>(branch_choice(p, total, random_sample)->Some_0 as usize)
                    &&& 0 <= branch_choice(p, total, random_sample)->Some_0 < p.len()
                    &&& !C::lt_spec(p[branch_choice(p, total, random_sample)->Some_0], C::tolerance_spec())
                    &&& *final(self) == *old(self)
                }
            }),
    {
        let total = sum_of(probabilities);
        if total.lt(&C::tolerance()) {
            return self.latch(Error::ProbabilityZeroEvent);
        }
        match select_branch(probabilities, total, random_sample) {
            None => self.latch(Error::FailedToSampleInstrumentOutcome),
            Some(branch) => {
                proof {
                    let p = probabilities@;
                    let s = branch_scan(p, total, random_sample, 0);
                    lemma_branch_scan_bound(p, total, random_sample, 0);
                    lemma_last_supported(Seq::new(s, |j: int| !C::lt_spec(p[j], C::tolerance_spec())));
                }
                Ok(branch)
            },
        }
    }

    /// Applies the Kraus operator `matrix` of the picked branch, whose
    /// probability is `probability`, and renormalizes; latches a failure.
    fn commit_branch(&mut self, matrix: &SquareMatrix<C>, qubits: &[usize], probability: C) -> (r: Result<(), Error<C>>)
        requires
            old(self).wf(),
            old(self).current() is Ok,
            matrix.wf(),
            valid_axes(qubits@, old(self).current()->Ok_0.qubits()),
            matrix.size() == pow2(qubits.len() as nat),
            !C::lt_spec(probability, C::tolerance_spec()),
        ensures
            final(self).wf(),
            final(self).system_dim() == old(self).system_dim(),
            r is Ok,
            final(self).current() is Ok,
            ({
                let sv = old(self).current()->Ok_0;
                let sv2 = final(self).current()->Ok_0;
                &&& sv2.size() == sv.size()
                &&& sv2.qubits() == sv.qubits()
                &&& sv2.entries() == rescaled(kernel_output(sv.entries(), sv.qubits(), *matrix, qubits@), probability)
                &&& sv2.trace_factor() == C::mul_spec(sv.trace_factor(), probability)
            }),
    {
        let applied = match &mut self.state {
            Err(e) => Err(*e),
            Ok(sv) => {
                match sv.apply_matrix(matrix, qubits) {
                    Err(e) => Err(Error::Kernel(e)),
                    Ok(()) => sv.renormalize_with_norm_squared(probability),
                }
            },
        };
        match applied {
            Ok(()) => Ok(()),
            Err(e) => {
                self.state = Err(e);
                Err(e)
            },
        }
    }

    /// Applies the channel `operation` to the given qubits along one
    /// trajectory: the Kraus operator `Kᵢ` is picked by the draw
    /// `random_sample` in `[0, 1)` with probability `‖Kᵢ ψ‖²`, applied, and
    /// the state renormalized.
    pub fn apply_operation_with_distribution(
        &mut self,
        operation: &Operation<C>,
        qubits: &[usize],
        random_sample: C,
    ) -> (r: Result<(), Error<C>>)
        requires
            old(self).wf(),
            operation.wf(),
        ensures
            Self::sampled(*old(self), *final(self), seq![*operation], qubits@, operation.arity(), random_sample,
                with_outcome(r, 0)),
    {
        let current = match &self.state {
            Err(e) => {
                return Err(*e);
            },
            Ok(sv) => sv,
        };
        let ghost ops = seq![*operation];
        let kraus = operation.kraus_operators();
        let mut probabilities: Vec<C> = Vec::new();
        let mut owners: Vec<usize> = Vec::new();
        let mut indices: Vec<usize> = Vec::new();
        let ghost fits = valid_axes(qubits@, current.qubits()) && operation.arity() == qubits.len();
        proof {
            if operation.arity() == qubits.len() {
                assert forall|i: int| 0 <= i < kraus.len() implies #[trigger] kraus[i].size() == pow2(qubits.len() as nat) by {
                    assert(operation.kraus()[i].wf());
                }
            }
            assert(operation.kraus()[0].wf());
        }
        match collect_branches(current, kraus, qubits, 0, &mut probabilities, &mut owners, &mut indices) {
            Err(e) => {
                return Err(Error::Kernel(e));
            },
            Ok(()) => {},
        }
        proof {
            if operation.arity() != qubits.len() {
                lemma_pow2_injective(operation.arity(), qubits.len() as nat);
            }
            assert(ops[0] == *operation);
            lemma_branches_step(*current, ops, qubits@, 0);
            assert(branches(ops, 0) =~= Seq::<(int, int)>::empty());
            assert(pairs(Seq::<usize>::empty(), Seq::<usize>::empty()) =~= Seq::<(int, int)>::empty());
            assert(branch_probabilities(*current, ops, qubits@, 0) =~= Seq::<C>::empty());
        }
        let branch = match self.choose_branch(&probabilities, random_sample) {
            Err(e) => {
                return Err(e);
            },
            Ok(branch) => branch,
        };
        let probability = probabilities[branch];
        proof {
            lemma_branch_in_range(ops, 1, branch as int);
            assert(pairs(owners@, indices@)[branch as int] == (owners@[branch as int] as int, indices@[branch as int] as int));
            assert(operation.kraus()[indices@[branch as int] as int].wf());
        }
        let matrix = &kraus[indices[branch]];
        match self.commit_branch(matrix, qubits, probability) {
            Ok(()) => Ok(()),
            Err(e) => Err(e),
        }
    }

    /// Applies `instrument` to the given qubits along one trajectory,
    /// without reporting the outcome: a Kraus operator of any outcome is
    /// picked by the draw `random_sample` in `[0, 1)` with the probability of
    /// its branch, applied, and the state renormalized.
    pub fn apply_instrument_with_distribution(
        &mut self,
        instrument: &Instrument<C>,
        qubits: &[usize],
        random_sample: C,
    ) -> (r: Result<(), Error<C>>)
        requires
            old(self).wf(),
            instrument.wf(),
        ensures
            exists|outcome: usize| #[trigger] Self::sampled(*old(self), *final(self), instrument.outcomes(), qubits@,
                instrument.arity(), random_sample, with_outcome(r, outcome)),
    {
        match self.sample_instrument_with_distribution(instrument, qubits, random_sample) {
            Ok(outcome) => {
                assert(Self::sampled(*old(self), *final(self), instrument.outcomes(), qubits@, instrument.arity(),
                    random_sample, with_outcome(Ok::<(), Error<C>>(()), outcome)));
                Ok(())
            },
            Err(e) => {
                assert(Self::sampled(*old(self), *final(self), instrument.outcomes(), qubits@, instrument.arity(),
                    random_sample, with_outcome(Err::<(), Error<C>>(e), 0)));
                Err(e)
            },
        }
    }

    /// Applies `instrument` to the given qubits along one trajectory and
    /// reports the outcome: a Kraus operator of any outcome is picked by the
    /// draw `random_sample` in `[0, 1)` with the probability of its branch,
    /// applied, and the state renormalized. Returns the outcome's index.
    pub fn sample_instrument_with_distribution(
        &mut self,
        instrument: &Instrument<C>,
        qubits: &[usize],
        random_sample: C,
    ) -> (r: Result<usize, Error<C>>)
        requires
            old(self).wf(),
            instrument.wf(),
        ensures
            Self::sampled(*old(self), *final(self), instrument.outcomes(), qubits@, instrument.arity(), random_sample, r),
            r is Ok ==> r->Ok_0 < instrument.outcomes().len(),
    {
        let current = match &self.state {
            Err(e) => {
                return Err(*e);
            },
            Ok(sv) => sv,
        };
        let ops = instrument.operations();
        let ghost arity = instrument.arity();
        let ghost fits = valid_axes(qubits@, current.qubits()) && arity == qubits.len();
        let count = ops.len();
        let mut probabilities: Vec<C> = Vec::new();
        let mut owners: Vec<usize> = Vec::new();
        let mut indices: Vec<usize> = Vec::new();
        proof {
            assert(branches(ops@, 0) =~= Seq::<(int, int)>::empty());
            assert(pairs(owners@, indices@) =~= Seq::<(int, int)>::empty());
            assert(branch_probabilities(*current, ops@, qubits@, 0) =~= Seq::<C>::empty());
        }
        let mut j: usize = 0;
        while j < count
            invariant
                j <= count,
                count == ops.len(),
                count > 0,
                ops@ == instrument.outcomes(),
                instrument.wf(),
                arity == instrument.arity(),
                current.wf(),
                *self == *old(self),
                self.wf(),
                self.state == Ok::<StateVector<C>, Error<C>>(*current),
                fits == (valid_axes(qubits@, current.qubits()) && arity == qubits.len()),
                j > 0 ==> fits,
                indices.len() == owners.len(),
                probabilities@ == branch_probabilities(*current, ops@, qubits@, j as nat),
                pairs(owners@, indices@) == branches(ops@, j as nat),
            decreases count - j,
        {
            let kraus = ops[j].kraus_operators();
            proof {
                assert(ops@[j as int].wf());
                assert(instrument.outcomes()[j as int].arity() == arity);
                if arity == qubits.len() {
                    assert forall|i: int| 0 <= i < kraus.len() implies #[trigger] kraus[i].size() == pow2(qubits.len() as nat) by {
                        assert(ops@[j as int].kraus()[i].wf());
                    }
                }
                assert(ops@[j as int].kraus()[0].wf());
            }
            match collect_branches(current, kraus, qubits, j, &mut probabilities, &mut owners, &mut indices) {
                Err(e) => {
                    return Err(Error::Kernel(e));
                },
                Ok(()) => {},
            }
            proof {
                if arity != qubits.len() {
                    lemma_pow2_injective(arity, qubits.len() as nat);
                }
                lemma_branches_step(*current, ops@, qubits@, j as nat);
            }
            j = j + 1;
        }
        let branch = match self.choose_branch(&probabilities, random_sample) {
            Err(e) => {
                return Err(e);
            },
            Ok(branch) => branch,
        };
        let probability = probabilities[branch];
        proof {
            lemma_branch_in_range(ops@, count as nat, branch as int);
            assert(pairs(owners@, indices@)[branch as int] == (owners@[branch as int] as int, indices@[branch as int] as int));
        }
        let outcome = owners[branch];
        let op = &ops[outcome];
        proof {
            assert(ops@[outcome as int].wf());
            assert(instrument.outcomes()[outcome as int].arity() == arity);
            assert(op.kraus()[indices@[branch as int] as int].wf());
        }
        let matrix = &op.kraus_operators()[indices[branch]];
        match self.commit_branch(matrix, qubits, probability) {
            Ok(()) => Ok(outcome),
            Err(e) => Err(e),
        }
    }

    /// The state vector, or the latched error.
    pub fn state(&self) -> (r: Result<&StateVector<C>, &Error<C>>)
        ensures
            self.current() matches Ok(sv) ==> (r matches Ok(s) && *s == sv),
            self.current() matches Err(e) ==> (r matches Err(x) && *x == e),
    {
        match &self.state {
            Ok(sv) => Ok(sv),
            Err(e) => Err(e),
        }
    }

    /// A copy of the state vector, or the latched error.
    pub fn get_state(&self) -> (r: Result<StateVector<C>, Error<C>>)
        ensures
            self.current() matches Ok(sv) ==> (r matches Ok(copy) && copy@ == sv@ && copy.wf() == sv.wf()),
            self.current() matches Err(e) ==> r == Err::<StateVector<C>, Error<C>>(e),
    {
        match &self.state {
            Ok(sv) => Ok(sv.duplicate()),
            Err(e) => Err(*e),
        }
    }

    /// Replaces the state, clearing a latched error. The replacement must
    /// have the system's dimension and unit norm within the tolerance;
    /// otherwise the simulator is left as it was.
    pub fn set_state(&mut self, new_state: StateVector<C>) -> (r: Result<(), Error<C>>)
        requires
            old(self).wf(),
            new_state.wf(),
        ensures
            final(self).wf(),
            final(self).system_dim() == old(self).system_dim(),
            sv_set_state_outcome(*old(self), new_state, *final(self), r),
            new_state.size() != old(self).system_dim() ==> r == Err::<(), Error<C>>(
                Error::InvalidState(StateDefect::DimensionMismatch {
                    expected: old(self).system_dim() as usize,
                    actual: new_state.size() as usize,
                }),
            ),
            new_state.size() == old(self).system_dim() && !unit_norm(new_state.entries()) ==> r == Err::<(), Error<C>>(
                Error::InvalidState(StateDefect::NotNormalized(norm_sum(new_state.entries(), new_state.entries().len()))),
            ),
            r is Ok <==> new_state.size() == old(self).system_dim() && unit_norm(new_state.entries()),
    {
        if self.dim != new_state.dim() {
            return Err(Error::InvalidState(StateDefect::DimensionMismatch { expected: self.dim, actual: new_state.dim() }));
        }
        if !new_state.is_normalized() {
            return Err(Error::InvalidState(StateDefect::NotNormalized(new_state.norm_squared())));
        }
        self.state = Ok(new_state);
        Ok(())
    }

    /// The product of the probabilities removed by renormalization so far,
    /// or the latched error.
    pub fn trace_change(&self) -> (r: Result<C, Error<C>>)
        ensures
            self.current() matches Ok(sv) ==> r == Ok::<C, Error<C>>(sv.trace_factor()),
            self.current() matches Err(e) ==> r == Err::<C, Error<C>>(e),
    {
        match &self.state {
            Ok(sv) => Ok(sv.trace_change()),
            Err(e) => Err(*e),
        }
    }

    /// Sets the trace change to `trace`, which must lie in `[ε, 1 + ε]`.
    pub fn set_trace(&mut self, trace: C) -> (r: Result<(), Error<C>>)
        requires
            old(self).wf(),
        ensures
            final(self).wf(),
            final(self).system_dim() == old(self).system_dim(),
            r is Err ==> final(self)@ == old(self)@ && final(self).current() == old(self).current(),
            r == Err::<(), Error<C>>(Error::NotNormalized(trace)) <==> out_of_trace_range(trace),
            !out_of_trace_range(trace) && old(self).current() is Err ==> r == Err::<(), Error<C>>(old(self).current()->Err_0),
            !out_of_trace_range(trace) && old(self).current() is Ok ==> r is Ok,
            r is Ok ==> old(self).current() is Ok && (final(self).current() matches Ok(sv2) && {
                let sv = old(self).current()->Ok_0;
                &&& sv2.trace_factor() == trace
                &&& sv2.entries() == sv.entries()
                &&& sv2.size() == sv.size()
                &&& sv2.qubits() == sv.qubits()
            }),
    {
        let tolerance = C::tolerance();
        if trace.lt(&tolerance) || tolerance.lt(&trace.minus(&C::one())) {
            return Err(Error::NotNormalized(trace));
        }
        match &mut self.state {
            Err(e) => Err(*e),
            Ok(sv) => {
                sv.trace_change = trace;
                Ok(())
            },
        }
    }
}

/// The sum of the values, in order.
fn sum_of<C: Amplitude>(values: &Vec<C>) -> (r: C)
    ensures
        r == seq_sum(values@, values.len() as nat),
{
    let mut sum = C::zero();
    let mut i: usize = 0;
    while i < values.len()
        invariant
            i <= values.len(),
            sum == seq_sum(values@, i as nat),
        decreases values.len() - i,
    {
        sum = sum.plus(&values[i]);
        i = i + 1;
    }
    sum
}

} // verus!
