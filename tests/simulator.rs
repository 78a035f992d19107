use noisy_simulator::{
    apply_kernel, fiber_layout, pick_outcome, select_branch, Amplitude, ChannelError, DensityMatrix, DensityMatrixSimulator,
    Error, Instrument, KernelError, Operation, SquareMatrix, StateDefect, StateVector, StateVectorSimulator,
};

const EPS: f64 = 1e-12;

#[derive(Clone, Copy, Debug, PartialEq)]
struct Cx {
    re: f64,
    im: f64,
}

fn c(re: f64, im: f64) -> Cx {
    Cx { re, im }
}

fn r(re: f64) -> Cx {
    Cx { re, im: 0.0 }
}

impl Amplitude for Cx {
    fn zero_spec() -> Self {
        r(0.0)
    }
    fn one_spec() -> Self {
        r(1.0)
    }
    fn tolerance_spec() -> Self {
        r(EPS)
    }
    fn add_spec(a: Self, b: Self) -> Self {
        c(a.re + b.re, a.im + b.im)
    }
    fn sub_spec(a: Self, b: Self) -> Self {
        c(a.re - b.re, a.im - b.im)
    }
    fn mul_spec(a: Self, b: Self) -> Self {
        c(a.re * b.re - a.im * b.im, a.re * b.im + a.im * b.re)
    }
    fn div_spec(a: Self, b: Self) -> Self {
        let d = b.re * b.re + b.im * b.im;
        c((a.re * b.re + a.im * b.im) / d, (a.im * b.re - a.re * b.im) / d)
    }
    fn conj_spec(a: Self) -> Self {
        c(a.re, -a.im)
    }
    fn sqrt_spec(a: Self) -> Self {
        let m = (a.re * a.re + a.im * a.im).sqrt();
        let re = ((m + a.re) / 2.0).sqrt();
        let im = ((m - a.re) / 2.0).sqrt();
        c(re, if a.im < 0.0 { -im } else { im })
    }
    fn real_spec(a: Self) -> Self {
        r(a.re)
    }
    fn scale_spec(a: Self, f: Self) -> Self {
        c(a.re * f.re, a.im * f.re)
    }
    fn abs_re_spec(a: Self) -> Self {
        r(a.re.abs())
    }
    fn abs_im_spec(a: Self) -> Self {
        r(a.im.abs())
    }
    fn norm_sqr_spec(a: Self) -> Self {
        r(a.re * a.re + a.im * a.im)
    }
    fn lt_spec(a: Self, b: Self) -> bool {
        a.re < b.re
    }
    fn le_spec(a: Self, b: Self) -> bool {
        a.re <= b.re
    }
    fn zero() -> Self {
        Self::zero_spec()
    }
    fn one() -> Self {
        Self::one_spec()
    }
    fn tolerance() -> Self {
        Self::tolerance_spec()
    }
    fn plus(&self, o: &Self) -> Self {
        Self::add_spec(*self, *o)
    }
    fn minus(&self, o: &Self) -> Self {
        Self::sub_spec(*self, *o)
    }
    fn times(&self, o: &Self) -> Self {
        Self::mul_spec(*self, *o)
    }
    fn divided_by(&self, o: &Self) -> Self {
        Self::div_spec(*self, *o)
    }
    fn conj(&self) -> Self {
        Self::conj_spec(*self)
    }
    fn sqrt(&self) -> Self {
        Self::sqrt_spec(*self)
    }
    fn real_part(&self) -> Self {
        Self::real_spec(*self)
    }
    fn scaled(&self, f: &Self) -> Self {
        Self::scale_spec(*self, *f)
    }
    fn abs_re(&self) -> Self {
        Self::abs_re_spec(*self)
    }
    fn abs_im(&self) -> Self {
        Self::abs_im_spec(*self)
    }
    fn norm_sqr(&self) -> Self {
        Self::norm_sqr_spec(*self)
    }
    fn lt(&self, o: &Self) -> bool {
        Self::lt_spec(*self, *o)
    }
    fn le(&self, o: &Self) -> bool {
        Self::le_spec(*self, *o)
    }
}

fn matrix(rows: &[&[Cx]]) -> SquareMatrix<Cx> {
    let rows: Vec<Vec<Cx>> = rows.iter().map(|row| row.to_vec()).collect();
    SquareMatrix::from_rows(&rows).expect("square matrix")
}

fn real_matrix(rows: &[&[f64]]) -> SquareMatrix<Cx> {
    let rows: Vec<Vec<Cx>> = rows.iter().map(|row| row.iter().map(|x| r(*x)).collect()).collect();
    SquareMatrix::from_rows(&rows).expect("square matrix")
}

fn identity() -> SquareMatrix<Cx> {
    real_matrix(&[&[1.0, 0.0], &[0.0, 1.0]])
}

fn pauli_x() -> SquareMatrix<Cx> {
    real_matrix(&[&[0.0, 1.0], &[1.0, 0.0]])
}

fn pauli_y() -> SquareMatrix<Cx> {
    matrix(&[&[r(0.0), c(0.0, -1.0)], &[c(0.0, 1.0), r(0.0)]])
}

fn pauli_z() -> SquareMatrix<Cx> {
    real_matrix(&[&[1.0, 0.0], &[0.0, -1.0]])
}

fn hadamard() -> SquareMatrix<Cx> {
    let h = std::f64::consts::FRAC_1_SQRT_2;
    real_matrix(&[&[h, h], &[h, -h]])
}

fn scale(m: &SquareMatrix<Cx>, f: f64) -> SquareMatrix<Cx> {
    let d = m.dim();
    let rows: Vec<Vec<Cx>> = (0..d)
        .map(|i| (0..d).map(|j| m.entry(i, j).times(&r(f))).collect())
        .collect();
    SquareMatrix::from_rows(&rows).unwrap()
}

fn gate(m: SquareMatrix<Cx>) -> Operation<Cx> {
    Operation::new(vec![m]).expect("valid operation")
}

fn measurement() -> Instrument<Cx> {
    let zero_projector = gate(real_matrix(&[&[1.0, 0.0], &[0.0, 0.0]]));
    let one_projector = gate(real_matrix(&[&[0.0, 0.0], &[0.0, 1.0]]));
    Instrument::new(vec![zero_projector, one_projector]).expect("valid instrument")
}

/// Entry (row, col) of a density matrix stored column by column.
fn rho(dm: &DensityMatrix<Cx>, row: usize, col: usize) -> Cx {
    dm.data()[row + dm.dim() * col]
}

fn close(a: Cx, b: Cx) -> bool {
    (a.re - b.re).abs() < 1e-9 && (a.im - b.im).abs() < 1e-9
}

fn assert_rho(dm: &DensityMatrix<Cx>, expected: &[&[f64]]) {
    for (i, row) in expected.iter().enumerate() {
        for (j, x) in row.iter().enumerate() {
            assert!(close(rho(dm, i, j), r(*x)), "entry ({i}, {j}) is {:?}, expected {x}", rho(dm, i, j));
        }
    }
}

#[test]
fn x_gate_flips_density_matrix() {
    let mut sim = DensityMatrixSimulator::<Cx>::new(1);
    sim.apply_operation(&gate(pauli_x()), &[0]).unwrap();
    assert_rho(sim.state().unwrap(), &[&[0.0, 0.0], &[0.0, 1.0]]);
}

#[test]
fn depolarizing_channel_diagonal() {
    let p: f64 = 0.1;
    let kraus = vec![
        scale(&identity(), (1.0 - 3.0 * p / 4.0).sqrt()),
        scale(&pauli_x(), (p / 4.0).sqrt()),
        scale(&pauli_y(), (p / 4.0).sqrt()),
        scale(&pauli_z(), (p / 4.0).sqrt()),
    ];
    let op = Operation::new(kraus).unwrap();
    let mut sim = DensityMatrixSimulator::<Cx>::new(1);
    sim.apply_operation(&op, &[0]).unwrap();
    let dm = sim.state().unwrap();
    assert!(close(rho(dm, 0, 0), r(1.0 - p / 2.0)));
    assert!(close(rho(dm, 1, 1), r(p / 2.0)));
    assert!(close(rho(dm, 0, 1), r(0.0)));
}

#[test]
fn measurement_of_plus_state_follows_draw() {
    for (u, outcome, expected) in [(0.25, 0usize, [[1.0, 0.0], [0.0, 0.0]]), (0.75, 1, [[0.0, 0.0], [0.0, 1.0]])] {
        let mut sim = DensityMatrixSimulator::<Cx>::new(1);
        sim.apply_operation(&gate(hadamard()), &[0]).unwrap();
        let got = sim.sample_instrument_with_distribution(&measurement(), &[0], r(u)).unwrap();
        assert_eq!(got, outcome);
        let rows: Vec<&[f64]> = expected.iter().map(|row| &row[..]).collect();
        assert_rho(sim.state().unwrap(), &rows);
        assert!(close(sim.trace_change().unwrap(), r(0.5)));
    }
}

#[test]
fn zero_probability_outcome_latches() {
    let only_one = Instrument::new(vec![gate(real_matrix(&[&[0.0, 0.0], &[0.0, 1.0]]))]).unwrap();
    let mut sim = DensityMatrixSimulator::<Cx>::new(1);
    let err = sim.sample_instrument_with_distribution(&only_one, &[0], r(0.5)).unwrap_err();
    assert_eq!(err, Error::ProbabilityZeroEvent);
    assert_eq!(sim.apply_operation(&gate(pauli_x()), &[0]), Err(Error::ProbabilityZeroEvent));
    assert_eq!(sim.apply_instrument(&measurement(), &[0]), Err(Error::ProbabilityZeroEvent));
    assert_eq!(
        sim.sample_instrument_with_distribution(&measurement(), &[0], r(0.5)),
        Err(Error::ProbabilityZeroEvent)
    );
    assert_eq!(sim.trace_change(), Err(Error::ProbabilityZeroEvent));
    assert!(sim.state().is_err());
}

#[test]
fn set_state_recovers_from_latch() {
    let only_one = Instrument::new(vec![gate(real_matrix(&[&[0.0, 0.0], &[0.0, 1.0]]))]).unwrap();
    let mut sim = DensityMatrixSimulator::<Cx>::new(1);
    assert!(sim.sample_instrument_with_distribution(&only_one, &[0], r(0.5)).is_err());
    let fresh = DensityMatrix::try_from(2, 1, r(1.0), vec![r(1.0), r(0.0), r(0.0), r(0.0)]).unwrap();
    sim.set_state(fresh).unwrap();
    sim.apply_operation(&gate(pauli_x()), &[0]).unwrap();
    assert_rho(sim.state().unwrap(), &[&[0.0, 0.0], &[0.0, 1.0]]);
}

#[test]
fn set_state_rejects_wrong_dimension_and_non_hermitian() {
    let mut sim = DensityMatrixSimulator::<Cx>::new(2);
    let three = DensityMatrix::try_from(8, 3, r(1.0), {
        let mut d = vec![r(0.0); 64];
        d[0] = r(1.0);
        d
    })
    .unwrap();
    assert_eq!(
        sim.set_state(three),
        Err(Error::InvalidState(StateDefect::DimensionMismatch { expected: 4, actual: 8 }))
    );
    let mut data = vec![r(0.0); 16];
    data[0] = r(1.0);
    data[1] = r(0.5);
    let skew = DensityMatrix::try_from(4, 2, r(1.0), data).unwrap();
    assert_eq!(sim.set_state(skew), Err(Error::InvalidState(StateDefect::NotHermitian)));
    let mut data = vec![r(0.0); 16];
    data[0] = r(0.5);
    let half = DensityMatrix::try_from(4, 2, r(1.0), data).unwrap();
    assert_eq!(sim.set_state(half), Err(Error::InvalidState(StateDefect::NotNormalized(r(0.5)))));
    assert_rho(sim.state().unwrap(), &[&[1.0, 0.0, 0.0, 0.0], &[0.0; 4], &[0.0; 4], &[0.0; 4]]);
}

#[test]
fn state_vector_and_density_matrix_agree() {
    let cnot = gate(real_matrix(&[
        &[1.0, 0.0, 0.0, 0.0],
        &[0.0, 1.0, 0.0, 0.0],
        &[0.0, 0.0, 0.0, 1.0],
        &[0.0, 0.0, 1.0, 0.0],
    ]));
    let s = gate(matrix(&[&[r(1.0), r(0.0)], &[r(0.0), c(0.0, 1.0)]]));
    let h = gate(hadamard());
    let mut dm = DensityMatrixSimulator::<Cx>::new(2);
    let mut sv = StateVectorSimulator::<Cx>::new(2);
    for (op, qubits) in [(&h, vec![0]), (&s, vec![0]), (&cnot, vec![0, 1]), (&h, vec![1])] {
        dm.apply_operation(op, &qubits).unwrap();
        sv.apply_operation_with_distribution(op, &qubits, r(0.5)).unwrap();
    }
    let psi = sv.state().unwrap().data().clone();
    let state = dm.state().unwrap();
    for i in 0..4 {
        for j in 0..4 {
            let expected = psi[i].times(&psi[j].conj());
            assert!(close(rho(state, i, j), expected), "entry ({i}, {j})");
        }
    }
}

#[test]
fn shape_holds_after_every_step() {
    let mut sim = DensityMatrixSimulator::<Cx>::new(3);
    let steps: Vec<(Operation<Cx>, Vec<usize>)> =
        vec![(gate(hadamard()), vec![2]), (gate(pauli_x()), vec![0]), (gate(pauli_y()), vec![1])];
    for (op, qubits) in steps {
        sim.apply_operation(&op, &qubits).unwrap();
        let dm = sim.state().unwrap();
        assert_eq!(dm.dim(), 1 << dm.number_of_qubits());
        assert_eq!(dm.data().len(), dm.dim() * dm.dim());
    }
    let mut sv = StateVectorSimulator::<Cx>::new(3);
    sv.apply_operation_with_distribution(&gate(hadamard()), &[1], r(0.3)).unwrap();
    let state = sv.state().unwrap();
    assert_eq!(state.dim(), 8);
    assert_eq!(state.data().len(), 8);
}

#[test]
fn identity_operation_changes_nothing() {
    let mut sim = DensityMatrixSimulator::<Cx>::new(2);
    sim.apply_operation(&gate(hadamard()), &[1]).unwrap();
    let before = sim.state().unwrap().data().clone();
    sim.apply_operation(&gate(identity()), &[0]).unwrap();
    let after = sim.state().unwrap().data().clone();
    for (a, b) in before.iter().zip(after.iter()) {
        assert!(close(*a, *b));
    }
}

#[test]
fn renormalizing_a_normalized_state_changes_nothing() {
    let mut dm = DensityMatrix::try_from(2, 1, r(1.0), vec![r(0.5), r(0.5), r(0.5), r(0.5)]).unwrap();
    dm.renormalize().unwrap();
    for x in dm.data() {
        assert!(close(*x, r(0.5)));
    }
    assert!(close(dm.trace_change(), r(1.0)));
}

#[test]
fn sampling_frequencies_match_probabilities() {
    // |ψ⟩ = cos θ |0⟩ + sin θ |1⟩ with cos² θ = 0.3, draws spread evenly over [0, 1).
    let theta = 0.3f64.sqrt().acos();
    let ry = real_matrix(&[&[theta.cos(), -theta.sin()], &[theta.sin(), theta.cos()]]);
    let draws = 1000;
    let mut zeros = 0;
    for k in 0..draws {
        let u = (k as f64 + 0.5) / draws as f64;
        let mut sim = DensityMatrixSimulator::<Cx>::new(1);
        sim.apply_operation(&gate(ry.clone()), &[0]).unwrap();
        if sim.sample_instrument_with_distribution(&measurement(), &[0], r(u)).unwrap() == 0 {
            zeros += 1;
        }
    }
    let frequency = zeros as f64 / draws as f64;
    assert!((frequency - 0.3).abs() < 3.0 / (draws as f64).sqrt());
}

#[test]
fn get_then_set_state_is_a_no_op() {
    let mut sim = DensityMatrixSimulator::<Cx>::new(1);
    sim.apply_operation(&gate(hadamard()), &[0]).unwrap();
    let copy = sim.state().unwrap().duplicate();
    let before = sim.state().unwrap().data().clone();
    sim.set_state(copy).unwrap();
    assert_eq!(sim.state().unwrap().data(), &before);
    let mut sv = StateVectorSimulator::<Cx>::new(1);
    sv.apply_operation_with_distribution(&gate(hadamard()), &[0], r(0.1)).unwrap();
    let copy = sv.state().unwrap().duplicate();
    let before = sv.state().unwrap().data().clone();
    sv.set_state(copy).unwrap();
    assert_eq!(sv.state().unwrap().data(), &before);
}

#[test]
fn trace_change_accumulates_branch_probability() {
    let mut sim = DensityMatrixSimulator::<Cx>::new(1);
    sim.apply_operation(&gate(hadamard()), &[0]).unwrap();
    assert!(close(sim.trace_change().unwrap(), r(1.0)));
    sim.sample_instrument_with_distribution(&measurement(), &[0], r(0.1)).unwrap();
    assert!(close(sim.trace_change().unwrap(), r(0.5)));
    sim.apply_operation(&gate(hadamard()), &[0]).unwrap();
    sim.sample_instrument_with_distribution(&measurement(), &[0], r(0.9)).unwrap();
    assert!(close(sim.trace_change().unwrap(), r(0.25)));
}

#[test]
fn set_trace_checks_range() {
    let mut sim = DensityMatrixSimulator::<Cx>::new(1);
    assert_eq!(sim.set_trace(r(0.0)), Err(Error::NotNormalized(r(0.0))));
    assert_eq!(sim.set_trace(r(1.5)), Err(Error::NotNormalized(r(1.5))));
    sim.set_trace(r(0.25)).unwrap();
    assert_eq!(sim.trace_change(), Ok(r(0.25)));
    let mut sv = StateVectorSimulator::<Cx>::new(1);
    assert_eq!(sv.set_trace(r(2.0)), Err(Error::NotNormalized(r(2.0))));
    sv.set_trace(r(0.5)).unwrap();
    assert_eq!(sv.trace_change(), Ok(r(0.5)));
}

#[test]
fn failed_sampling_latches() {
    // A draw past the summed probabilities of all outcomes is never reached.
    let certain = Instrument::new(vec![gate(identity())]).unwrap();
    let mut sim = DensityMatrixSimulator::<Cx>::new(1);
    assert_eq!(
        sim.sample_instrument_with_distribution(&certain, &[0], r(1.5)),
        Err(Error::FailedToSampleInstrumentOutcome)
    );
    assert_eq!(sim.apply_operation(&gate(pauli_x()), &[0]), Err(Error::FailedToSampleInstrumentOutcome));
    let mut sv = StateVectorSimulator::<Cx>::new(1);
    assert_eq!(
        sv.sample_instrument_with_distribution(&certain, &[0], r(1.5)),
        Err(Error::FailedToSampleInstrumentOutcome)
    );
    assert_eq!(
        sv.apply_instrument_with_distribution(&certain, &[0], r(0.5)),
        Err(Error::FailedToSampleInstrumentOutcome)
    );
}

#[test]
fn kernel_errors_leave_state_alone() {
    let mut sim = DensityMatrixSimulator::<Cx>::new(2);
    assert_eq!(sim.apply_operation(&gate(pauli_x()), &[2]), Err(Error::Kernel(KernelError::AxisOutOfRange)));
    assert_eq!(sim.apply_operation(&gate(pauli_x()), &[0, 1]), Err(Error::Kernel(KernelError::DimensionMismatch)));
    let cnot = gate(real_matrix(&[
        &[1.0, 0.0, 0.0, 0.0],
        &[0.0, 1.0, 0.0, 0.0],
        &[0.0, 0.0, 0.0, 1.0],
        &[0.0, 0.0, 1.0, 0.0],
    ]));
    assert_eq!(sim.apply_operation(&cnot, &[1, 1]), Err(Error::Kernel(KernelError::DuplicateAxis)));
    sim.apply_operation(&gate(pauli_x()), &[1]).unwrap();
    assert!(close(rho(sim.state().unwrap(), 1, 1), r(1.0)));
}

#[test]
fn fiber_layout_indices() {
    // Three axes, a matrix on axes [2, 0]: axis 2 carries the high local bit.
    let layout = fiber_layout(3, &[2, 0], 4).unwrap();
    assert_eq!(layout.bases, vec![0, 2]);
    assert_eq!(layout.offsets, vec![0, 4, 1, 5]);
    let single = fiber_layout(3, &[1], 2).unwrap();
    assert_eq!(single.bases, vec![0, 1, 4, 5]);
    assert_eq!(single.offsets, vec![0, 2]);
    assert_eq!(fiber_layout(3, &[1], 4).err(), Some(KernelError::DimensionMismatch));
    assert_eq!(fiber_layout(3, &[3], 2).err(), Some(KernelError::AxisOutOfRange));
    assert_eq!(fiber_layout(3, &[0, 0], 4).err(), Some(KernelError::DuplicateAxis));
}

#[test]
fn kernel_applies_to_most_significant_qubit() {
    let mut state = vec![r(1.0), r(0.0), r(0.0), r(0.0)];
    apply_kernel(&mut state, 2, &pauli_x(), &[0]).unwrap();
    assert_eq!(state, vec![r(0.0), r(0.0), r(1.0), r(0.0)]);
    apply_kernel(&mut state, 2, &pauli_x(), &[1]).unwrap();
    assert_eq!(state, vec![r(0.0), r(0.0), r(0.0), r(1.0)]);
    assert_eq!(apply_kernel(&mut state, 2, &pauli_x(), &[0, 1]), Err(KernelError::DimensionMismatch));
    assert_eq!(state, vec![r(0.0), r(0.0), r(0.0), r(1.0)]);
}

#[test]
fn operation_caches_effect_and_super_operator() {
    let op = gate(pauli_y());
    assert_eq!(op.number_of_qubits(), 1);
    let effect = op.get_effect_matrix();
    assert!(close(effect[0], r(1.0)) && close(effect[1], r(0.0)) && close(effect[3], r(1.0)));
    let super_op = op.get_operation_matrix();
    assert_eq!(super_op.len(), 16);
    // conj(Y) ⊗ Y holds i · (-i) = 1 in row 0, column 3 and i · i = -1 in row 1, column 2.
    assert!(close(super_op[3], r(1.0)));
    assert!(close(super_op[4 + 2], r(-1.0)));
    let kraus = op.get_kraus_operators();
    assert_eq!(kraus, vec![vec![r(0.0), c(0.0, -1.0), c(0.0, 1.0), r(0.0)]]);
}

#[test]
fn operation_rejects_bad_shapes() {
    assert_eq!(Operation::<Cx>::new(vec![]).err(), Some(ChannelError::Empty));
    let cnot = real_matrix(&[&[1.0, 0.0, 0.0, 0.0], &[0.0; 4], &[0.0; 4], &[0.0; 4]]);
    assert_eq!(Operation::new(vec![pauli_x(), cnot]).err(), Some(ChannelError::ShapeMismatch));
    let three = real_matrix(&[&[1.0, 0.0, 0.0], &[0.0, 1.0, 0.0], &[0.0, 0.0, 1.0]]);
    assert_eq!(Operation::new(vec![three]).err(), Some(ChannelError::NotPowerOfTwo));
}

#[test]
fn instrument_rejects_bad_shapes() {
    assert_eq!(Instrument::<Cx>::new(vec![]).err(), Some(ChannelError::Empty));
    let two = gate(real_matrix(&[&[1.0, 0.0, 0.0, 0.0], &[0.0; 4], &[0.0; 4], &[0.0; 4]]));
    assert_eq!(Instrument::new(vec![gate(pauli_x()), two]).err(), Some(ChannelError::ShapeMismatch));
    let m = measurement();
    assert_eq!(m.num_operations(), 2);
    assert_eq!(m.number_of_qubits(), 1);
    assert_eq!(m.total_effect_transposed().dim(), 2);
    assert_eq!(m.non_selective_operation_matrix().dim(), 4);
}

#[test]
fn matrices_from_rows() {
    let rows = vec![vec![r(1.0), r(2.0)], vec![r(3.0), r(4.0)]];
    let m = SquareMatrix::from_rows(&rows).unwrap();
    assert_eq!(m.entry(0, 1), r(2.0));
    assert_eq!(m.entry(1, 0), r(3.0));
    assert_eq!(m.to_row_major(), vec![r(1.0), r(2.0), r(3.0), r(4.0)]);
    assert_eq!(m.transpose().to_row_major(), vec![r(1.0), r(3.0), r(2.0), r(4.0)]);
    assert!(SquareMatrix::from_rows(&vec![vec![r(1.0), r(2.0)], vec![r(3.0)]]).is_none());
    let k = pauli_x().kronecker(&identity());
    assert_eq!(k.dim(), 4);
    assert_eq!(k.entry(0, 2), r(1.0));
    assert_eq!(k.entry(0, 1), r(0.0));
}

#[test]
fn density_matrix_from_fields() {
    assert!(DensityMatrix::try_from(4, 2, r(1.0), vec![r(0.0); 16]).is_some());
    assert!(DensityMatrix::try_from(4, 1, r(1.0), vec![r(0.0); 16]).is_none());
    assert!(DensityMatrix::try_from(4, 2, r(1.0), vec![r(0.0); 15]).is_none());
    assert!(DensityMatrix::try_from(3, 2, r(1.0), vec![r(0.0); 9]).is_none());
    assert!(StateVector::try_from(4, 2, r(1.0), vec![r(0.0); 4]).is_some());
    assert!(StateVector::try_from(4, 2, r(1.0), vec![r(0.0); 16]).is_none());
    let dm = DensityMatrix::<Cx>::new(2);
    assert_eq!(dm.dim(), 4);
    assert_eq!(dm.data()[0], r(1.0));
    assert!(dm.data()[1..].iter().all(|x| *x == r(0.0)));
}

#[test]
fn state_vector_measurement_follows_draw() {
    for (u, outcome, index) in [(0.25, 0usize, 0usize), (0.75, 1, 1)] {
        let mut sim = StateVectorSimulator::<Cx>::new(1);
        sim.apply_operation_with_distribution(&gate(hadamard()), &[0], r(0.5)).unwrap();
        assert_eq!(sim.sample_instrument_with_distribution(&measurement(), &[0], r(u)), Ok(outcome));
        let psi = sim.state().unwrap().data().clone();
        assert!(close(psi[index], r(1.0)));
        assert!(close(psi[1 - index], r(0.0)));
    }
}

#[test]
fn state_vector_picks_kraus_branch() {
    // Amplitude damping with γ = 1 on |1⟩ always decays to |0⟩.
    let k0 = real_matrix(&[&[1.0, 0.0], &[0.0, 0.0]]);
    let k1 = real_matrix(&[&[0.0, 1.0], &[0.0, 0.0]]);
    let damping = Operation::new(vec![k0, k1]).unwrap();
    let mut sim = StateVectorSimulator::<Cx>::new(1);
    sim.apply_operation_with_distribution(&gate(pauli_x()), &[0], r(0.5)).unwrap();
    sim.apply_operation_with_distribution(&damping, &[0], r(0.5)).unwrap();
    assert_eq!(sim.state().unwrap().data(), &vec![r(1.0), r(0.0)]);
    sim.apply_instrument_with_distribution(&measurement(), &[0], r(0.5)).unwrap();
    assert_eq!(sim.state().unwrap().data(), &vec![r(1.0), r(0.0)]);
}

#[test]
fn state_vector_latches_zero_probability() {
    let only_one = Instrument::new(vec![gate(real_matrix(&[&[0.0, 0.0], &[0.0, 1.0]]))]).unwrap();
    let mut sim = StateVectorSimulator::<Cx>::new(1);
    assert_eq!(
        sim.sample_instrument_with_distribution(&only_one, &[0], r(0.5)),
        Err(Error::ProbabilityZeroEvent)
    );
    assert_eq!(
        sim.apply_operation_with_distribution(&gate(pauli_x()), &[0], r(0.5)),
        Err(Error::ProbabilityZeroEvent)
    );
    assert_eq!(sim.trace_change(), Err(Error::ProbabilityZeroEvent));
    let fresh = StateVector::try_from(2, 1, r(1.0), vec![r(0.0), r(1.0)]).unwrap();
    sim.set_state(fresh).unwrap();
    assert_eq!(sim.sample_instrument_with_distribution(&measurement(), &[0], r(0.5)), Ok(1));
}

#[test]
fn state_vector_set_state_validation() {
    let mut sim = StateVectorSimulator::<Cx>::new(2);
    let small = StateVector::try_from(2, 1, r(1.0), vec![r(1.0), r(0.0)]).unwrap();
    assert_eq!(
        sim.set_state(small),
        Err(Error::InvalidState(StateDefect::DimensionMismatch { expected: 4, actual: 2 }))
    );
    let long = StateVector::try_from(4, 2, r(1.0), vec![r(1.0), r(1.0), r(0.0), r(0.0)]).unwrap();
    assert_eq!(sim.set_state(long), Err(Error::InvalidState(StateDefect::NotNormalized(r(2.0)))));
}

#[test]
fn branch_selection_rule() {
    let p = vec![r(0.5), r(0.0), r(0.5)];
    assert_eq!(select_branch(&p, r(1.0), r(0.25)), Some(0));
    assert_eq!(select_branch(&p, r(1.0), r(0.5)), Some(2));
    assert_eq!(select_branch(&p, r(1.0), r(0.75)), Some(2));
    assert_eq!(select_branch(&p, r(1.0), r(1.5)), None);
    assert_eq!(select_branch(&vec![r(0.0), r(1.0)], r(1.0), r(0.0)), Some(1));
    assert_eq!(select_branch(&Vec::<Cx>::new(), r(1.0), r(0.0)), None);
}

#[test]
fn fibers_cover_every_entry_once() {
    for (n, axes) in [(3usize, vec![2usize, 0]), (4, vec![1]), (4, vec![3, 1, 0]), (2, vec![]), (2, vec![0, 1])] {
        let layout = fiber_layout(n, &axes, 1 << axes.len()).unwrap();
        let mut seen = vec![0u32; 1 << n];
        for base in &layout.bases {
            for offset in &layout.offsets {
                seen[base + offset] += 1;
            }
        }
        assert!(seen.iter().all(|count| *count == 1), "axes {axes:?} over {n}");
    }
}

#[test]
fn density_matrix_stays_hermitian_with_unit_trace() {
    let mut sim = DensityMatrixSimulator::<Cx>::new(2);
    let p: f64 = 0.2;
    let depolarizing = Operation::new(vec![
        scale(&identity(), (1.0 - 3.0 * p / 4.0).sqrt()),
        scale(&pauli_x(), (p / 4.0).sqrt()),
        scale(&pauli_y(), (p / 4.0).sqrt()),
        scale(&pauli_z(), (p / 4.0).sqrt()),
    ])
    .unwrap();
    let s = gate(matrix(&[&[r(1.0), r(0.0)], &[r(0.0), c(0.0, 1.0)]]));
    sim.apply_operation(&gate(hadamard()), &[0]).unwrap();
    sim.apply_operation(&s, &[0]).unwrap();
    sim.apply_operation(&depolarizing, &[0]).unwrap();
    sim.apply_instrument(&measurement(), &[1]).unwrap();
    let dm = sim.state().unwrap();
    assert!(dm.is_hermitian());
    assert!(dm.is_normalized());
    assert!(close(dm.trace(), r(1.0)));
}

#[test]
fn state_vector_keeps_unit_norm() {
    let mut sim = StateVectorSimulator::<Cx>::new(2);
    let k0 = real_matrix(&[&[1.0, 0.0], &[0.0, 0.6f64.sqrt()]]);
    let k1 = real_matrix(&[&[0.0, 0.4f64.sqrt()], &[0.0, 0.0]]);
    let damping = Operation::new(vec![k0, k1]).unwrap();
    sim.apply_operation_with_distribution(&gate(hadamard()), &[0], r(0.5)).unwrap();
    sim.apply_operation_with_distribution(&damping, &[0], r(0.2)).unwrap();
    sim.apply_operation_with_distribution(&gate(hadamard()), &[1], r(0.7)).unwrap();
    let sv = sim.state().unwrap();
    assert!(close(sv.norm_squared(), r(1.0)));
    assert!(sv.is_normalized());
}

#[test]
fn later_supported_outcome_wins() {
    assert_eq!(pick_outcome(&vec![]), None);
    assert_eq!(pick_outcome(&vec![false]), None);
    assert_eq!(pick_outcome(&vec![true, false]), Some(0));
    assert_eq!(pick_outcome(&vec![false, true, false, true, false]), Some(3));
    assert_eq!(pick_outcome(&vec![true, true]), Some(1));
}
