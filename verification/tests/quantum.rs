use num::complex::Complex64;
use num::Zero;
use shor::linear::{copy_matrix, copy_vector, kron, product, tensor, tensor_with};
use shor::quantum::{
    bit_length_usize, bit_of, cr, gate_list, h, id, pow2_usize, to_binary_chars, x, Gate, Q,
    QuantumError, State,
};

type Op = fn(Complex64, Complex64) -> Complex64;

type Register = Q<Complex64, Op, Op>;

const E: f64 = 1.0 / std::f64::consts::SQRT_2;

fn c(re: f64, im: f64) -> Complex64 {
    Complex64::new(re, im)
}

fn times(a: Complex64, b: Complex64) -> Complex64 {
    a * b
}

fn plus(a: Complex64, b: Complex64) -> Complex64 {
    a + b
}

fn register() -> Register {
    Q::new(c(0.0, 0.0), c(1.0, 0.0), times as Op, plus as Op)
}

fn round(a: Complex64) -> Complex64 {
    let mut r = a;
    if a.re.abs() < 1e-13 {
        r.re = 0.0;
    }
    if a.im.abs() < 1e-13 {
        r.im = 0.0;
    }
    r
}

fn is_zero(a: Complex64) -> bool {
    a.is_zero()
}

fn prob(a: Complex64) -> f64 {
    a.norm().powf(2.0)
}

fn measure(q: &Register) -> Vec<State<Complex64, f64>> {
    q.state(round, is_zero, prob)
}

fn phase(theta: f64) -> Complex64 {
    c(0.0, theta).exp()
}

fn phases(len: usize) -> Vec<Complex64> {
    let mut list = vec![];
    for k in 0..=len {
        list.push(phase(-2.0 * std::f64::consts::PI / 2.0_f64.powf(k as f64)));
    }
    list
}

fn close(a: Complex64, b: Complex64) -> bool {
    (a - b).norm() < 1e-12
}

fn amplitudes(q: &Register) -> Vec<Complex64> {
    let all = q.state(|a| a, |_| false, |_| 0.0);
    all.iter().map(|s| s.amp).collect()
}

fn total(list: &[State<Complex64, f64>]) -> f64 {
    list.iter().map(|s| s.prob).sum()
}

#[test]
fn test_to_binary_chars() {
    assert_eq!(to_binary_chars(3, 5), vec!['0', '0', '0', '1', '1']);
    assert_eq!(to_binary_chars(7, 5), vec!['0', '0', '1', '1', '1']);
    assert_eq!(to_binary_chars(15, 5), vec!['0', '1', '1', '1', '1']);
    assert_eq!(to_binary_chars(31, 5), vec!['1', '1', '1', '1', '1']);
}

#[test]
fn to_binary_chars_edges() {
    assert_eq!(to_binary_chars(0, 0), vec!['0']);
    assert_eq!(to_binary_chars(0, 1), vec!['0']);
    assert_eq!(to_binary_chars(0, 3), vec!['0', '0', '0']);
    assert_eq!(to_binary_chars(1, 0), vec!['1']);
    assert_eq!(to_binary_chars(5, 2), vec!['1', '0', '1']);
    assert_eq!(to_binary_chars(32, 5), vec!['1', '0', '0', '0', '0', '0']);
    assert_eq!(to_binary_chars(6, 3), vec!['1', '1', '0']);
    let wide = to_binary_chars(1, 70);
    assert_eq!(wide.len(), 70);
    assert_eq!(wide[69], '1');
    assert!(wide[..69].iter().all(|d| *d == '0'));
    let top = to_binary_chars(usize::MAX, 3);
    assert_eq!(top.len(), usize::BITS as usize);
    assert!(top.iter().all(|d| *d == '1'));
}

#[test]
fn to_binary_chars_agrees_with_formatting() {
    for i in 0..300usize {
        for nob in 0..12usize {
            let expected: Vec<char> = format!("{:>0n$b}", i, n = nob).chars().collect();
            assert_eq!(to_binary_chars(i, nob), expected);
        }
    }
}

#[test]
fn bits_and_powers() {
    assert_eq!(pow2_usize(0), 1);
    assert_eq!(pow2_usize(1), 2);
    assert_eq!(pow2_usize(10), 1024);
    assert_eq!(pow2_usize(31), 2147483648);
    assert_eq!(bit_length_usize(0), 1);
    assert_eq!(bit_length_usize(1), 1);
    assert_eq!(bit_length_usize(8), 4);
    assert_eq!(bit_length_usize(usize::MAX), usize::BITS);
    assert!(bit_of(5, 0));
    assert!(!bit_of(5, 1));
    assert!(bit_of(5, 2));
    assert!(!bit_of(5, 3));
    assert!(!bit_of(5, 200));
    assert!(!bit_of(0, 0));
    assert!(bit_of(usize::MAX, (usize::BITS - 1) as usize));
}

#[test]
fn state_reads_out_the_requested_qubits() {
    let s = State { number_of_qubits: 5, index: 3, amp: c(1.0, 0.0), prob: 1.0 };
    assert_eq!(s.to_binary_chars(&[0, 1, 2, 3, 4]), Ok(vec!['0', '0', '0', '1', '1']));
    assert_eq!(s.to_binary_chars(&[4, 3, 0]), Ok(vec!['1', '1', '0']));
    assert_eq!(s.to_binary_chars(&[3, 3]), Ok(vec!['1', '1']));
    assert_eq!(s.to_binary_chars(&[]), Ok(vec![]));
    assert_eq!(s.to_binary_chars(&[5]), Err(QuantumError::IndexOutOfRange));
    assert_eq!(s.to_binary_chars(&[0, 1, 9]), Err(QuantumError::IndexOutOfRange));
}

#[test]
fn state_refuses_qubits_from_the_qubit_count_on() {
    let wide = State { number_of_qubits: 2, index: 100, amp: c(1.0, 0.0), prob: 1.0 };
    assert_eq!(wide.to_binary_chars(&[5]), Err(QuantumError::IndexOutOfRange));
    assert_eq!(wide.to_binary_chars(&[2]), Err(QuantumError::IndexOutOfRange));
    assert_eq!(wide.to_binary_chars(&[0, 2]), Err(QuantumError::IndexOutOfRange));
    assert_eq!(wide.to_binary_chars(&[0, 1]), Ok(vec!['1', '1']));
    let none = State { number_of_qubits: 0, index: 0, amp: c(1.0, 0.0), prob: 1.0 };
    assert_eq!(none.to_binary_chars(&[0]), Err(QuantumError::IndexOutOfRange));
    assert_eq!(none.to_binary_chars(&[]), Ok(vec![]));
    let one = State { number_of_qubits: 1, index: 1, amp: c(1.0, 0.0), prob: 1.0 };
    assert_eq!(one.to_binary_chars(&[0, 0]), Ok(vec!['1', '1']));
    assert_eq!(one.to_binary_chars(&[1]), Err(QuantumError::IndexOutOfRange));
}

#[test]
fn fresh_two_qubit_register() {
    let mut q = register();
    assert_eq!(q.zero(), 0);
    assert_eq!(q.zero(), 1);
    let list = measure(&q);
    assert_eq!(list.len(), 1);
    assert_eq!(list[0].number_of_qubits, 2);
    assert_eq!(list[0].index, 0);
    assert_eq!(list[0].amp, c(1.0, 0.0));
    assert_eq!(list[0].prob, 1.0);
}

#[test]
fn empty_register() {
    let q = register();
    assert_eq!(q.number_of_qubits(), 0);
    assert!(measure(&q).is_empty());
}

#[test]
fn pauli_x_flips_and_flips_back() {
    let mut q = register();
    q.zero();
    assert_eq!(q.x(&[0]), Ok(()));
    let list = measure(&q);
    assert_eq!(list.len(), 1);
    assert_eq!(list[0].index, 1);
    assert_eq!(list[0].amp, c(1.0, 0.0));
    assert_eq!(list[0].prob, 1.0);
    assert_eq!(q.x(&[0]), Ok(()));
    let list = measure(&q);
    assert_eq!(list.len(), 1);
    assert_eq!(list[0].index, 0);
    assert_eq!(list[0].amp, c(1.0, 0.0));
    assert_eq!(list[0].prob, 1.0);
}

#[test]
fn hadamard_splits_evenly() {
    let mut q = register();
    q.zero();
    assert_eq!(q.h(&[0], c(E, 0.0), c(-E, 0.0)), Ok(()));
    let list = measure(&q);
    assert_eq!(list.len(), 2);
    assert_eq!(list[0].index, 0);
    assert_eq!(list[1].index, 1);
    for s in &list {
        assert!((s.amp.norm() - E).abs() < 1e-12);
        assert!((s.prob - 0.5).abs() < 1e-12);
    }
}

#[test]
fn hadamard_on_one_undoes_itself() {
    let mut q = register();
    q.zero();
    q.x(&[0]).unwrap();
    q.h(&[0], c(E, 0.0), c(-E, 0.0)).unwrap();
    let amps = amplitudes(&q);
    assert!(close(amps[0], c(E, 0.0)));
    assert!(close(amps[1], c(-E, 0.0)));
    q.h(&[0], c(E, 0.0), c(-E, 0.0)).unwrap();
    let list = measure(&q);
    assert_eq!(list.len(), 1);
    assert_eq!(list[0].index, 1);
    assert!((list[0].prob - 1.0).abs() < 1e-12);
}

#[test]
fn probabilities_sum_to_one() {
    let mut q = register();
    q.zeros(3);
    assert!((total(&measure(&q)) - 1.0).abs() < 1e-12);
    q.h(&[0, 2], c(E, 0.0), c(-E, 0.0)).unwrap();
    assert!((total(&measure(&q)) - 1.0).abs() < 1e-12);
    q.x(&[1]).unwrap();
    assert!((total(&measure(&q)) - 1.0).abs() < 1e-12);
    q.cr(phase(0.7), 0, 1).unwrap();
    assert!((total(&measure(&q)) - 1.0).abs() < 1e-12);
    q.iqft(&[0, 1, 2], &phases(3), c(E, 0.0), c(-E, 0.0)).unwrap();
    assert!((total(&measure(&q)) - 1.0).abs() < 1e-12);
}

#[test]
fn qubits_are_added_behind_the_last() {
    let mut q = register();
    assert_eq!(q.add(vec![c(2.0, 0.0), c(3.0, 0.0)]), 0);
    assert_eq!(amplitudes(&q), vec![c(2.0, 0.0), c(3.0, 0.0)]);
    assert_eq!(q.add(vec![c(5.0, 0.0), c(7.0, 0.0)]), 1);
    assert_eq!(amplitudes(&q), vec![c(10.0, 0.0), c(14.0, 0.0), c(15.0, 0.0), c(21.0, 0.0)]);
    assert_eq!(q.add(vec![c(1.0, 0.0), c(0.0, 1.0)]), 2);
    assert_eq!(q.number_of_qubits(), 3);
    assert_eq!(
        amplitudes(&q),
        vec![
            c(10.0, 0.0),
            c(0.0, 10.0),
            c(14.0, 0.0),
            c(0.0, 14.0),
            c(15.0, 0.0),
            c(0.0, 15.0),
            c(21.0, 0.0),
            c(0.0, 21.0),
        ]
    );
}

#[test]
fn zeros_returns_the_new_indices() {
    let mut q = register();
    assert_eq!(q.zeros(0), vec![]);
    assert_eq!(q.number_of_qubits(), 0);
    assert_eq!(q.zeros(3), vec![0, 1, 2]);
    assert_eq!(q.zeros(2), vec![3, 4]);
    assert_eq!(q.number_of_qubits(), 5);
    let list = measure(&q);
    assert_eq!(list.len(), 1);
    assert_eq!(list[0].index, 0);
    assert_eq!(list[0].number_of_qubits, 5);
}

#[test]
fn zero_log2_adds_one_qubit_per_binary_digit() {
    for (n, count) in [(0u32, 1u32), (1, 1), (2, 2), (3, 2), (4, 3), (15, 4), (16, 5), (1000, 10)] {
        let mut q = register();
        let list = q.zero_log2(n);
        let expected: Vec<u32> = (0..count).collect();
        assert_eq!(list, expected);
        assert_eq!(q.number_of_qubits(), count);
    }
}

#[test]
fn x_targets_by_big_endian_index() {
    let mut q = register();
    q.zeros(5);
    q.x(&[3, 4]).unwrap();
    let list = measure(&q);
    assert_eq!(list.len(), 1);
    assert_eq!(list[0].index, 3);
    assert_eq!(list[0].to_binary_chars(&[0, 1, 2, 3, 4]), Ok(vec!['0', '0', '0', '1', '1']));
    q.x(&[0]).unwrap();
    let list = measure(&q);
    assert_eq!(list[0].index, 19);
    assert_eq!(list[0].to_binary_chars(&[0, 4]), Ok(vec!['1', '1']));
    q.x(&[4, 4, 0]).unwrap();
    let list = measure(&q);
    assert_eq!(list[0].index, 2);
}

#[test]
fn gates_refuse_bad_indices() {
    let mut q = register();
    q.zeros(2);
    let before = amplitudes(&q);
    assert_eq!(q.x(&[2]), Err(QuantumError::IndexOutOfRange));
    assert_eq!(q.x(&[0, 7]), Err(QuantumError::IndexOutOfRange));
    assert_eq!(q.h(&[5], c(E, 0.0), c(-E, 0.0)), Err(QuantumError::IndexOutOfRange));
    assert_eq!(q.cr(phase(1.0), 2, 0), Err(QuantumError::IndexOutOfRange));
    assert_eq!(q.cr(phase(1.0), 0, 2), Err(QuantumError::IndexOutOfRange));
    assert_eq!(
        q.iqft(&[0, 3], &phases(2), c(E, 0.0), c(-E, 0.0)),
        Err(QuantumError::IndexOutOfRange)
    );
    assert_eq!(cr(phase(1.0), 2, 2, 0, c(0.0, 0.0), c(1.0, 0.0), &times).err(), Some(QuantumError::IndexOutOfRange));
    assert_eq!(cr(phase(1.0), 2, 0, 5, c(0.0, 0.0), c(1.0, 0.0), &times).err(), Some(QuantumError::IndexOutOfRange));
    assert_eq!(amplitudes(&q), before);
}

#[test]
fn gates_refuse_an_empty_register() {
    let mut q = register();
    assert_eq!(q.x(&[]), Err(QuantumError::DimensionMismatch));
    assert_eq!(q.x(&[0]), Err(QuantumError::IndexOutOfRange));
    assert_eq!(q.h(&[], c(E, 0.0), c(-E, 0.0)), Err(QuantumError::DimensionMismatch));
    assert_eq!(q.cr(phase(1.0), 0, 0), Err(QuantumError::IndexOutOfRange));
    assert_eq!(q.iqft(&[], &[], c(E, 0.0), c(-E, 0.0)), Ok(()));
    assert_eq!(q.apply(vec![]), Ok(()));
    assert_eq!(q.number_of_qubits(), 0);
}

#[test]
fn apply_refuses_a_wrong_dimension() {
    let mut q = register();
    q.zeros(2);
    let before = amplitudes(&q);
    assert_eq!(q.apply(x(c(0.0, 0.0), c(1.0, 0.0))), Err(QuantumError::DimensionMismatch));
    assert_eq!(q.apply(id(3, c(0.0, 0.0), c(1.0, 0.0))), Err(QuantumError::DimensionMismatch));
    assert_eq!(q.apply(vec![]), Err(QuantumError::DimensionMismatch));
    let mut ragged = id(2, c(0.0, 0.0), c(1.0, 0.0));
    ragged[3].pop();
    assert_eq!(q.apply(ragged), Err(QuantumError::DimensionMismatch));
    assert_eq!(amplitudes(&q), before);
    assert_eq!(q.apply(id(2, c(0.0, 0.0), c(1.0, 0.0))), Ok(()));
    assert_eq!(amplitudes(&q), before);
    let wide: Gate<Complex64> = vec![vec![c(1.0, 0.0); 2]; 2];
    assert_eq!(q.apply_with(&wide, &[0]), Ok(()));
    let three: Gate<Complex64> = vec![vec![c(1.0, 0.0); 3]; 3];
    assert_eq!(q.apply_with(&three, &[0]), Err(QuantumError::DimensionMismatch));
}

#[test]
fn apply_multiplies_rows_by_the_register() {
    let mut q = register();
    q.add(vec![c(2.0, 0.0), c(3.0, 0.0)]);
    let g = vec![vec![c(1.0, 0.0), c(10.0, 0.0)], vec![c(0.0, 1.0), c(0.0, 0.0)]];
    assert_eq!(q.apply(g), Ok(()));
    assert_eq!(amplitudes(&q), vec![c(32.0, 0.0), c(0.0, 2.0)]);
}

#[test]
fn controlled_rotation_turns_where_both_are_set() {
    let theta = 0.3;
    let mut q = register();
    q.zeros(2);
    q.h(&[0, 1], c(E, 0.0), c(-E, 0.0)).unwrap();
    q.cr(phase(theta), 0, 1).unwrap();
    let amps = amplitudes(&q);
    assert!(close(amps[0], c(0.5, 0.0)));
    assert!(close(amps[1], c(0.5, 0.0)));
    assert!(close(amps[2], c(0.5, 0.0)));
    assert!(close(amps[3], phase(theta) * 0.5));
    let mut q = register();
    q.zeros(3);
    q.h(&[0, 1, 2], c(E, 0.0), c(-E, 0.0)).unwrap();
    q.cr(phase(theta), 2, 0).unwrap();
    let amps = amplitudes(&q);
    let half = 0.5 * E;
    for (i, a) in amps.iter().enumerate() {
        if i == 5 || i == 7 {
            assert!(close(*a, phase(theta) * half), "{}", i);
        } else {
            assert!(close(*a, c(half, 0.0)), "{}", i);
        }
    }
}

#[test]
fn gate_matrices() {
    let zero = c(0.0, 0.0);
    let one = c(1.0, 0.0);
    assert_eq!(x(zero, one), vec![vec![zero, one], vec![one, zero]]);
    let e = c(E, 0.0);
    assert_eq!(h(e, c(-E, 0.0)), vec![vec![e, e], vec![e, c(-E, 0.0)]]);
    assert_eq!(id(0, zero, one), vec![vec![one]]);
    assert_eq!(id(1, zero, one), vec![vec![one, zero], vec![zero, one]]);
    let four = id(2, zero, one);
    assert_eq!(four.len(), 4);
    for (i, row) in four.iter().enumerate() {
        assert_eq!(row.len(), 4);
        for (j, v) in row.iter().enumerate() {
            assert_eq!(*v, if i == j { one } else { zero });
        }
    }
    let p = phase(1.25);
    let g = cr(p, 2, 0, 1, zero, one, &times).unwrap();
    assert_eq!(
        g,
        vec![
            vec![one, zero, zero, zero],
            vec![zero, one, zero, zero],
            vec![zero, zero, one, zero],
            vec![zero, zero, zero, p * one],
        ]
    );
    let g = cr(p, 3, 0, 2, zero, one, &times).unwrap();
    for (i, row) in g.iter().enumerate() {
        for (j, v) in row.iter().enumerate() {
            let expected = if i != j {
                zero
            } else if i == 5 || i == 7 {
                p * one
            } else {
                one
            };
            assert_eq!(*v, expected);
        }
    }
    let same = cr(p, 2, 1, 1, zero, one, &times).unwrap();
    assert_eq!(same[1][1], p * one);
    assert_eq!(same[3][3], p * one);
    assert_eq!(same[0][0], one);
    assert_eq!(same[2][2], one);
}

#[test]
fn gate_list_places_the_gate_at_its_targets() {
    let zero = c(0.0, 0.0);
    let one = c(1.0, 0.0);
    let g = x(zero, one);
    let i2 = id(1, zero, one);
    assert_eq!(gate_list(3, &g, &[1], zero, one), vec![i2.clone(), g.clone(), i2.clone()]);
    assert_eq!(gate_list(3, &g, &[2, 0, 2], zero, one), vec![g.clone(), i2.clone(), g.clone()]);
    assert_eq!(gate_list(2, &g, &[], zero, one), vec![i2.clone(), i2.clone()]);
    assert_eq!(gate_list(2, &g, &[5], zero, one), vec![i2.clone(), i2.clone()]);
    assert!(gate_list(0, &g, &[0], zero, one).is_empty());
}

#[test]
fn kronecker_products() {
    let r = |v: f64| c(v, 0.0);
    assert_eq!(
        kron(&vec![r(1.0), r(2.0)], &vec![r(3.0), r(4.0), r(5.0)], &times),
        vec![r(3.0), r(4.0), r(5.0), r(6.0), r(8.0), r(10.0)]
    );
    assert!(kron(&vec![r(1.0)], &vec![], &times).is_empty());
    assert!(kron(&vec![], &vec![r(1.0)], &times).is_empty());
    let m = vec![vec![r(1.0), r(2.0)], vec![r(3.0), r(4.0)]];
    let n = vec![vec![r(0.0), r(5.0)], vec![r(6.0), r(7.0)]];
    assert_eq!(
        tensor(&m, &n, &times),
        vec![
            vec![r(0.0), r(5.0), r(0.0), r(10.0)],
            vec![r(6.0), r(7.0), r(12.0), r(14.0)],
            vec![r(0.0), r(15.0), r(0.0), r(20.0)],
            vec![r(18.0), r(21.0), r(24.0), r(28.0)],
        ]
    );
    let list = vec![m.clone(), n.clone(), m.clone()];
    assert_eq!(tensor_with(&list, &times), tensor(&tensor(&m, &n, &times), &m, &times));
    assert_eq!(tensor_with(&vec![n.clone()], &times), n);
    assert_eq!(copy_matrix(&m), m);
    assert_eq!(copy_vector(&m[1]), m[1]);
    assert_eq!(
        product(&m, &vec![r(10.0), r(100.0)], r(0.0), &times, &plus),
        vec![r(210.0), r(430.0)]
    );
}

#[test]
fn inverse_fourier_transform_of_basis_and_uniform_states() {
    let e = c(E, 0.0);
    let m = c(-E, 0.0);
    let mut q = register();
    q.zeros(3);
    assert_eq!(q.iqft(&[0, 1, 2], &phases(3), e, m), Ok(()));
    let list = measure(&q);
    assert_eq!(list.len(), 8);
    for (i, s) in list.iter().enumerate() {
        assert_eq!(s.index, i);
        assert!(close(s.amp, c(0.5 * E, 0.0)));
        assert!((s.prob - 0.125).abs() < 1e-12);
    }
    let mut q = register();
    q.zeros(3);
    q.h(&[0, 1, 2], e, m).unwrap();
    assert_eq!(q.iqft(&[0, 1, 2], &phases(3), e, m), Ok(()));
    let list = measure(&q);
    assert_eq!(list.len(), 1);
    assert_eq!(list[0].index, 0);
    assert!((list[0].prob - 1.0).abs() < 1e-12);
}

#[test]
fn inverse_fourier_transform_follows_its_schedule() {
    let e = c(E, 0.0);
    let m = c(-E, 0.0);
    let table = phases(3);
    let prepare = || {
        let mut q = register();
        q.zeros(4);
        q.h(&[0, 1, 2, 3], e, m).unwrap();
        q.cr(phase(0.4), 0, 1).unwrap();
        q.cr(phase(1.1), 3, 2).unwrap();
        q.x(&[1]).unwrap();
        q
    };
    let mut by_call = prepare();
    assert_eq!(by_call.iqft(&[1, 3, 0], &table, e, m), Ok(()));
    let mut by_hand = prepare();
    by_hand.h(&[0], e, m).unwrap();
    by_hand.cr(table[2], 0, 3).unwrap();
    by_hand.h(&[3], e, m).unwrap();
    by_hand.cr(table[3], 0, 1).unwrap();
    by_hand.cr(table[2], 3, 1).unwrap();
    by_hand.h(&[1], e, m).unwrap();
    assert_eq!(amplitudes(&by_call), amplitudes(&by_hand));
}

#[test]
fn inverse_fourier_transform_finds_a_phase() {
    let e = c(E, 0.0);
    let m = c(-E, 0.0);
    for value in 0..8usize {
        let mut q = register();
        let mut amps = vec![];
        for k in 0..8usize {
            let reversed = ((k & 1) << 2) | (k & 2) | ((k & 4) >> 2);
            let angle = 2.0 * std::f64::consts::PI * (reversed as f64) * (value as f64) / 8.0;
            amps.push(phase(angle) * (0.5 * E));
        }
        q.add(vec![c(1.0, 0.0), c(0.0, 0.0)]);
        q.zeros(2);
        let load: Gate<Complex64> = (0..8)
            .map(|i| (0..8).map(|j| if j == 0 { amps[i] } else { c(0.0, 0.0) }).collect())
            .collect();
        q.apply(load).unwrap();
        q.iqft(&[0, 1, 2], &phases(3), e, m).unwrap();
        let list = measure(&q);
        assert_eq!(list.len(), 1, "value {}", value);
        assert!((list[0].prob - 1.0).abs() < 1e-9);
        assert_eq!(list[0].index, value, "value {}", value);
    }
}

#[test]
fn inverse_fourier_transform_needs_its_phases() {
    let e = c(E, 0.0);
    let m = c(-E, 0.0);
    let mut q = register();
    q.zeros(3);
    let before = amplitudes(&q);
    assert_eq!(q.iqft(&[0, 1], &phases(1), e, m), Err(QuantumError::DimensionMismatch));
    assert_eq!(q.iqft(&[0, 1, 2], &[], e, m), Err(QuantumError::DimensionMismatch));
    assert_eq!(amplitudes(&q), before);
    assert_eq!(q.iqft(&[1], &[], e, m), Ok(()));
    assert_eq!(q.iqft(&[], &[], e, m), Ok(()));
    assert_eq!(q.iqft(&[0, 1], &phases(2), e, m), Ok(()));
}

#[test]
fn state_rounds_and_skips() {
    let mut q = register();
    q.add(vec![c(1e-14, 0.5), c(1e-14, -1e-15)]);
    let list = measure(&q);
    assert_eq!(list.len(), 1);
    assert_eq!(list[0].index, 0);
    assert_eq!(list[0].amp, c(0.0, 0.5));
    assert_eq!(list[0].prob, 0.25);
    assert_eq!(list[0].number_of_qubits, 1);
    let again = measure(&q);
    assert_eq!(again.len(), 1);
    assert_eq!(again[0].amp, c(0.0, 0.5));
    assert_eq!(amplitudes(&q), vec![c(1e-14, 0.5), c(1e-14, -1e-15)]);
}
