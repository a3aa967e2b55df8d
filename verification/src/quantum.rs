//! The register engine: a dense vector of amplitudes that grows by
//! Kronecker products and changes under operators, over an amplitude type
//! whose arithmetic the caller supplies.
//!
//! Qubit `0` is the most significant bit of a basis state's index: in a
//! register of `n` qubits, qubit `q` is bit `n - 1 - q`.
use crate::closure::{is_map, is_operation, lemma_result_of, lemma_value_of, map_of, operation};
use crate::linear::{
    copy_matrix, is_square, kron, kron_of, lemma_tensor_fold_square, matrices_of, matrix_of,
    product, product_of, tensor_fold, tensor_with,
};
use crate::number::{bit_length, bit_length_of, lemma_bit_length_bounds};
use vstd::arithmetic::div_mod::*;
use vstd::arithmetic::power2::*;
use vstd::prelude::*;

verus! {

/// A vector of amplitudes.
pub type Qubit<T> = Vec<T>;

/// A matrix of amplitudes, by rows.
pub type Gate<T> = Vec<Vec<T>>;

/// The binary digits of a basis state's index.
pub type BinaryChars = Vec<char>;

/// Why an operation on a register was refused.
#[derive(Clone, Copy, Debug, PartialEq, Eq, Structural)]
pub enum QuantumError {
    /// An operator's dimension is not that of the register, or a table is
    /// too short for the operation.
    DimensionMismatch,
    /// A qubit index is not below the number of qubits.
    IndexOutOfRange,
}

/// Bit `p` of `i`, counted from the least significant.
pub open spec fn bit_at(i: nat, p: nat) -> bool {
    (i / pow2(p)) % 2 == 1
}

/// The whole part of the binary logarithm of `n`, and zero for zero.
pub open spec fn log2_floor(n: nat) -> nat
    decreases n,
{
    if n < 2 {
        0
    } else {
        1 + log2_floor(n / 2)
    }
}

/// The number of digits that the binary form of the index `i` takes in a
/// register of `nob` qubits: `nob`, or more where `i` needs more.
pub open spec fn binary_width(i: nat, nob: nat) -> nat {
    if bit_length(i) >= nob {
        bit_length(i)
    } else {
        nob
    }
}

/// The binary form of `i`, most significant digit first, with leading zeros
/// up to `nob` digits.
pub open spec fn binary_chars(i: nat, nob: nat) -> Seq<char> {
    Seq::new(
        binary_width(i, nob),
        |k: int|
            if bit_at(i, (binary_width(i, nob) - 1 - k) as nat) {
                '1'
            } else {
                '0'
            },
    )
}

/// In a register of `nob` qubits, the digit at position `q` of the binary
/// form of a basis state's index shows whether qubit `q` is set in it: it
/// is bit `nob - 1 - q` of the index.
pub proof fn lemma_binary_chars_show_qubits(i: nat, nob: nat, q: nat)
    requires
        i < pow2(nob),
        q < nob,
    ensures
        binary_chars(i, nob).len() == nob,
        binary_chars(i, nob)[q as int] == (if bit_at(i, (nob - 1 - q) as nat) {
            '1'
        } else {
            '0'
        }),
{
    lemma_bit_length_bounds(i);
    if bit_length(i) > nob {
        if bit_length(i) - 1 > nob {
            lemma_pow2_strictly_increases(nob, (bit_length(i) - 1) as nat);
        }
    }
}

/// The binary logarithm of a power of two is its exponent.
pub proof fn lemma_log2_floor_pow2(e: nat)
    ensures
        log2_floor(pow2(e)) == e,
    decreases e,
{
    lemma2_to64();
    if e > 0 {
        lemma_pow2_unfold(e);
        lemma_pow2_pos((e - 1) as nat);
        lemma_log2_floor_pow2((e - 1) as nat);
    }
}

/// The number of binary digits is one more than the binary logarithm.
pub proof fn lemma_bit_length_is_log2(n: nat)
    ensures
        bit_length(n) == log2_floor(n) + 1,
    decreases n,
{
    if n >= 2 {
        lemma_bit_length_is_log2(n / 2);
    }
}

/// Two to the power `e`.
pub fn pow2_usize(e: u32) -> (p: usize)
    requires
        pow2(e as nat) <= usize::MAX,
    ensures
        p == pow2(e as nat),
{
    let mut p: usize = 1;
    let mut k: u32 = 0;
    proof {
        lemma2_to64();
    }
    while k < e
        invariant
            k <= e,
            p == pow2(k as nat),
            pow2(e as nat) <= usize::MAX,
        decreases e - k,
    {
        proof {
            lemma_pow2_unfold((k + 1) as nat);
            if k + 1 < e {
                lemma_pow2_strictly_increases((k + 1) as nat, e as nat);
            }
        }
        p = p * 2;
        k += 1;
    }
    p
}

/// The number of binary digits of `i`; zero has one digit.
pub fn bit_length_usize(i: usize) -> (s: u32)
    ensures
        s == bit_length(i as nat),
        1 <= s <= 64,
{
    let mut m: usize = i;
    let mut s: u32 = 1;
    proof {
        lemma_bit_length_bounds(i as nat);
        lemma2_to64();
        lemma2_to64_rest();
        if bit_length(i as nat) > 64 {
            lemma_pow2_strictly_increases(64, (bit_length(i as nat) - 1) as nat);
        }
    }
    while m >= 2
        invariant
            s >= 1,
            bit_length(i as nat) <= 64,
            s - 1 + bit_length(m as nat) == bit_length(i as nat),
        decreases m,
    {
        m = m / 2;
        s += 1;
    }
    s
}

/// Whether bit `p` of `i` is set.
pub fn bit_of(i: usize, p: usize) -> (set: bool)
    ensures
        set == bit_at(i as nat, p as nat),
{
    let digits = bit_length_usize(i);
    proof {
        lemma_bit_length_bounds(i as nat);
        lemma_pow2_pos(p as nat);
    }
    if p >= digits as usize {
        proof {
            if p > digits {
                lemma_pow2_strictly_increases(digits as nat, p as nat);
            }
            lemma_basic_div(i as int, pow2(p as nat) as int);
        }
        false
    } else {
        proof {
            lemma2_to64();
            if p + 1 < digits {
                lemma_pow2_strictly_increases(p as nat, (digits - 1) as nat);
            }
        }
        let mask = pow2_usize(p as u32);
        (i / mask) % 2 == 1
    }
}

/// The binary form of `i`, most significant digit first, with leading zeros
/// up to `nob` digits.
pub fn to_binary_chars(i: usize, nob: usize) -> (bin: BinaryChars)
    ensures
        bin@ == binary_chars(i as nat, nob as nat),
{
    let digits = bit_length_usize(i) as usize;
    let width = if digits >= nob {
        digits
    } else {
        nob
    };
    let mut bin: Vec<char> = Vec::new();
    let mut k: usize = 0;
    while k < width
        invariant
            k <= width,
            width == binary_width(i as nat, nob as nat),
            bin@.len() == k,
            forall|j: int| 0 <= j < k ==> #[trigger] bin@[j] == binary_chars(i as nat, nob as nat)[j],
        decreases width - k,
    {
        if bit_of(i, width - 1 - k) {
            bin.push('1');
        } else {
            bin.push('0');
        }
        k += 1;
    }
    bin
}

/// The identity matrix of dimension `dim`: `one` on the diagonal and `zero`
/// elsewhere.
pub open spec fn identity_of<T>(dim: nat, zero: T, one: T) -> Seq<Seq<T>> {
    Seq::new(
        dim,
        |i: int|
            Seq::new(
                dim,
                |j: int|
                    if i == j {
                        one
                    } else {
                        zero
                    },
            ),
    )
}

/// The Pauli-X matrix, which exchanges the two basis states of a qubit.
pub open spec fn pauli_x_of<T>(zero: T, one: T) -> Seq<Seq<T>> {
    seq![seq![zero, one], seq![one, zero]]
}

/// The Hadamard matrix with entry `e`, which stands for the inverse of the
/// square root of two, and last entry `minus_e`, which stands for its
/// negative.
pub open spec fn hadamard_of<T>(e: T, minus_e: T) -> Seq<Seq<T>> {
    seq![seq![e, e], seq![e, minus_e]]
}

/// Whether the controlled rotation acts on basis state `i` of a register of
/// `nob` qubits: both the control and the target qubit are set in it.
pub open spec fn both_set(i: nat, nob: nat, control: nat, target: nat) -> bool {
    bit_at(i, (nob - 1 - control) as nat) && bit_at(i, (nob - 1 - target) as nat)
}

/// The controlled phase rotation on `nob` qubits: the identity, but for the
/// diagonal entries of the basis states in which control and target are both
/// set, which are `phase` times `one`.
pub open spec fn rotation_of<T>(
    phase: T,
    nob: nat,
    control: nat,
    target: nat,
    zero: T,
    one: T,
    times: spec_fn(T, T) -> T,
) -> Seq<Seq<T>> {
    Seq::new(
        pow2(nob),
        |i: int|
            Seq::new(
                pow2(nob),
                |j: int|
                    if i != j {
                        zero
                    } else if both_set(i as nat, nob, control, target) {
                        times(phase, one)
                    } else {
                        one
                    },
            ),
    )
}

/// Whether `q` is one of the qubit indices `qb`.
pub open spec fn is_target(qb: Seq<u32>, q: int) -> bool {
    exists|k: int| 0 <= k < qb.len() && #[trigger] qb[k] == q
}

/// One matrix for each of `nob` qubits: `g` for the qubits among `qb`, the
/// identity of dimension two for the others.
pub open spec fn gate_list_of<T>(nob: nat, g: Seq<Seq<T>>, qb: Seq<u32>, zero: T, one: T) -> Seq<
    Seq<Seq<T>>,
> {
    Seq::new(
        nob,
        |q: int|
            if is_target(qb, q) {
                g
            } else {
                identity_of(2, zero, one)
            },
    )
}

/// The identity matrix on `nob` qubits.
pub fn id<T: Copy>(nob: u32, zero: T, one: T) -> (g: Gate<T>)
    requires
        pow2(nob as nat) <= usize::MAX,
    ensures
        matrix_of(g) == identity_of(pow2(nob as nat), zero, one),
{
    let dim = pow2_usize(nob);
    let mut g: Vec<Vec<T>> = Vec::new();
    let mut i: usize = 0;
    while i < dim
        invariant
            i <= dim,
            g@.len() == i,
            forall|r: int| 0 <= r < i ==> (#[trigger] g@[r])@ == identity_of(dim as nat, zero, one)[r],
        decreases dim - i,
    {
        let mut row: Vec<T> = Vec::new();
        let mut j: usize = 0;
        while j < dim
            invariant
                i < dim,
                j <= dim,
                row@.len() == j,
                forall|c: int|
                    0 <= c < j ==> #[trigger] row@[c] == (if i == c {
                        one
                    } else {
                        zero
                    }),
            decreases dim - j,
        {
            if i == j {
                row.push(one);
            } else {
                row.push(zero);
            }
            j += 1;
        }
        g.push(row);
        i += 1;
    }
    g
}

/// The Pauli-X matrix.
pub fn x<T: Copy>(zero: T, one: T) -> (g: Gate<T>)
    ensures
        matrix_of(g) == pauli_x_of(zero, one),
{
    let mut first: Vec<T> = Vec::new();
    first.push(zero);
    first.push(one);
    let mut second: Vec<T> = Vec::new();
    second.push(one);
    second.push(zero);
    let mut g: Vec<Vec<T>> = Vec::new();
    g.push(first);
    g.push(second);
    assert(g@[0]@ =~= seq![zero, one]);
    assert(g@[1]@ =~= seq![one, zero]);
    g
}

/// The Hadamard matrix with entry `e` and last entry `minus_e`.
pub fn h<T: Copy>(e: T, minus_e: T) -> (g: Gate<T>)
    ensures
        matrix_of(g) == hadamard_of(e, minus_e),
{
    let mut first: Vec<T> = Vec::new();
    first.push(e);
    first.push(e);
    let mut second: Vec<T> = Vec::new();
    second.push(e);
    second.push(minus_e);
    let mut g: Vec<Vec<T>> = Vec::new();
    g.push(first);
    g.push(second);
    assert(g@[0]@ =~= seq![e, e]);
    assert(g@[1]@ =~= seq![e, minus_e]);
    g
}

/// The controlled phase rotation on `nob` qubits. A control or target that
/// is not below `nob` is refused.
pub fn cr<T: Copy, M: Fn(T, T) -> T>(
    phase: T,
    nob: u32,
    control: u32,
    target: u32,
    zero: T,
    one: T,
    times: &M,
) -> (gate: Result<Gate<T>, QuantumError>)
    requires
        is_operation(*times),
        pow2(nob as nat) <= usize::MAX,
    ensures
        match gate {
            Ok(g) => {
                &&& control < nob && target < nob
                &&& matrix_of(g) == rotation_of(
                    phase,
                    nob as nat,
                    control as nat,
                    target as nat,
                    zero,
                    one,
                    operation(*times),
                )
            },
            Err(e) => e == QuantumError::IndexOutOfRange && (control >= nob || target >= nob),
        },
{
    if control >= nob || target >= nob {
        return Err(QuantumError::IndexOutOfRange);
    }
    let dim = pow2_usize(nob);
    let rotated = times(phase, one);
    proof {
        lemma_result_of(*times, phase, one, rotated);
    }
    let ghost want = rotation_of(
        phase,
        nob as nat,
        control as nat,
        target as nat,
        zero,
        one,
        operation(*times),
    );
    let mut g: Vec<Vec<T>> = Vec::new();
    let mut i: usize = 0;
    while i < dim
        invariant
            i <= dim,
            dim == pow2(nob as nat),
            control < nob,
            target < nob,
            rotated == operation(*times)(phase, one),
            want == rotation_of(
                phase,
                nob as nat,
                control as nat,
                target as nat,
                zero,
                one,
                operation(*times),
            ),
            g@.len() == i,
            forall|r: int| 0 <= r < i ==> (#[trigger] g@[r])@ == want[r],
        decreases dim - i,
    {
        let turn = bit_of(i, (nob - 1 - control) as usize) && bit_of(i, (nob - 1 - target) as usize);
        let mut row: Vec<T> = Vec::new();
        let mut j: usize = 0;
        while j < dim
            invariant
                i < dim,
                j <= dim,
                dim == pow2(nob as nat),
                turn == both_set(i as nat, nob as nat, control as nat, target as nat),
                want == rotation_of(
                    phase,
                    nob as nat,
                    control as nat,
                    target as nat,
                    zero,
                    one,
                    operation(*times),
                ),
                rotated == operation(*times)(phase, one),
                row@.len() == j,
                forall|c: int| 0 <= c < j ==> #[trigger] row@[c] == want[i as int][c],
            decreases dim - j,
        {
            if i != j {
                row.push(zero);
            } else if turn {
                row.push(rotated);
            } else {
                row.push(one);
            }
            j += 1;
        }
        g.push(row);
        i += 1;
    }
    Ok(g)
}

/// One matrix for each of `nob` qubits: a copy of `g` for the qubits among
/// `qb`, the identity on one qubit for the others.
pub fn gate_list<T: Copy>(nob: u32, g: &Gate<T>, qb: &[u32], zero: T, one: T) -> (list: Vec<
    Gate<T>,
>)
    ensures
        matrices_of(list) == gate_list_of(nob as nat, matrix_of(*g), qb@, zero, one),
{
    let mut list: Vec<Vec<Vec<T>>> = Vec::new();
    let mut i: u32 = 0;
    proof {
        lemma2_to64();
    }
    while i < nob
        invariant
            i <= nob,
            list@.len() == i,
            forall|q: int|
                0 <= q < i ==> matrix_of(#[trigger] list@[q]) == gate_list_of(
                    nob as nat,
                    matrix_of(*g),
                    qb@,
                    zero,
                    one,
                )[q],
        decreases nob - i,
    {
        let mut found = false;
        let mut k: usize = 0;
        while k < qb.len()
            invariant_except_break
                k <= qb@.len(),
                !found,
                forall|j: int| 0 <= j < k ==> #[trigger] qb@[j] != i,
            ensures
                found == is_target(qb@, i as int),
            decreases qb@.len() - k,
        {
            if i == qb[k] {
                found = true;
                break ;
            }
            k += 1;
        }
        proof {
            lemma2_to64();
        }
        if found {
            list.push(copy_matrix(g));
        } else {
            list.push(id(1, zero, one));
        }
        i += 1;
    }
    list
}

/// A single qubit in the basis state zero.
pub open spec fn ket_zero<T>(zero: T, one: T) -> Seq<T> {
    seq![one, zero]
}

/// The register `v` with the qubit `qb` added behind its last qubit: `qb`
/// itself where the register was empty, the Kronecker product otherwise.
pub open spec fn grown<T>(v: Seq<T>, qb: Seq<T>, times: spec_fn(T, T) -> T) -> Seq<T> {
    if v.len() == 0 {
        qb
    } else {
        kron_of(v, qb, times)
    }
}

/// The register `v` with `n` qubits in the basis state zero added one after
/// the other.
pub open spec fn with_zeros<T>(v: Seq<T>, n: nat, zero: T, one: T, times: spec_fn(T, T) -> T) -> Seq<
    T,
>
    decreases n,
{
    if n == 0 {
        v
    } else {
        grown(with_zeros(v, (n - 1) as nat, zero, one, times), ket_zero(zero, one), times)
    }
}

/// A vector has the length of a register: none, or a power of two from two
/// on.
pub open spec fn is_register_len(len: nat) -> bool {
    len == 0 || (len >= 2 && len == pow2(log2_floor(len)))
}

/// Every qubit index of `qb` is below `nob`.
pub open spec fn targets_below(qb: Seq<u32>, nob: nat) -> bool {
    forall|k: int| 0 <= k < qb.len() ==> #[trigger] qb[k] < nob
}

/// The operator on `nob` qubits that applies `g` to each of the qubits `qb`
/// and leaves the others alone: the Kronecker product, qubit by qubit, of
/// `g` or the identity.
pub open spec fn operator_of<T>(
    nob: nat,
    g: Seq<Seq<T>>,
    qb: Seq<u32>,
    zero: T,
    one: T,
    times: spec_fn(T, T) -> T,
) -> Seq<Seq<T>> {
    tensor_fold(gate_list_of(nob, g, qb, zero, one), nob, times)
}

/// How the application of `g` to the qubits `qb` of a register of length
/// `len` ends: a qubit index that is not below the number of qubits is
/// refused first; then a register without qubits, and an operator that is
/// not of the register's dimension.
pub open spec fn gate_outcome<T>(
    len: nat,
    g: Seq<Seq<T>>,
    qb: Seq<u32>,
    zero: T,
    one: T,
    times: spec_fn(T, T) -> T,
) -> Result<(), QuantumError> {
    let nob = log2_floor(len);
    if !targets_below(qb, nob) {
        Err(QuantumError::IndexOutOfRange)
    } else if nob == 0 || !is_square(operator_of(nob, g, qb, zero, one, times), len) {
        Err(QuantumError::DimensionMismatch)
    } else {
        Ok(())
    }
}

/// The register `v` of `nob` qubits after `g` was applied to its qubits
/// `qb`.
pub open spec fn after_gate<T>(
    v: Seq<T>,
    nob: nat,
    g: Seq<Seq<T>>,
    qb: Seq<u32>,
    zero: T,
    one: T,
    times: spec_fn(T, T) -> T,
    plus: spec_fn(T, T) -> T,
) -> Seq<T> {
    product_of(operator_of(nob, g, qb, zero, one, times), v, zero, times, plus)
}

/// The register `v` of `nob` qubits after a controlled rotation by `phase`.
pub open spec fn after_rotation<T>(
    v: Seq<T>,
    phase: T,
    nob: nat,
    control: nat,
    target: nat,
    zero: T,
    one: T,
    times: spec_fn(T, T) -> T,
    plus: spec_fn(T, T) -> T,
) -> Seq<T> {
    product_of(rotation_of(phase, nob, control, target, zero, one, times), v, zero, times, plus)
}

/// The register `v` after the rotations of the inverse Fourier transform
/// that have the qubit at position `i` of `qb` as their target and the
/// qubits at the positions from the last down to `j` as their controls, in
/// that order. The rotation between positions `j` and `i` is by
/// `phases[j - i + 1]`.
pub open spec fn after_rotations<T>(
    v: Seq<T>,
    nob: nat,
    qb: Seq<u32>,
    phases: Seq<T>,
    i: int,
    j: int,
    zero: T,
    one: T,
    times: spec_fn(T, T) -> T,
    plus: spec_fn(T, T) -> T,
) -> Seq<T>
    decreases qb.len() - j,
{
    if j >= qb.len() {
        v
    } else {
        after_rotation(
            after_rotations(v, nob, qb, phases, i, j + 1, zero, one, times, plus),
            phases[j - i + 1],
            nob,
            qb[j] as nat,
            qb[i] as nat,
            zero,
            one,
            times,
            plus,
        )
    }
}

/// The register `v` after the steps of the inverse Fourier transform for
/// the positions of `qb` from the last down to `i`: for each position, its
/// rotations and then the matrix `hadamard` on its qubit.
pub open spec fn after_iqft<T>(
    v: Seq<T>,
    nob: nat,
    qb: Seq<u32>,
    phases: Seq<T>,
    hadamard: Seq<Seq<T>>,
    i: int,
    zero: T,
    one: T,
    times: spec_fn(T, T) -> T,
    plus: spec_fn(T, T) -> T,
) -> Seq<T>
    decreases qb.len() - i,
{
    if i >= qb.len() {
        v
    } else {
        after_gate(
            after_rotations(
                after_iqft(v, nob, qb, phases, hadamard, i + 1, zero, one, times, plus),
                nob,
                qb,
                phases,
                i,
                i + 1,
                zero,
                one,
                times,
                plus,
            ),
            nob,
            hadamard,
            seq![qb[i]],
            zero,
            one,
            times,
            plus,
        )
    }
}

/// The operator that applies a matrix of dimension two to qubits of a
/// register with at least one qubit has the register's dimension.
pub proof fn lemma_gate_fits<T>(
    len: nat,
    g: Seq<Seq<T>>,
    qb: Seq<u32>,
    zero: T,
    one: T,
    times: spec_fn(T, T) -> T,
)
    requires
        is_register_len(len),
        len > 0,
        is_square(g, 2),
    ensures
        log2_floor(len) >= 1,
        is_square(operator_of(log2_floor(len), g, qb, zero, one, times), len),
{
    let nob = log2_floor(len);
    let list = gate_list_of(nob, g, qb, zero, one);
    assert forall|q: int| 0 <= q < nob implies is_square(#[trigger] list[q], 2) by {
        assert(is_square(identity_of(2, zero, one), 2));
    }
    lemma_tensor_fold_square(list, nob, times);
}

/// The measured states among the first `k` basis states of the register
/// `v` of `nob` qubits, by ascending index: those whose rounded amplitude
/// `is_zero` does not accept, each with its rounded amplitude and the
/// probability of that.
pub open spec fn measured<T, P>(
    v: Seq<T>,
    k: nat,
    nob: nat,
    round: spec_fn(T) -> T,
    is_zero: spec_fn(T) -> bool,
    prob: spec_fn(T) -> P,
) -> Seq<State<T, P>>
    decreases k,
{
    if k == 0 {
        Seq::empty()
    } else {
        let rest = measured(v, (k - 1) as nat, nob, round, is_zero, prob);
        let amp = round(v[k - 1]);
        if is_zero(amp) {
            rest
        } else {
            rest.push(
                State {
                    number_of_qubits: nob as u32,
                    index: (k - 1) as usize,
                    amp,
                    prob: prob(amp),
                },
            )
        }
    }
}

/// The measured states come by ascending index, and each index is below
/// the number of basis states looked at.
pub proof fn lemma_measured_ascending<T, P>(
    v: Seq<T>,
    k: nat,
    nob: nat,
    round: spec_fn(T) -> T,
    is_zero: spec_fn(T) -> bool,
    prob: spec_fn(T) -> P,
)
    requires
        k <= usize::MAX,
    ensures
        measured(v, k, nob, round, is_zero, prob).len() <= k,
        forall|a: int|
            0 <= a < measured(v, k, nob, round, is_zero, prob).len() ==> (#[trigger] measured(
                v,
                k,
                nob,
                round,
                is_zero,
                prob,
            )[a]).index < k,
        forall|a: int, b: int|
            0 <= a < b < measured(v, k, nob, round, is_zero, prob).len() ==> (#[trigger] measured(
                v,
                k,
                nob,
                round,
                is_zero,
                prob,
            )[a]).index < (#[trigger] measured(v, k, nob, round, is_zero, prob)[b]).index,
    decreases k,
{
    if k > 0 {
        lemma_measured_ascending(v, (k - 1) as nat, nob, round, is_zero, prob);
    }
}

/// A register of qubits: the amplitudes of its basis states, with the
/// arithmetic of the amplitude type.
pub struct Q<T, M, A> {
    qb: Qubit<T>,
    zero: T,
    one: T,
    times: M,
    plus: A,
}

impl<T: Copy, M: Fn(T, T) -> T, A: Fn(T, T) -> T> Q<T, M, A> {
    /// The amplitudes of the register, by the index of the basis state.
    pub closed spec fn view(&self) -> Seq<T> {
        self.qb@
    }

    /// The amplitude zero.
    pub closed spec fn zero_of(&self) -> T {
        self.zero
    }

    /// The amplitude one.
    pub closed spec fn one_of(&self) -> T {
        self.one
    }

    /// The product of two amplitudes.
    pub closed spec fn times_of(&self) -> spec_fn(T, T) -> T {
        operation(self.times)
    }

    /// The sum of two amplitudes.
    pub closed spec fn plus_of(&self) -> spec_fn(T, T) -> T {
        operation(self.plus)
    }

    /// The register is well formed: its arithmetic is made of operations and
    /// its length is that of a register.
    pub closed spec fn wf(&self) -> bool {
        &&& is_operation(self.times)
        &&& is_operation(self.plus)
        &&& is_register_len(self.qb@.len())
    }

    /// The number of qubits of the register.
    pub open spec fn qubits(&self) -> nat {
        log2_floor(self@.len())
    }

    /// The two registers have the same arithmetic.
    pub closed spec fn same_arithmetic(&self, other: &Self) -> bool {
        &&& self.zero == other.zero
        &&& self.one == other.one
        &&& self.times == other.times
        &&& self.plus == other.plus
    }

    /// Registers with the same arithmetic agree on zero, one, products and
    /// sums; a well-formed register's length is that of a register; and the
    /// length of any register fits a machine word.
    pub proof fn lemma_arithmetic(&self, other: &Self)
        ensures
            self.same_arithmetic(self),
            self.same_arithmetic(other) ==> {
                &&& self.zero_of() == other.zero_of()
                &&& self.one_of() == other.one_of()
                &&& self.times_of() == other.times_of()
                &&& self.plus_of() == other.plus_of()
                &&& other.same_arithmetic(self)
            },
            self.wf() ==> is_register_len(self@.len()),
            self@.len() <= usize::MAX,
    {
        assert(self.qb.len() == self.qb@.len());
    }

    /// An empty register over the given arithmetic.
    pub fn new(zero: T, one: T, times: M, plus: A) -> (q: Self)
        requires
            is_operation(times),
            is_operation(plus),
        ensures
            q.wf(),
            q@.len() == 0,
            q.zero_of() == zero,
            q.one_of() == one,
            q.times_of() == operation(times),
            q.plus_of() == operation(plus),
    {
        Q { qb: Vec::new(), zero, one, times, plus }
    }

    /// The number of qubits of the register.
    pub fn number_of_qubits(&self) -> (n: u32)
        ensures
            n == self.qubits(),
            n < 64,
    {
        let mut m: usize = self.qb.len();
        let mut n: u32 = 0;
        proof {
            lemma_bit_length_is_log2(m as nat);
            lemma_bit_length_bounds(m as nat);
            lemma2_to64();
            lemma2_to64_rest();
            if log2_floor(m as nat) >= 64 {
                if log2_floor(m as nat) > 64 {
                    lemma_pow2_strictly_increases(64, log2_floor(m as nat));
                }
            }
        }
        while m >= 2
            invariant
                log2_floor(self.qb@.len()) < 64,
                n + log2_floor(m as nat) == log2_floor(self.qb@.len()),
            decreases m,
        {
            m = m / 2;
            n += 1;
        }
        n
    }

    fn tensor(&mut self, qb: &Qubit<T>)
        requires
            is_operation(old(self).times),
        ensures
            final(self).same_arithmetic(old(self)),
            final(self)@ == kron_of(old(self)@, qb@, old(self).times_of()),
    {
        let v = kron(&self.qb, qb, &self.times);
        self.qb = v;
    }

    /// Adds the qubit with amplitudes `qb` behind the last qubit and returns
    /// its index.
    pub fn add(&mut self, qb: Qubit<T>) -> (index: u32)
        requires
            old(self).wf(),
            qb@.len() == 2,
        ensures
            final(self).wf(),
            final(self).same_arithmetic(old(self)),
            final(self)@ == grown(old(self)@, qb@, old(self).times_of()),
            final(self).qubits() == old(self).qubits() + 1,
            index == old(self).qubits(),
    {
        proof {
            lemma2_to64();
            lemma_log2_floor_pow2(1);
        }
        if self.qb.len() == 0 {
            self.qb = qb;
            return 0;
        }
        self.tensor(&qb);
        proof {
            let n = log2_floor(old(self)@.len());
            lemma_pow2_unfold(n + 1);
            lemma_log2_floor_pow2(n + 1);
        }
        self.number_of_qubits() - 1
    }

    /// Adds a qubit in the basis state zero and returns its index.
    pub fn zero(&mut self) -> (index: u32)
        requires
            old(self).wf(),
        ensures
            final(self).wf(),
            final(self).same_arithmetic(old(self)),
            final(self)@ == grown(
                old(self)@,
                ket_zero(old(self).zero_of(), old(self).one_of()),
                old(self).times_of(),
            ),
            final(self).qubits() == old(self).qubits() + 1,
            index == old(self).qubits(),
    {
        let mut ket: Vec<T> = Vec::new();
        ket.push(self.one);
        ket.push(self.zero);
        self.add(ket)
    }

    /// Adds `n` qubits in the basis state zero and returns their indices.
    pub fn zeros(&mut self, n: u32) -> (list: Vec<u32>)
        requires
            old(self).wf(),
        ensures
            final(self).wf(),
            final(self).same_arithmetic(old(self)),
            final(self)@ == with_zeros(
                old(self)@,
                n as nat,
                old(self).zero_of(),
                old(self).one_of(),
                old(self).times_of(),
            ),
            final(self).qubits() == old(self).qubits() + n,
            list@.len() == n,
            forall|k: int| 0 <= k < n ==> #[trigger] list@[k] == old(self).qubits() + k,
    {
        let mut list: Vec<u32> = Vec::new();
        let mut i: u32 = 0;
        while i < n
            invariant
                i <= n,
                self.wf(),
                self.same_arithmetic(old(self)),
                self@ == with_zeros(
                    old(self)@,
                    i as nat,
                    old(self).zero_of(),
                    old(self).one_of(),
                    old(self).times_of(),
                ),
                self.qubits() == old(self).qubits() + i,
                list@.len() == i,
                forall|k: int| 0 <= k < i ==> #[trigger] list@[k] == old(self).qubits() + k,
            decreases n - i,
        {
            proof {
                self.lemma_arithmetic(old(self));
            }
            let index = self.zero();
            list.push(index);
            i += 1;
        }
        list
    }

    /// Adds as many qubits in the basis state zero as `n` has binary digits,
    /// which is enough to hold every number up to `n`, and returns their
    /// indices.
    pub fn zero_log2(&mut self, n: u32) -> (list: Vec<u32>)
        requires
            old(self).wf(),
        ensures
            final(self).wf(),
            final(self).same_arithmetic(old(self)),
            final(self)@ == with_zeros(
                old(self)@,
                bit_length(n as nat),
                old(self).zero_of(),
                old(self).one_of(),
                old(self).times_of(),
            ),
            final(self).qubits() == old(self).qubits() + bit_length(n as nat),
            list@.len() == bit_length(n as nat),
            forall|k: int|
                0 <= k < bit_length(n as nat) ==> #[trigger] list@[k] == old(self).qubits() + k,
    {
        let log2n = bit_length_of(n);
        self.zeros(log2n)
    }

    /// Multiplies the register by the operator `g`, which must be square
    /// and of the register's dimension; any other matrix is refused and
    /// leaves the register as it was.
    pub fn apply(&mut self, g: Gate<T>) -> (done: Result<(), QuantumError>)
        requires
            old(self).wf(),
        ensures
            final(self).wf(),
            final(self).same_arithmetic(old(self)),
            final(self)@.len() == old(self)@.len(),
            match done {
                Ok(_) => {
                    &&& is_square(matrix_of(g), old(self)@.len())
                    &&& final(self)@ == product_of(
                        matrix_of(g),
                        old(self)@,
                        old(self).zero_of(),
                        old(self).times_of(),
                        old(self).plus_of(),
                    )
                },
                Err(e) => {
                    &&& e == QuantumError::DimensionMismatch
                    &&& !is_square(matrix_of(g), old(self)@.len())
                    &&& final(self)@ == old(self)@
                },
            },
    {
        let dim = self.qb.len();
        if g.len() != dim {
            return Err(QuantumError::DimensionMismatch);
        }
        let mut i: usize = 0;
        while i < g.len()
            invariant
                i <= g@.len(),
                *self == *old(self),
                self.wf(),
                dim == self.qb@.len(),
                forall|r: int| 0 <= r < i ==> (#[trigger] g@[r])@.len() == dim,
            decreases g@.len() - i,
        {
            if g[i].len() != dim {
                assert(matrix_of(g)[i as int].len() != dim);
                return Err(QuantumError::DimensionMismatch);
            }
            i += 1;
        }
        let v = product(&g, &self.qb, self.zero, &self.times, &self.plus);
        self.qb = v;
        Ok(())
    }

    /// Applies the matrix `g`, of dimension two, to each of the qubits `qb`
    /// at once: the register is multiplied by the Kronecker product, qubit
    /// by qubit, of `g` or the identity. A refused call leaves the register
    /// as it was.
    pub fn apply_with(&mut self, g: &Gate<T>, qb: &[u32]) -> (done: Result<(), QuantumError>)
        requires
            old(self).wf(),
        ensures
            final(self).wf(),
            final(self).same_arithmetic(old(self)),
            final(self)@.len() == old(self)@.len(),
            done == gate_outcome(
                old(self)@.len(),
                matrix_of(*g),
                qb@,
                old(self).zero_of(),
                old(self).one_of(),
                old(self).times_of(),
            ),
            done is Ok ==> final(self)@ == after_gate(
                old(self)@,
                old(self).qubits(),
                matrix_of(*g),
                qb@,
                old(self).zero_of(),
                old(self).one_of(),
                old(self).times_of(),
                old(self).plus_of(),
            ),
            done is Err ==> final(self)@ == old(self)@,
            is_square(matrix_of(*g), 2) && old(self)@.len() > 0 && targets_below(
                qb@,
                old(self).qubits(),
            ) ==> done is Ok,
    {
        let nob = self.number_of_qubits();
        proof {
            if self@.len() > 0 && is_square(matrix_of(*g), 2) {
                lemma_gate_fits(
                    self@.len(),
                    matrix_of(*g),
                    qb@,
                    self.zero_of(),
                    self.one_of(),
                    self.times_of(),
                );
            }
        }
        let mut k: usize = 0;
        while k < qb.len()
            invariant
                k <= qb@.len(),
                *self == *old(self),
                self.wf(),
                nob == self.qubits(),
                forall|j: int| 0 <= j < k ==> #[trigger] qb@[j] < nob,
            decreases qb@.len() - k,
        {
            if qb[k] >= nob {
                return Err(QuantumError::IndexOutOfRange);
            }
            k += 1;
        }
        if nob == 0 {
            return Err(QuantumError::DimensionMismatch);
        }
        let list = gate_list(nob, g, qb, self.zero, self.one);
        assert(matrices_of(list).len() == list@.len());
        let op = tensor_with(&list, &self.times);
        assert(matrix_of(op) == operator_of(
            nob as nat,
            matrix_of(*g),
            qb@,
            self.zero_of(),
            self.one_of(),
            self.times_of(),
        ));
        match self.apply(op) {
            Ok(_) => Ok(()),
            Err(e) => Err(e),
        }
    }

    /// Applies the Pauli-X matrix to each of the qubits `qb`.
    pub fn x(&mut self, qb: &[u32]) -> (done: Result<(), QuantumError>)
        requires
            old(self).wf(),
        ensures
            final(self).wf(),
            final(self).same_arithmetic(old(self)),
            final(self)@.len() == old(self)@.len(),
            !targets_below(qb@, old(self).qubits()) ==> done == Err::<(), QuantumError>(
                QuantumError::IndexOutOfRange,
            ),
            targets_below(qb@, old(self).qubits()) && old(self)@.len() == 0 ==> done == Err::<
                (),
                QuantumError,
            >(QuantumError::DimensionMismatch),
            targets_below(qb@, old(self).qubits()) && old(self)@.len() > 0 ==> done is Ok,
            done is Ok ==> final(self)@ == after_gate(
                old(self)@,
                old(self).qubits(),
                pauli_x_of(old(self).zero_of(), old(self).one_of()),
                qb@,
                old(self).zero_of(),
                old(self).one_of(),
                old(self).times_of(),
                old(self).plus_of(),
            ),
            done is Err ==> final(self)@ == old(self)@,
    {
        let g = x(self.zero, self.one);
        proof {
            self.lemma_arithmetic(self);
        }
        self.apply_with(&g, qb)
    }

    /// Applies the Hadamard matrix with entry `e` and last entry `minus_e`
    /// to each of the qubits `qb`.
    pub fn h(&mut self, qb: &[u32], e: T, minus_e: T) -> (done: Result<(), QuantumError>)
        requires
            old(self).wf(),
        ensures
            final(self).wf(),
            final(self).same_arithmetic(old(self)),
            final(self)@.len() == old(self)@.len(),
            !targets_below(qb@, old(self).qubits()) ==> done == Err::<(), QuantumError>(
                QuantumError::IndexOutOfRange,
            ),
            targets_below(qb@, old(self).qubits()) && old(self)@.len() == 0 ==> done == Err::<
                (),
                QuantumError,
            >(QuantumError::DimensionMismatch),
            targets_below(qb@, old(self).qubits()) && old(self)@.len() > 0 ==> done is Ok,
            done is Ok ==> final(self)@ == after_gate(
                old(self)@,
                old(self).qubits(),
                hadamard_of(e, minus_e),
                qb@,
                old(self).zero_of(),
                old(self).one_of(),
                old(self).times_of(),
                old(self).plus_of(),
            ),
            done is Err ==> final(self)@ == old(self)@,
    {
        let g = h(e, minus_e);
        self.apply_with(&g, qb)
    }

    /// Applies the controlled rotation by `phase` with the given control and
    /// target qubits. A control or target that is not below the number of
    /// qubits is refused and leaves the register as it was.
    pub fn cr(&mut self, phase: T, control: u32, target: u32) -> (done: Result<(), QuantumError>)
        requires
            old(self).wf(),
        ensures
            final(self).wf(),
            final(self).same_arithmetic(old(self)),
            final(self)@.len() == old(self)@.len(),
            control < old(self).qubits() && target < old(self).qubits() ==> done is Ok,
            done is Ok ==> control < old(self).qubits() && target < old(self).qubits()
                && final(self)@ == after_rotation(
                old(self)@,
                phase,
                old(self).qubits(),
                control as nat,
                target as nat,
                old(self).zero_of(),
                old(self).one_of(),
                old(self).times_of(),
                old(self).plus_of(),
            ),
            done is Err ==> done == Err::<(), QuantumError>(QuantumError::IndexOutOfRange)
                && final(self)@ == old(self)@,
    {
        let n = self.number_of_qubits();
        let len = self.qb.len();
        proof {
            lemma2_to64();
            assert(is_register_len(len as nat));
            assert(pow2(n as nat) <= usize::MAX);
        }
        match cr(phase, n, control, target, self.zero, self.one, &self.times) {
            Ok(g) => self.apply(g),
            Err(e) => Err(e),
        }
    }

    /// The inverse quantum Fourier transform on the qubits `qb`.
    ///
    /// The positions of `qb` are taken from the last to the first. For each
    /// position `i`, the qubit there is the target of one controlled
    /// rotation for each later position `j`, again from the last down, with
    /// the qubit at `j` as control and `phases[j - i + 1]` as phase; then
    /// the Hadamard matrix with entry `e` and last entry `minus_e` is
    /// applied to it. `phases[k]` stands for the phase of the angle
    /// `-2 pi / 2^k`.
    ///
    /// A qubit index that is not below the number of qubits is refused, and
    /// so is a table of phases that does not reach the index `qb.len()`
    /// where there are two qubits or more. A refused call leaves the
    /// register as it was.
    pub fn iqft(&mut self, qb: &[u32], phases: &[T], e: T, minus_e: T) -> (done: Result<
        (),
        QuantumError,
    >)
        requires
            old(self).wf(),
        ensures
            final(self).wf(),
            final(self).same_arithmetic(old(self)),
            final(self)@.len() == old(self)@.len(),
            !targets_below(qb@, old(self).qubits()) ==> done == Err::<(), QuantumError>(
                QuantumError::IndexOutOfRange,
            ),
            targets_below(qb@, old(self).qubits()) && qb@.len() >= 2 && phases@.len() <= qb@.len()
                ==> done == Err::<(), QuantumError>(QuantumError::DimensionMismatch),
            targets_below(qb@, old(self).qubits()) && (qb@.len() < 2 || phases@.len() > qb@.len())
                ==> done is Ok,
            done is Ok ==> final(self)@ == after_iqft(
                old(self)@,
                old(self).qubits(),
                qb@,
                phases@,
                hadamard_of(e, minus_e),
                0,
                old(self).zero_of(),
                old(self).one_of(),
                old(self).times_of(),
                old(self).plus_of(),
            ),
            done is Err ==> final(self)@ == old(self)@,
    {
        let nob = self.number_of_qubits();
        let len = qb.len();
        let mut k: usize = 0;
        while k < len
            invariant
                k <= len,
                len == qb@.len(),
                *self == *old(self),
                self.wf(),
                nob == self.qubits(),
                forall|j: int| 0 <= j < k ==> #[trigger] qb@[j] < nob,
            decreases len - k,
        {
            if qb[k] >= nob {
                return Err(QuantumError::IndexOutOfRange);
            }
            k += 1;
        }
        if len >= 2 && phases.len() <= len {
            return Err(QuantumError::DimensionMismatch);
        }
        let hadamard = h(e, minus_e);
        proof {
            if len > 0 {
                assert(qb@[0] < nob);
            }
        }
        let mut i: usize = len;
        while i > 0
            invariant
                i <= len,
                len == qb@.len(),
                len < 2 || phases@.len() > len,
                targets_below(qb@, nob as nat),
                len > 0 ==> self@.len() > 0,
                self.wf(),
                self.same_arithmetic(old(self)),
                self@.len() == old(self)@.len(),
                nob == old(self).qubits(),
                matrix_of(hadamard) == hadamard_of(e, minus_e),
                self@ == after_iqft(
                    old(self)@,
                    nob as nat,
                    qb@,
                    phases@,
                    matrix_of(hadamard),
                    i as int,
                    old(self).zero_of(),
                    old(self).one_of(),
                    old(self).times_of(),
                    old(self).plus_of(),
                ),
            decreases i,
        {
            i -= 1;
            let ghost start = self@;
            let mut j: usize = len;
            while j > i + 1
                invariant
                    i < j <= len,
                    len == qb@.len(),
                    len < 2 || phases@.len() > len,
                    targets_below(qb@, nob as nat),
                    self.wf(),
                    self.same_arithmetic(old(self)),
                    self@.len() == old(self)@.len(),
                    nob == old(self).qubits(),
                    self@ == after_rotations(
                        start,
                        nob as nat,
                        qb@,
                        phases@,
                        i as int,
                        j as int,
                        old(self).zero_of(),
                        old(self).one_of(),
                        old(self).times_of(),
                        old(self).plus_of(),
                    ),
                decreases j,
            {
                j -= 1;
                proof {
                    self.lemma_arithmetic(old(self));
                }
                let turned = self.cr(phases[j - i + 1], qb[j], qb[i]);
                assert(turned is Ok);
            }
            let mut target: Vec<u32> = Vec::new();
            target.push(qb[i]);
            proof {
                self.lemma_arithmetic(old(self));
                assert(target@ =~= seq![qb@[i as int]]);
                assert(is_square(matrix_of(hadamard), 2));
            }
            let mixed = self.apply_with(&hadamard, target.as_slice());
            assert(mixed is Ok);
        }
        Ok(())
    }

    /// The basis states of the register whose rounded amplitude is not
    /// zero, by ascending index.
    ///
    /// Each amplitude is rounded by `round`; a state whose rounded amplitude
    /// `is_zero` accepts is left out; for the others `prob` gives the
    /// probability of the rounded amplitude. The register is not changed,
    /// and the list is made anew at every call.
    pub fn state<P, R: Fn(T) -> T, Z: Fn(T) -> bool, N: Fn(T) -> P>(
        &self,
        round: R,
        is_zero: Z,
        prob: N,
    ) -> (list: Vec<State<T, P>>)
        requires
            self.wf(),
            is_map(round),
            is_map(is_zero),
            is_map(prob),
        ensures
            list@ == measured(
                self@,
                self@.len(),
                self.qubits(),
                map_of(round),
                map_of(is_zero),
                map_of(prob),
            ),
            forall|k: int| 0 <= k < list@.len() ==> (#[trigger] list@[k]).index < self@.len(),
            forall|k: int, l: int|
                0 <= k < l < list@.len() ==> (#[trigger] list@[k]).index < (#[trigger] list@[l]).index,
    {
        let mut list: Vec<State<T, P>> = Vec::new();
        let nob = self.number_of_qubits();
        proof {
            assert(self.qb.len() == self.qb@.len());
            lemma_measured_ascending(
                self@,
                self@.len(),
                self.qubits(),
                map_of(round),
                map_of(is_zero),
                map_of(prob),
            );
        }
        let mut i: usize = 0;
        while i < self.qb.len()
            invariant
                i <= self.qb@.len(),
                nob == self.qubits(),
                is_map(round),
                is_map(is_zero),
                is_map(prob),
                list@ == measured(
                    self@,
                    i as nat,
                    self.qubits(),
                    map_of(round),
                    map_of(is_zero),
                    map_of(prob),
                ),
            decreases self.qb@.len() - i,
        {
            let r = round(self.qb[i]);
            let none = is_zero(r);
            proof {
                lemma_value_of(round, self.qb@[i as int], r);
                lemma_value_of(is_zero, r, none);
            }
            if !none {
                let p = prob(r);
                proof {
                    lemma_value_of(prob, r, p);
                }
                list.push(State { number_of_qubits: nob, index: i, amp: r, prob: p });
            }
            i += 1;
        }
        list
    }
}

/// One basis state of a register with its measured amplitude.
pub struct State<T, P> {
    /// The number of qubits of the register that the state was read from.
    pub number_of_qubits: u32,
    /// The index of the basis state in the register.
    pub index: usize,
    /// The amplitude of the basis state, rounded.
    pub amp: T,
    /// The probability of measuring the basis state.
    pub prob: P,
}

impl<T, P> State<T, P> {
    /// The digits of the state's index at the qubits `qb`, in the order of
    /// `qb`. A qubit index that is not below the number of qubits is
    /// refused.
    pub fn to_binary_chars(&self, qb: &[u32]) -> (bin: Result<BinaryChars, QuantumError>)
        ensures
            bin is Ok <==> targets_below(qb@, self.number_of_qubits as nat),
            match bin {
                Ok(chars) => {
                    &&& chars@.len() == qb@.len()
                    &&& forall|k: int|
                        0 <= k < qb@.len() ==> #[trigger] chars@[k] == binary_chars(
                            self.index as nat,
                            self.number_of_qubits as nat,
                        )[qb@[k] as int]
                },
                Err(e) => e == QuantumError::IndexOutOfRange,
            },
    {
        let v = to_binary_chars(self.index, self.number_of_qubits as usize);
        let mut bin: Vec<char> = Vec::new();
        let mut k: usize = 0;
        while k < qb.len()
            invariant
                k <= qb@.len(),
                v@ == binary_chars(self.index as nat, self.number_of_qubits as nat),
                v@.len() >= self.number_of_qubits,
                bin@.len() == k,
                forall|j: int| 0 <= j < k ==> #[trigger] qb@[j] < self.number_of_qubits,
                forall|j: int| 0 <= j < k ==> #[trigger] bin@[j] == v@[qb@[j] as int],
            decreases qb@.len() - k,
        {
            if qb[k] >= self.number_of_qubits {
                return Err(QuantumError::IndexOutOfRange);
            }
            bin.push(v[qb[k] as usize]);
            k += 1;
        }
        Ok(bin)
    }
}

} // verus!
