//! Vectors and matrices over an arbitrary scalar type whose arithmetic the
//! caller supplies: Kronecker products and the product of a matrix and a
//! vector.
use crate::closure::{is_operation, lemma_result_of, operation};
use vstd::arithmetic::div_mod::*;
use vstd::arithmetic::mul::*;
use vstd::arithmetic::power2::*;
use vstd::prelude::*;

verus! {

/// The Kronecker product of the vectors `u` and `v`: entry `t` is the
/// product of entry `t / |v|` of `u` and entry `t % |v|` of `v`.
pub open spec fn kron_of<T>(u: Seq<T>, v: Seq<T>, times: spec_fn(T, T) -> T) -> Seq<T> {
    Seq::new(u.len() * v.len(), |t: int| times(u[t / v.len() as int], v[t % v.len() as int]))
}

/// The rows of a matrix as sequences.
pub open spec fn matrix_of<T>(m: Vec<Vec<T>>) -> Seq<Seq<T>> {
    Seq::new(m@.len(), |i: int| m@[i]@)
}

/// The Kronecker product of the matrices `m` and `n`: row `r` is the
/// Kronecker product of row `r / |n|` of `m` and row `r % |n|` of `n`.
pub open spec fn tensor_of<T>(m: Seq<Seq<T>>, n: Seq<Seq<T>>, times: spec_fn(T, T) -> T) -> Seq<
    Seq<T>,
> {
    Seq::new(m.len() * n.len(), |r: int| kron_of(m[r / n.len() as int], n[r % n.len() as int], times))
}

/// The sum of the products of the first `k` entries of `row` with those of
/// `v`, added up from `zero` in the order of the entries.
pub open spec fn dot_of<T>(
    row: Seq<T>,
    v: Seq<T>,
    k: nat,
    zero: T,
    times: spec_fn(T, T) -> T,
    plus: spec_fn(T, T) -> T,
) -> T
    decreases k,
{
    if k == 0 {
        zero
    } else {
        plus(dot_of(row, v, (k - 1) as nat, zero, times, plus), times(row[k - 1], v[k - 1]))
    }
}

/// The product of the matrix `g` and the vector `v`: entry `i` is the dot
/// product of row `i` of `g`, taken at its full length, with `v`.
pub open spec fn product_of<T>(
    g: Seq<Seq<T>>,
    v: Seq<T>,
    zero: T,
    times: spec_fn(T, T) -> T,
    plus: spec_fn(T, T) -> T,
) -> Seq<T> {
    Seq::new(g.len(), |i: int| dot_of(g[i], v, g[i].len(), zero, times, plus))
}

/// `g` has `dim` rows of `dim` entries each.
pub open spec fn is_square<T>(g: Seq<Seq<T>>, dim: nat) -> bool {
    g.len() == dim && forall|i: int| 0 <= i < g.len() ==> (#[trigger] g[i]).len() == dim
}

/// The position `i * n + j` of a row-major layout with rows of `n` entries
/// splits back into `i` and `j`.
pub proof fn lemma_row_major(i: int, j: int, n: int)
    requires
        0 <= i,
        0 <= j < n,
    ensures
        (i * n + j) / n == i,
        (i * n + j) % n == j,
        i * n + j >= 0,
{
    lemma_fundamental_div_mod_converse(i * n + j, n, i, j);
    lemma_mul_is_commutative(i, n);
    lemma_mul_nonnegative(i, n);
}

/// Every position below `rows * n` of a row-major layout lies in one of the
/// `rows` rows.
pub proof fn lemma_tensor_rows(rows: nat, n: nat)
    ensures
        forall|r: int| 0 <= r < rows * n ==> 0 <= #[trigger] (r / n as int) < rows && 0 <= r % (n as int) < n,
{
    assert forall|r: int| 0 <= r < rows * n implies 0 <= #[trigger] (r / n as int) < rows && 0 <= r % (
    n as int) < n by {
        if n == 0 {
            assert(rows * n == 0) by (nonlinear_arith)
                requires
                    n == 0,
            ;
        } else {
            lemma_mul_is_commutative(rows as int, n as int);
            lemma_multiply_divide_lt(r, n as int, rows as int);
            lemma_div_pos_is_pos(r, n as int);
            lemma_mod_bound(r, n as int);
        }
    }
}

/// The Kronecker product of two vectors.
pub fn kron<T: Copy, M: Fn(T, T) -> T>(u: &Vec<T>, v: &Vec<T>, times: &M) -> (w: Vec<T>)
    requires
        is_operation(*times),
    ensures
        w@ == kron_of(u@, v@, operation(*times)),
{
    let mut w: Vec<T> = Vec::new();
    let mut i: usize = 0;
    while i < u.len()
        invariant
            i <= u.len(),
            is_operation(*times),
            w@.len() == i * v@.len(),
            forall|t: int|
                0 <= t < w@.len() ==> #[trigger] w@[t] == operation(*times)(
                    u@[t / v@.len() as int],
                    v@[t % v@.len() as int],
                ),
        decreases u.len() - i,
    {
        let mut j: usize = 0;
        while j < v.len()
            invariant
                i < u.len(),
                j <= v.len(),
                is_operation(*times),
                w@.len() == i * v@.len() + j,
                forall|t: int|
                    0 <= t < w@.len() ==> #[trigger] w@[t] == operation(*times)(
                        u@[t / v@.len() as int],
                        v@[t % v@.len() as int],
                    ),
            decreases v.len() - j,
        {
            let x = times(u[i], v[j]);
            proof {
                lemma_result_of(*times, u@[i as int], v@[j as int], x);
                lemma_row_major(i as int, j as int, v@.len() as int);
            }
            w.push(x);
            j += 1;
        }
        proof {
            assert((i + 1) * v@.len() == i * v@.len() + v@.len()) by (nonlinear_arith);
        }
        i += 1;
    }
    w
}

/// The Kronecker product of the matrices of `list`, taken from the left: the
/// product of the first `k` of them where `k` is at least two, and the
/// first matrix alone otherwise.
pub open spec fn tensor_fold<T>(list: Seq<Seq<Seq<T>>>, k: nat, times: spec_fn(T, T) -> T) -> Seq<
    Seq<T>,
>
    decreases k,
{
    if k <= 1 {
        list[0]
    } else {
        tensor_of(tensor_fold(list, (k - 1) as nat, times), list[k - 1], times)
    }
}

/// The Kronecker product of two square matrices is square, of the product
/// of their dimensions.
pub proof fn lemma_tensor_square<T>(
    m: Seq<Seq<T>>,
    n: Seq<Seq<T>>,
    a: nat,
    b: nat,
    times: spec_fn(T, T) -> T,
)
    requires
        is_square(m, a),
        is_square(n, b),
    ensures
        is_square(tensor_of(m, n, times), a * b),
{
    lemma_tensor_rows(a, b);
    let t = tensor_of(m, n, times);
    assert forall|r: int| 0 <= r < t.len() implies (#[trigger] t[r]).len() == a * b by {
        let i = r / b as int;
        let k = r % b as int;
        assert(0 <= i < a && 0 <= k < b);
        assert(m[i].len() == a);
        assert(n[k].len() == b);
    }
}

/// The Kronecker product of `k` matrices of dimension two has dimension two
/// to the power `k`.
pub proof fn lemma_tensor_fold_square<T>(
    list: Seq<Seq<Seq<T>>>,
    k: nat,
    times: spec_fn(T, T) -> T,
)
    requires
        1 <= k <= list.len(),
        forall|q: int| 0 <= q < k ==> is_square(#[trigger] list[q], 2),
    ensures
        is_square(tensor_fold(list, k, times), pow2(k)),
    decreases k,
{
    lemma2_to64();
    if k > 1 {
        lemma_tensor_fold_square(list, (k - 1) as nat, times);
        lemma_tensor_square(
            tensor_fold(list, (k - 1) as nat, times),
            list[k - 1],
            pow2((k - 1) as nat),
            2,
            times,
        );
        lemma_pow2_unfold(k);
    }
}

/// The matrices of a list, each as its rows.
pub open spec fn matrices_of<T>(list: Vec<Vec<Vec<T>>>) -> Seq<Seq<Seq<T>>> {
    Seq::new(list@.len(), |i: int| matrix_of(list@[i]))
}

/// A copy of a vector.
pub fn copy_vector<T: Copy>(v: &Vec<T>) -> (w: Vec<T>)
    ensures
        w@ == v@,
{
    let mut w: Vec<T> = Vec::new();
    let mut i: usize = 0;
    while i < v.len()
        invariant
            i <= v.len(),
            w@ == v@.take(i as int),
        decreases v.len() - i,
    {
        w.push(v[i]);
        i += 1;
    }
    w
}

/// A copy of a matrix.
pub fn copy_matrix<T: Copy>(m: &Vec<Vec<T>>) -> (g: Vec<Vec<T>>)
    ensures
        matrix_of(g) == matrix_of(*m),
{
    let mut g: Vec<Vec<T>> = Vec::new();
    let mut i: usize = 0;
    while i < m.len()
        invariant
            i <= m.len(),
            g@.len() == i,
            forall|r: int| 0 <= r < i ==> (#[trigger] g@[r])@ == m@[r]@,
        decreases m.len() - i,
    {
        let row = copy_vector(&m[i]);
        g.push(row);
        i += 1;
    }
    g
}

/// The Kronecker product of two matrices.
pub fn tensor<T: Copy, M: Fn(T, T) -> T>(m: &Vec<Vec<T>>, n: &Vec<Vec<T>>, times: &M) -> (g: Vec<
    Vec<T>,
>)
    requires
        is_operation(*times),
    ensures
        matrix_of(g) == tensor_of(matrix_of(*m), matrix_of(*n), operation(*times)),
{
    let mut g: Vec<Vec<T>> = Vec::new();
    let mut i: usize = 0;
    while i < m.len()
        invariant
            i <= m.len(),
            is_operation(*times),
            g@.len() == i * n@.len(),
            forall|r: int|
                0 <= r < g@.len() ==> (#[trigger] g@[r])@ == kron_of(
                    m@[r / n@.len() as int]@,
                    n@[r % n@.len() as int]@,
                    operation(*times),
                ),
        decreases m.len() - i,
    {
        let mut k: usize = 0;
        while k < n.len()
            invariant
                i < m.len(),
                k <= n.len(),
                is_operation(*times),
                g@.len() == i * n@.len() + k,
                forall|r: int|
                    0 <= r < g@.len() ==> (#[trigger] g@[r])@ == kron_of(
                        m@[r / n@.len() as int]@,
                        n@[r % n@.len() as int]@,
                        operation(*times),
                    ),
            decreases n.len() - k,
        {
            let row = kron(&m[i], &n[k], times);
            proof {
                lemma_row_major(i as int, k as int, n@.len() as int);
            }
            g.push(row);
            k += 1;
        }
        proof {
            assert((i + 1) * n@.len() == i * n@.len() + n@.len()) by (nonlinear_arith);
        }
        i += 1;
    }
    proof {
        lemma_tensor_rows(m@.len(), n@.len());
    }
    g
}

/// The Kronecker product of all matrices of a list, taken from the left.
pub fn tensor_with<T: Copy, M: Fn(T, T) -> T>(list: &Vec<Vec<Vec<T>>>, times: &M) -> (g: Vec<
    Vec<T>,
>)
    requires
        is_operation(*times),
        list@.len() >= 1,
    ensures
        matrix_of(g) == tensor_fold(matrices_of(*list), list@.len(), operation(*times)),
{
    let mut g: Vec<Vec<T>> = copy_matrix(&list[0]);
    let mut i: usize = 1;
    while i < list.len()
        invariant
            1 <= i <= list.len(),
            is_operation(*times),
            matrix_of(g) == tensor_fold(matrices_of(*list), i as nat, operation(*times)),
        decreases list.len() - i,
    {
        g = tensor(&g, &list[i], times);
        i += 1;
    }
    g
}

/// The product of a matrix and a vector. No row of the matrix may be longer
/// than the vector.
pub fn product<T: Copy, M: Fn(T, T) -> T, A: Fn(T, T) -> T>(
    g: &Vec<Vec<T>>,
    v: &Vec<T>,
    zero: T,
    times: &M,
    plus: &A,
) -> (w: Vec<T>)
    requires
        is_operation(*times),
        is_operation(*plus),
        forall|i: int| 0 <= i < g@.len() ==> (#[trigger] g@[i])@.len() <= v@.len(),
    ensures
        w@ == product_of(matrix_of(*g), v@, zero, operation(*times), operation(*plus)),
{
    let mut w: Vec<T> = Vec::new();
    let mut i: usize = 0;
    while i < g.len()
        invariant
            i <= g.len(),
            is_operation(*times),
            is_operation(*plus),
            forall|r: int| 0 <= r < g@.len() ==> (#[trigger] g@[r])@.len() <= v@.len(),
            w@.len() == i,
            forall|r: int|
                0 <= r < i ==> #[trigger] w@[r] == dot_of(
                    g@[r]@,
                    v@,
                    g@[r]@.len(),
                    zero,
                    operation(*times),
                    operation(*plus),
                ),
        decreases g.len() - i,
    {
        let row = &g[i];
        let mut e: T = zero;
        let mut j: usize = 0;
        while j < row.len()
            invariant
                j <= row.len(),
                row@.len() <= v@.len(),
                is_operation(*times),
                is_operation(*plus),
                e == dot_of(row@, v@, j as nat, zero, operation(*times), operation(*plus)),
            decreases row.len() - j,
        {
            let x = times(row[j], v[j]);
            let y = plus(e, x);
            proof {
                lemma_result_of(*times, row@[j as int], v@[j as int], x);
                lemma_result_of(*plus, e, x, y);
            }
            e = y;
            j += 1;
        }
        w.push(e);
        i += 1;
    }
    w
}

} // verus!
