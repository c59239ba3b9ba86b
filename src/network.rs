use vstd::prelude::*;
use vstd::arithmetic::div_mod::lemma_fundamental_div_mod;
use crate::error::NetError;
use crate::layout::{block_of, blocks_fit, concat, project, views};
use crate::matrix::{copy_vec, dot, lemma_index_in_bounds, map_spec, zip_spec, MapOp, Matrix, ZipOp};
use crate::optim::{descent, GradientDesc, Objective};
use crate::scalar::Scalar;
use crate::schema::{block_size, lemma_block_fits, lemma_block_size_nonneg, offset, param_count, schema_ok, LayerSchema};

verus! {

/// `m` is a well-formed `r x c` matrix.
pub open spec fn shaped<T>(m: Matrix<T>, r: nat, c: nat) -> bool {
    m.wf() && m.nrows() == r && m.ncols() == c
}

/// A batch of inputs for schema `s`: one row per sample, `s[0]` columns.
pub open spec fn input_ok<T>(s: Seq<usize>, data: &Matrix<T>) -> bool {
    data.wf() && data.ncols() == s[0]
}

/// A non-empty training batch for schema `s`: inputs with `s[0]` columns and
/// as many rows of targets, each with `s[last]` columns.
pub open spec fn batch_ok<T>(s: Seq<usize>, data: &Matrix<T>, target: &Matrix<T>) -> bool {
    input_ok(s, data) && data.nrows() > 0 && target.wf() && target.nrows() == data.nrows()
        && target.ncols() == s[s.len() - 1]
}

/// Weight `(k, j)` of transition `l` in the flat parameter vector `p`.
pub open spec fn weight<T>(s: Seq<usize>, p: Seq<T>, l: int, k: int, j: int) -> T {
    p[offset(s, l) + k * s[l + 1] + j]
}

/// Element `(i, j)` of the activation of layer `l` for the batch `x`
/// (row-major, `s[0]` columns): the batch itself at layer 0, the first
/// transition's pre-activation unchanged at layer 1, and the activation
/// function of the pre-activation at every later layer.
pub open spec fn act<T: Scalar>(s: Seq<usize>, p: Seq<T>, x: Seq<T>, l: int, i: int, j: int) -> T
    decreases l, 0int,
{
    if l <= 0 {
        x[i * s[0] + j]
    } else if l == 1 {
        pre_sum(s, p, x, 0, i, j, s[0] + 1)
    } else {
        pre_sum(s, p, x, l - 1, i, j, s[l - 1] + 1).spec_activation()
    }
}

/// Input `k` of transition `l` for row `i`: the constant one, then the
/// activations of layer `l`.
pub open spec fn bias_in<T: Scalar>(s: Seq<usize>, p: Seq<T>, x: Seq<T>, l: int, i: int, k: int) -> T {
    if k == 0 {
        T::spec_one()
    } else {
        act(s, p, x, l, i, k - 1)
    }
}

/// The first `k` terms of entry `(i, j)` of `[1 | a_l] * W_l`, summed from
/// the left starting at zero; with `k = s[l] + 1` the pre-activation.
pub open spec fn pre_sum<T: Scalar>(
    s: Seq<usize>,
    p: Seq<T>,
    x: Seq<T>,
    l: int,
    i: int,
    j: int,
    k: int,
) -> T
    decreases l, k,
{
    if k <= 0 || l < 0 {
        T::spec_zero()
    } else {
        let b = if k == 1 {
            T::spec_one()
        } else {
            act(s, p, x, l, i, k - 2)
        };
        pre_sum(s, p, x, l, i, j, k - 1).spec_plus(b.spec_times(weight(s, p, l, k - 1, j)))
    }
}

/// Element `(i, j)` of the error at layer `l` (`1 <= l <= last`): the output
/// minus the target at the last layer; before it, the next layer's error
/// times the transposed weights without the bias row, multiplied by the
/// activation's derivative at the pre-activation where the forward pass
/// applied the activation (`l >= 2`).
pub open spec fn delta<T: Scalar>(
    s: Seq<usize>,
    p: Seq<T>,
    x: Seq<T>,
    y: Seq<T>,
    l: int,
    i: int,
    j: int,
) -> T
    decreases s.len() - l, s[l + 1] + 1,
{
    let last = s.len() - 1;
    if l >= last || l < 0 {
        act(s, p, x, last, i, j).spec_minus(y[i * s[last] + j])
    } else {
        let e = back_sum(s, p, x, y, l, i, j, s[l + 1] as int);
        if l >= 2 {
            e.spec_times(pre_sum(s, p, x, l - 1, i, j, s[l - 1] + 1).spec_activation_grad())
        } else {
            e
        }
    }
}

/// The first `k` terms of `sum_t delta_(l + 1)(i, t) * W_l(j + 1, t)`.
pub open spec fn back_sum<T: Scalar>(
    s: Seq<usize>,
    p: Seq<T>,
    x: Seq<T>,
    y: Seq<T>,
    l: int,
    i: int,
    j: int,
    k: int,
) -> T
    decreases s.len() - l, k,
{
    if k <= 0 || l >= s.len() - 1 || l < 0 {
        T::spec_zero()
    } else {
        back_sum(s, p, x, y, l, i, j, k - 1).spec_plus(
            delta(s, p, x, y, l + 1, i, k - 1).spec_times(weight(s, p, l, j + 1, k - 1)),
        )
    }
}

/// The first `k` rows' terms of entry `(a, b)` of `[1 | a_l]^T * delta_(l + 1)`.
pub open spec fn grad_sum<T: Scalar>(
    s: Seq<usize>,
    p: Seq<T>,
    x: Seq<T>,
    y: Seq<T>,
    l: int,
    a: int,
    b: int,
    k: int,
) -> T
    decreases k,
{
    if k <= 0 {
        T::spec_zero()
    } else {
        grad_sum(s, p, x, y, l, a, b, k - 1).spec_plus(
            bias_in(s, p, x, l, k - 1, a).spec_times(delta(s, p, x, y, l + 1, k - 1, b)),
        )
    }
}

/// The gradient block of transition `l` for a batch of `n` rows, row-major:
/// entry `(a, b)` is `([1 | a_l]^T * delta_(l + 1))(a, b) / n`.
pub open spec fn grad_block<T: Scalar>(
    s: Seq<usize>,
    p: Seq<T>,
    x: Seq<T>,
    y: Seq<T>,
    n: nat,
    l: int,
) -> Seq<T> {
    Seq::new(
        block_size(s, l) as nat,
        |q: int| grad_sum(s, p, x, y, l, q / s[l + 1] as int, q % s[l + 1] as int, n as int).spec_div_count(n as usize),
    )
}

/// The whole gradient: every transition's block, in parameter order.
pub open spec fn grad_spec<T: Scalar>(
    s: Seq<usize>,
    p: Seq<T>,
    x: Seq<T>,
    y: Seq<T>,
    n: nat,
) -> Seq<T> {
    concat(Seq::new((s.len() - 1) as nat, |l: int| grad_block(s, p, x, y, n, l)))
}

/// `m` holds the activations of layer `l` for an `n`-row batch.
pub open spec fn holds_act<T: Scalar>(m: Matrix<T>, s: Seq<usize>, p: Seq<T>, x: Seq<T>, n: nat, l: int) -> bool {
    shaped(m, n, s[l] as nat) && forall|i: int, j: int|
        0 <= i < n && 0 <= j < s[l] ==> #[trigger] m.at(i, j) == act(s, p, x, l, i, j)
}

/// `m` holds the pre-activations of transition `l` for an `n`-row batch.
pub open spec fn holds_pre<T: Scalar>(m: Matrix<T>, s: Seq<usize>, p: Seq<T>, x: Seq<T>, n: nat, l: int) -> bool {
    shaped(m, n, s[l + 1] as nat) && forall|i: int, j: int|
        0 <= i < n && 0 <= j < s[l + 1] ==> #[trigger] m.at(i, j) == pre_sum(
            s,
            p,
            x,
            l,
            i,
            j,
            s[l] + 1,
        )
}

proof fn lemma_dot_pre<T: Scalar>(
    s: Seq<usize>,
    p: Seq<T>,
    x: Seq<T>,
    l: int,
    b: Matrix<T>,
    w: Matrix<T>,
    i: int,
    j: int,
    k: int,
)
    requires
        0 <= l,
        0 <= k,
        forall|t: int| 0 <= t < k ==> #[trigger] b.at(i, t) == bias_in(s, p, x, l, i, t),
        forall|t: int| 0 <= t < k ==> #[trigger] w.at(t, j) == weight(s, p, l, t, j),
    ensures
        dot(b, w, i, j, k) == pre_sum(s, p, x, l, i, j, k),
    decreases k,
{
    if k > 0 {
        lemma_dot_pre(s, p, x, l, b, w, i, j, k - 1);
        assert(b.at(i, k - 1) == bias_in(s, p, x, l, i, k - 1));
        assert(w.at(k - 1, j) == weight(s, p, l, k - 1, j));
    }
}

proof fn lemma_dot_back<T: Scalar>(
    s: Seq<usize>,
    p: Seq<T>,
    x: Seq<T>,
    y: Seq<T>,
    l: int,
    d: Matrix<T>,
    wt: Matrix<T>,
    i: int,
    j: int,
    k: int,
)
    requires
        0 <= l < s.len() - 1,
        0 <= k,
        forall|t: int| 0 <= t < k ==> #[trigger] d.at(i, t) == delta(s, p, x, y, l + 1, i, t),
        forall|t: int| 0 <= t < k ==> #[trigger] wt.at(t, j) == weight(s, p, l, j + 1, t),
    ensures
        dot(d, wt, i, j, k) == back_sum(s, p, x, y, l, i, j, k),
    decreases k,
{
    if k > 0 {
        lemma_dot_back(s, p, x, y, l, d, wt, i, j, k - 1);
        assert(d.at(i, k - 1) == delta(s, p, x, y, l + 1, i, k - 1));
        assert(wt.at(k - 1, j) == weight(s, p, l, j + 1, k - 1));
    }
}

proof fn lemma_dot_grad<T: Scalar>(
    s: Seq<usize>,
    p: Seq<T>,
    x: Seq<T>,
    y: Seq<T>,
    l: int,
    bt: Matrix<T>,
    d: Matrix<T>,
    a: int,
    b: int,
    k: int,
)
    requires
        0 <= k,
        forall|t: int| 0 <= t < k ==> #[trigger] bt.at(a, t) == bias_in(s, p, x, l, t, a),
        forall|t: int| 0 <= t < k ==> #[trigger] d.at(t, b) == delta(s, p, x, y, l + 1, t, b),
    ensures
        dot(bt, d, a, b, k) == grad_sum(s, p, x, y, l, a, b, k),
    decreases k,
{
    if k > 0 {
        lemma_dot_grad(s, p, x, y, l, bt, d, a, b, k - 1);
        assert(bt.at(a, k - 1) == bias_in(s, p, x, l, k - 1, a));
        assert(d.at(k - 1, b) == delta(s, p, x, y, l + 1, k - 1, b));
    }
}

/// A row-major index splits into its row and column.
proof fn lemma_split_index(q: int, r: int, c: int)
    requires
        0 <= q < r * c,
        c > 0,
    ensures
        0 <= q / c < r,
        0 <= q % c < c,
        q == (q / c) * c + q % c,
{
    lemma_fundamental_div_mod(q, c);
    assert(0 <= q % c < c) by (nonlinear_arith)
        requires
            c > 0,
    ;
    assert(q / c >= 0) by (nonlinear_arith)
        requires
            q >= 0,
            c > 0,
    ;
    assert(q / c < r) by (nonlinear_arith)
        requires
            q < r * c,
            c > 0,
            q == c * (q / c) + q % c,
            q % c >= 0,
    ;
    assert(c * (q / c) == (q / c) * c) by (nonlinear_arith);
}

/// The weight matrix of transition `l` holds the weights of `weight`.
proof fn lemma_project_at<T>(s: Seq<usize>, p: Seq<T>, l: int, w: Matrix<T>)
    requires
        schema_ok(s),
        param_count(s) <= usize::MAX,
        0 <= l < s.len() - 1,
        p.len() == param_count(s),
        w.wf(),
        w.nrows() == s[l] + 1,
        w.ncols() == s[l + 1],
        w.elems() == block_of(s, p, l),
    ensures
        forall|k: int, j: int|
            0 <= k < s[l] + 1 && 0 <= j < s[l + 1] ==> #[trigger] w.at(k, j) == weight(s, p, l, k, j),
{
    lemma_block_fits(s, l);
    assert forall|k: int, j: int| 0 <= k < s[l] + 1 && 0 <= j < s[l + 1] implies #[trigger] w.at(k, j)
        == weight(s, p, l, k, j) by {
        lemma_index_in_bounds(k, j, s[l] + 1, s[l + 1] as int);
    }
}

proof fn lemma_pre_rows<T: Scalar>(
    s: Seq<usize>,
    p: Seq<T>,
    x: Seq<T>,
    x2: Seq<T>,
    i: int,
    i2: int,
    l: int,
    j: int,
    k: int,
)
    requires
        0 <= l,
        0 <= k <= s[l] + 1,
        forall|t: int| 0 <= t < s[l] ==> #[trigger] act(s, p, x, l, i, t) == act(s, p, x2, l, i2, t),
    ensures
        pre_sum(s, p, x, l, i, j, k) == pre_sum(s, p, x2, l, i2, j, k),
    decreases k,
{
    if k > 0 {
        lemma_pre_rows(s, p, x, x2, i, i2, l, j, k - 1);
        if k >= 2 {
            assert(act(s, p, x, l, i, k - 2) == act(s, p, x2, l, i2, k - 2));
        }
    }
}

/// Each row of the forward pass depends on that row of the batch alone:
/// where row `i` of batch `x` equals row `i2` of batch `x2`, every layer's
/// activations in row `i` of the one equal those in row `i2` of the other.
pub proof fn lemma_rows_independent<T: Scalar>(
    s: Seq<usize>,
    p: Seq<T>,
    x: Seq<T>,
    x2: Seq<T>,
    i: int,
    i2: int,
    l: int,
)
    requires
        0 <= l < s.len(),
        forall|t: int| 0 <= t < s[0] ==> #[trigger] x[i * s[0] + t] == x2[i2 * s[0] + t],
    ensures
        forall|j: int| 0 <= j < s[l] ==> #[trigger] act(s, p, x, l, i, j) == act(s, p, x2, l, i2, j),
    decreases l,
{
    if l > 0 {
        lemma_rows_independent(s, p, x, x2, i, i2, l - 1);
        assert forall|j: int| 0 <= j < s[l] implies #[trigger] act(s, p, x, l, i, j) == act(s, p, x2, l, i2, j) by {
            lemma_pre_rows(s, p, x, x2, i, i2, l - 1, j, s[l - 1] + 1);
        }
    } else {
        assert forall|j: int| 0 <= j < s[l] implies #[trigger] act(s, p, x, l, i, j) == act(s, p, x2, l, i2, j) by {
            assert(x[i * s[0] + j] == x2[i2 * s[0] + j]);
        }
    }
}

/// Forward propagation of a batch with `schema[0]` columns: transition `l`
/// computes `z = [1 | a_l] * W_l`; the first transition passes `z` on as it
/// is, every later one passes on `activation(z)`. Returns the activation of
/// every layer, the batch first and the network's output last.
pub fn forward<T: Scalar>(schema: &LayerSchema, params: &Vec<T>, data: &Matrix<T>) -> (acts: Vec<Matrix<T>>)
    requires
        schema.wf(),
        params@.len() == param_count(schema@),
        input_ok(schema@, data),
    ensures
        acts@.len() == schema@.len(),
        forall|l: int| 0 <= l < schema@.len() ==> #[trigger] holds_act(acts@[l], schema@, params@, data.elems(), data.nrows(), l),
{
    let ghost s = schema@;
    let ghost p = params@;
    let ghost x = data.elems();
    let ghost n = data.nrows();
    let nl = schema.len();
    let mut acts: Vec<Matrix<T>> = Vec::new();
    let first = data.duplicate();
    proof {
        assert forall|i: int, j: int| 0 <= i < n && 0 <= j < s[0] implies #[trigger] first.at(i, j) == act(s, p, x, 0, i, j) by {
        }
    }
    acts.push(first);
    let mut l: usize = 0;
    while l + 1 < nl
        invariant
            schema.wf(),
            s == schema@,
            p == params@,
            x == data.elems(),
            n == data.nrows(),
            nl == s.len(),
            params@.len() == param_count(s),
            l + 1 <= nl,
            acts@.len() == l + 1,
            forall|k: int| 0 <= k <= l ==> #[trigger] holds_act(acts@[k], s, p, x, n, k),
        decreases nl - l,
    {
        proof {
            assert(holds_act(acts@[l as int], s, p, x, n, l as int));
        }
        let z = transition(schema, params, &acts[l], l, Ghost(x), Ghost(n));
        let next = if l == 0 {
            z.duplicate()
        } else {
            z.map(MapOp::Activation)
        };
        proof {
            assert forall|i: int, j: int| 0 <= i < n && 0 <= j < s[l + 1] implies #[trigger] next.at(i, j) == act(s, p, x, l + 1, i, j) by {
                lemma_index_in_bounds(i, j, n as int, s[l + 1] as int);
                assert(z.at(i, j) == pre_sum(s, p, x, l as int, i, j, s[l as int] + 1));
            }
        }
        let ghost old_acts = acts@;
        acts.push(next);
        proof {
            assert forall|k: int| 0 <= k <= l + 1 implies #[trigger] holds_act(acts@[k], s, p, x, n, k) by {
                if k <= l {
                    assert(acts@[k] == old_acts[k]);
                }
            }
        }
        l = l + 1;
    }
    acts
}

/// `m` holds the errors of layer `l` for an `n`-row batch.
pub open spec fn holds_delta<T: Scalar>(
    m: Matrix<T>,
    s: Seq<usize>,
    p: Seq<T>,
    x: Seq<T>,
    y: Seq<T>,
    n: nat,
    l: int,
) -> bool {
    shaped(m, n, s[l] as nat) && forall|i: int, j: int|
        0 <= i < n && 0 <= j < s[l] ==> #[trigger] m.at(i, j) == delta(s, p, x, y, l, i, j)
}

/// The pre-activation `[1 | a_l] * W_l` of transition `l`.
fn transition<T: Scalar>(schema: &LayerSchema, params: &Vec<T>, a: &Matrix<T>, l: usize, Ghost(x): Ghost<Seq<T>>, Ghost(n): Ghost<nat>) -> (z: Matrix<T>)
    requires
        schema.wf(),
        params@.len() == param_count(schema@),
        l < schema@.len() - 1,
        holds_act(*a, schema@, params@, x, n, l as int),
    ensures
        holds_pre(z, schema@, params@, x, n, l as int),
{
    let ghost s = schema@;
    let ghost p = params@;
    proof {
        lemma_block_fits(s, l as int);
    }
    let w = project(schema, params, l);
    let wb = a.with_bias();
    let z = match wb.mat_mul(&w) {
        Ok(z) => z,
        Err(_) => {
            proof {
                assert(false);
            }
            wb
        },
    };
    proof {
        lemma_project_at(s, p, l as int, w);
        assert forall|i: int, j: int| 0 <= i < n && 0 <= j < s[l + 1] implies #[trigger] z.at(i, j) == pre_sum(s, p, x, l as int, i, j, s[l as int] + 1) by {
            assert forall|t: int| 0 <= t < s[l as int] + 1 implies #[trigger] wb.at(i, t) == bias_in(s, p, x, l as int, i, t) by {
                if t > 0 {
                    assert(wb.at(i, (t - 1) + 1) == a.at(i, t - 1));
                }
            }
            assert forall|t: int| 0 <= t < s[l as int] + 1 implies #[trigger] w.at(t, j) == weight(s, p, l as int, t, j) by {
            }
            lemma_dot_pre(s, p, x, l as int, wb, w, i, j, s[l as int] + 1);
        }
    }
    z
}

/// Backpropagation over a batch with `schema[0]` columns, at least one row,
/// and as many target rows of `schema[last]` columns. The output error
/// `a_last - target` is carried back through the transitions: the gradient
/// block of transition `l` is `[1 | a_l]^T * delta_(l + 1)` divided by the
/// batch size, and the error reaching layer `l >= 1` is
/// `delta_(l + 1) * V_l^T`, `V_l` being `W_l` without its bias row,
/// multiplied element-wise by `activation_grad(z_(l - 1))` where the forward
/// pass applied the activation (`l >= 2`); layer 1 received `z_0` unchanged,
/// so its derivative there is one. The blocks are laid out as the parameters.
pub fn gradient<T: Scalar>(
    schema: &LayerSchema,
    params: &Vec<T>,
    data: &Matrix<T>,
    target: &Matrix<T>,
) -> (g: Vec<T>)
    requires
        schema.wf(),
        params@.len() == param_count(schema@),
        batch_ok(schema@, data, target),
    ensures
        g@ == grad_spec(schema@, params@, data.elems(), target.elems(), data.nrows()),
        g@.len() == params@.len(),
{
    let ghost s = schema@;
    let ghost p = params@;
    let ghost x = data.elems();
    let ghost y = target.elems();
    let ghost n = data.nrows();
    let acts = forward(schema, params, data);
    let nl = schema.len();
    let last = nl - 1;
    let rows = data.rows();
    proof {
        assert(holds_act(acts@[last as int], s, p, x, n, last as int));
    }
    let out = &acts[last];
    let mut dm = match out.zip(target, ZipOp::Minus) {
        Ok(d) => d,
        Err(_) => {
            proof {
                assert(false);
            }
            out.duplicate()
        },
    };
    proof {
        assert forall|i: int, j: int| 0 <= i < n && 0 <= j < s[last as int] implies #[trigger] dm.at(i, j) == delta(s, p, x, y, last as int, i, j) by {
            lemma_index_in_bounds(i, j, n as int, s[last as int] as int);
            let q = i * s[last as int] + j;
            assert(out.at(i, j) == act(s, p, x, last as int, i, j));
            assert(dm.elems()[q] == zip_spec(ZipOp::Minus, out.elems()[q], target.elems()[q]));
            assert(delta(s, p, x, y, last as int, i, j) == act(s, p, x, last as int, i, j).spec_minus(y[q]));
        }
    }
    let mut rev: Vec<Vec<T>> = Vec::new();
    let mut l: usize = last;
    while l > 0
        invariant
            schema.wf(),
            s == schema@,
            p == params@,
            x == data.elems(),
            y == target.elems(),
            n == data.nrows(),
            rows == n,
            n > 0,
            nl == s.len(),
            last == nl - 1,
            params@.len() == param_count(s),
            acts@.len() == s.len(),
            forall|k: int| 0 <= k < s.len() ==> #[trigger] holds_act(acts@[k], s, p, x, n, k),
            l <= last,
            l > 0 ==> holds_delta(dm, s, p, x, y, n, l as int),
            rev@.len() == last - l,
            forall|k: int| 0 <= k < rev@.len() ==> #[trigger] rev@[k]@ == grad_block(s, p, x, y, n, last - 1 - k),
        decreases l,
    {
        l = l - 1;
        proof {
            lemma_block_fits(s, l as int);
            assert(holds_act(acts@[l as int], s, p, x, n, l as int));
        }
        let wb = acts[l].with_bias();
        let bt = wb.transpose();
        let g = match bt.mat_mul(&dm) {
            Ok(g) => g,
            Err(_) => {
                proof {
                    assert(false);
                }
                bt
            },
        };
        let g2 = g.map(MapOp::DivCount(rows));
        let gv = g2.into_vec();
        proof {
            let c = s[l + 1] as int;
            let r = s[l as int] + 1;
            assert(gv@.len() == r * c);
            assert forall|q: int| 0 <= q < gv@.len() implies #[trigger] gv@[q] == grad_block(s, p, x, y, n, l as int)[q] by {
                lemma_split_index(q, r, c);
                let a = q / c;
                let b = q % c;
                assert(g.at(a, b) == g.elems()[q]);
                assert forall|t: int| 0 <= t < n implies #[trigger] bt.at(a, t) == bias_in(s, p, x, l as int, t, a) by {
                    if a > 0 {
                        assert(wb.at(t, (a - 1) + 1) == acts@[l as int].at(t, a - 1));
                    }
                }
                assert forall|t: int| 0 <= t < n implies #[trigger] dm.at(t, b) == delta(s, p, x, y, l + 1, t, b) by {
                }
                lemma_dot_grad(s, p, x, y, l as int, bt, dm, a, b, n as int);
            }
            assert(gv@ =~= grad_block(s, p, x, y, n, l as int));
        }
        let ghost before = rev@;
        rev.push(gv);
        proof {
            assert forall|k: int| 0 <= k < rev@.len() implies #[trigger] rev@[k]@ == grad_block(s, p, x, y, n, last - 1 - k) by {
                if k < before.len() {
                    assert(rev@[k] == before[k]);
                }
            }
        }
        if l > 0 {
            let w = project(schema, params, l);
            let wt = w.without_first_row().transpose();
            let d = match dm.mat_mul(&wt) {
                Ok(d) => d,
                Err(_) => {
                    proof {
                        assert(false);
                    }
                    wt
                },
            };
            proof {
                lemma_project_at(s, p, l as int, w);
                let c = s[l + 1] as int;
                assert forall|i: int, j: int| 0 <= i < n && 0 <= j < s[l as int] implies #[trigger] d.at(i, j) == back_sum(s, p, x, y, l as int, i, j, c) by {
                    assert forall|t: int| 0 <= t < c implies #[trigger] wt.at(t, j) == weight(s, p, l as int, j + 1, t) by {
                        lemma_index_in_bounds(j, t, s[l as int] as int, c);
                        assert((j + 1) * c + t == c + (j * c + t)) by (nonlinear_arith);
                        lemma_index_in_bounds(j + 1, t, s[l as int] + 1, c);
                    }
                    assert forall|t: int| 0 <= t < c implies #[trigger] dm.at(i, t) == delta(s, p, x, y, l + 1, i, t) by {
                    }
                    lemma_dot_back(s, p, x, y, l as int, dm, wt, i, j, c);
                }
            }
            if l >= 2 {
                proof {
                    assert(holds_act(acts@[l - 1], s, p, x, n, l - 1));
                }
                let z = transition(schema, params, &acts[l - 1], l - 1, Ghost(x), Ghost(n));
                let dg = z.map(MapOp::ActivationGrad);
                dm = match d.zip(&dg, ZipOp::Times) {
                    Ok(m) => m,
                    Err(_) => {
                        proof {
                            assert(false);
                        }
                        d
                    },
                };
                proof {
                    assert forall|i: int, j: int| 0 <= i < n && 0 <= j < s[l as int] implies #[trigger] dm.at(i, j) == delta(s, p, x, y, l as int, i, j) by {
                        lemma_index_in_bounds(i, j, n as int, s[l as int] as int);
                        let q = i * s[l as int] + j;
                        assert(z.at(i, j) == pre_sum(s, p, x, l - 1, i, j, s[l - 1] + 1));
                        assert(d.at(i, j) == back_sum(s, p, x, y, l as int, i, j, s[l + 1] as int));
                        assert(dg.elems()[q] == map_spec(MapOp::ActivationGrad, z.elems()[q]));
                        assert(dm.elems()[q] == zip_spec(ZipOp::Times, d.elems()[q], dg.elems()[q]));
                        assert(delta(s, p, x, y, l as int, i, j) == back_sum(s, p, x, y, l as int, i, j, s[l + 1] as int).spec_times(pre_sum(s, p, x, l - 1, i, j, s[l - 1] + 1).spec_activation_grad()));
                    }
                }
            } else {
                dm = d;
            }
        }
    }
    let mut blocks: Vec<Vec<T>> = Vec::new();
    while rev.len() > 0
        invariant
            rev@.len() + blocks@.len() == last,
            forall|k: int| 0 <= k < rev@.len() ==> #[trigger] rev@[k]@ == grad_block(s, p, x, y, n, last - 1 - k),
            forall|k: int| 0 <= k < blocks@.len() ==> #[trigger] blocks@[k]@ == grad_block(s, p, x, y, n, k),
        decreases rev@.len(),
    {
        let ghost before = blocks@;
        let ghost rb = rev@;
        match rev.pop() {
            Some(b) => {
                blocks.push(b);
                proof {
                    assert(b == rb[rb.len() - 1]);
                    assert forall|k: int| 0 <= k < blocks@.len() implies #[trigger] blocks@[k]@ == grad_block(s, p, x, y, n, k) by {
                        if k < before.len() {
                            assert(blocks@[k] == before[k]);
                        }
                    }
                    assert forall|k: int| 0 <= k < rev@.len() implies #[trigger] rev@[k]@ == grad_block(s, p, x, y, n, last - 1 - k) by {
                        assert(rev@[k] == rb[k]);
                    }
                }
            },
            None => {},
        }
    }
    let ghost all = Seq::new((s.len() - 1) as nat, |l: int| grad_block(s, p, x, y, n, l));
    proof {
        assert(views(blocks@) =~= all);
        assert forall|k: int| 0 <= k < all.len() implies #[trigger] all[k].len() == block_size(s, k) by {
            lemma_block_size_nonneg(s, k);
        }
    }
    match schema.concat_blocks(&blocks) {
        Ok(v) => v,
        Err(_) => {
            proof {
                assert(false);
            }
            copy_vec(params)
        },
    }
}

/// A multilayer perceptron: its layer schema, its flat parameter vector and
/// the optimizer that trains it.
pub struct NeuralNet<T> {
    schema: LayerSchema,
    weights: Vec<T>,
    gd: GradientDesc<T>,
}

impl<T: Scalar> NeuralNet<T> {
    /// The neuron counts of the layers.
    pub closed spec fn layers(&self) -> Seq<usize> {
        self.schema@
    }

    /// The flat parameter vector.
    pub closed spec fn params(&self) -> Seq<T> {
        self.weights@
    }

    pub closed spec fn optimizer(&self) -> GradientDesc<T> {
        self.gd
    }

    /// A valid schema and a parameter vector of exactly its parameter count.
    pub open spec fn wf(&self) -> bool {
        schema_ok(self.layers()) && param_count(self.layers()) <= usize::MAX
            && self.params().len() == param_count(self.layers())
    }

    /// Builds a network from its layer sizes and one block of initial
    /// parameters per transition, laid end to end. Fails with `InvalidSchema`
    /// or `TooLarge` as `LayerSchema::new` does, and with `ParameterLength`
    /// unless block `l` holds `(sizes[l] + 1) * sizes[l + 1]` values.
    pub fn new(layer_sizes: Vec<usize>, initial: &Vec<Vec<T>>, gd: GradientDesc<T>) -> (r: Result<
        NeuralNet<T>,
        NetError,
    >)
        ensures
            r is Ok <==> schema_ok(layer_sizes@) && param_count(layer_sizes@) <= usize::MAX
                && blocks_fit(layer_sizes@, views(initial@)),
            !schema_ok(layer_sizes@) ==> r == Err::<NeuralNet<T>, NetError>(
                NetError::InvalidSchema,
            ),
            schema_ok(layer_sizes@) && param_count(layer_sizes@) > usize::MAX ==> r == Err::<
                NeuralNet<T>,
                NetError,
            >(NetError::TooLarge),
            schema_ok(layer_sizes@) && param_count(layer_sizes@) <= usize::MAX && !blocks_fit(
                layer_sizes@,
                views(initial@),
            ) ==> r == Err::<NeuralNet<T>, NetError>(NetError::ParameterLength),
            r matches Ok(net) ==> net.wf() && net.layers() == layer_sizes@ && net.params()
                == crate::layout::concat(views(initial@)) && net.optimizer() == gd,
    {
        let schema = match LayerSchema::new(layer_sizes) {
            Ok(s) => s,
            Err(e) => {
                return Err(e);
            },
        };
        let weights = match schema.concat_blocks(initial) {
            Ok(w) => w,
            Err(e) => {
                return Err(e);
            },
        };
        Ok(NeuralNet { schema, weights, gd })
    }

    /// The weight matrix between layer `idx` and layer `idx + 1`.
    pub fn get_net_weights(&self, idx: usize) -> (m: Matrix<T>)
        requires
            self.wf(),
            idx < self.layers().len() - 1,
        ensures
            m.wf(),
            m.nrows() == self.layers()[idx as int] + 1,
            m.ncols() == self.layers()[idx + 1],
            m.elems() == block_of(self.layers(), self.params(), idx as int),
    {
        project(&self.schema, &self.weights, idx)
    }

    /// Whether `data` has `schema[0]` columns.
    pub fn check_input(&self, data: &Matrix<T>) -> (r: bool)
        requires
            self.wf(),
        ensures
            r == input_ok(self.layers(), data),
    {
        data.check_wf() && data.cols() == self.schema.size(0)
    }

    /// Whether `data` and `target` make a training batch for this network.
    pub fn check_batch(&self, data: &Matrix<T>, target: &Matrix<T>) -> (r: bool)
        requires
            self.wf(),
        ensures
            r == batch_ok(self.layers(), data, target),
    {
        let last = self.schema.len() - 1;
        self.check_input(data) && data.rows() > 0 && target.check_wf() && target.rows()
            == data.rows() && target.cols() == self.schema.size(last)
    }

    /// Forward propagation with the stored parameters: one output row per
    /// input row, `schema[last]` columns, each entry the last layer's
    /// activation.
    pub fn predict(&self, data: &Matrix<T>) -> (m: Matrix<T>)
        requires
            self.wf(),
            input_ok(self.layers(), data),
        ensures
            holds_act(
                m,
                self.layers(),
                self.params(),
                data.elems(),
                data.nrows(),
                self.layers().len() - 1,
            ),
    {
        let mut acts = forward(&self.schema, &self.weights, data);
        let ghost a = acts@;
        proof {
            assert(holds_act(a[a.len() - 1], self.layers(), self.params(), data.elems(), data.nrows(), a.len() - 1));
        }
        match acts.pop() {
            Some(m) => m,
            None => {
                proof {
                    assert(false);
                }
                data.duplicate()
            },
        }
    }

    /// The gradient of the loss at `params` for this batch, laid out as the
    /// parameters are (see `gradient`).
    pub fn compute_grad(&self, params: &Vec<T>, data: &Matrix<T>, target: &Matrix<T>) -> (g: Vec<T>)
        requires
            self.wf(),
            params@.len() == param_count(self.layers()),
            batch_ok(self.layers(), data, target),
        ensures
            g@ == grad_spec(self.layers(), params@, data.elems(), target.elems(), data.nrows()),
            g@.len() == params@.len(),
    {
        gradient(&self.schema, params, data, target)
    }

    /// Trains the network on a batch: the optimizer runs from the current
    /// parameters, with the network as its objective, and its result
    /// replaces them whole.
    pub fn train(&mut self, data: &Matrix<T>, target: &Matrix<T>)
        requires
            old(self).wf(),
            batch_ok(old(self).layers(), data, target),
        ensures
            final(self).wf(),
            final(self).layers() == old(self).layers(),
            final(self).optimizer() == old(self).optimizer(),
            final(self).params() == descent(
                old(self),
                old(self).optimizer().spec_learning_rate(),
                old(self).params(),
                data,
                target,
                old(self).optimizer().spec_iterations(),
            ),
    {
        let start = copy_vec(&self.weights);
        let w = self.gd.optimize(&*self, &start, data, target);
        self.weights = w;
    }
}

impl<T: Scalar> Objective<T> for NeuralNet<T> {
    open spec fn accepts(&self, n_params: nat, data: &Matrix<T>, target: &Matrix<T>) -> bool {
        self.wf() && n_params == param_count(self.layers()) && batch_ok(self.layers(), data, target)
    }

    open spec fn spec_gradient(&self, params: Seq<T>, data: &Matrix<T>, target: &Matrix<T>) -> Seq<T> {
        grad_spec(self.layers(), params, data.elems(), target.elems(), data.nrows())
    }

    fn gradient(&self, params: &Vec<T>, data: &Matrix<T>, target: &Matrix<T>) -> (r: Vec<T>) {
        self.compute_grad(params, data, target)
    }
}

} // verus!
