use vstd::prelude::*;
use crate::matrix::{copy_vec, Matrix};
use crate::scalar::Scalar;

verus! {

/// Something whose loss gradient an optimizer can ask for, without knowing
/// what the loss is the loss of.
pub trait Objective<T> {
    /// Whether `gradient` is defined on parameter vectors of length
    /// `n_params` with this data and these targets.
    spec fn accepts(&self, n_params: nat, data: &Matrix<T>, target: &Matrix<T>) -> bool;

    /// The gradient that `gradient` returns.
    spec fn spec_gradient(&self, params: Seq<T>, data: &Matrix<T>, target: &Matrix<T>) -> Seq<T>;

    /// The gradient of the loss at `params`, one entry per parameter.
    fn gradient(&self, params: &Vec<T>, data: &Matrix<T>, target: &Matrix<T>) -> (r: Vec<T>)
        requires
            self.accepts(params@.len(), data, target),
        ensures
            r@ == self.spec_gradient(params@, data, target),
            r@.len() == params@.len(),
    ;
}

/// One descent step: `p[i] - learning_rate * g[i]` for each `i`.
pub open spec fn step_spec<T: Scalar>(learning_rate: T, p: Seq<T>, g: Seq<T>) -> Seq<T> {
    Seq::new(p.len(), |i: int| p[i].spec_minus(learning_rate.spec_times(g[i])))
}

/// The parameters after `n` steps of gradient descent from `start`, each step
/// taken with the objective's gradient at the current parameters.
pub open spec fn descent<T: Scalar, O: Objective<T>>(
    obj: &O,
    learning_rate: T,
    start: Seq<T>,
    data: &Matrix<T>,
    target: &Matrix<T>,
    n: nat,
) -> Seq<T>
    decreases n,
{
    if n == 0 {
        start
    } else {
        let p = descent(obj, learning_rate, start, data, target, (n - 1) as nat);
        step_spec(learning_rate, p, obj.spec_gradient(p, data, target))
    }
}

/// Full-batch gradient descent with a fixed learning rate and a fixed number
/// of iterations.
pub struct GradientDesc<T> {
    learning_rate: T,
    iterations: usize,
}

impl<T: Scalar> GradientDesc<T> {
    pub closed spec fn spec_iterations(&self) -> nat {
        self.iterations as nat
    }

    pub closed spec fn spec_learning_rate(&self) -> T {
        self.learning_rate
    }

    pub fn new(learning_rate: T, iterations: usize) -> (r: GradientDesc<T>)
        ensures
            r.spec_learning_rate() == learning_rate,
            r.spec_iterations() == iterations,
    {
        GradientDesc { learning_rate, iterations }
    }

    pub fn iterations(&self) -> (r: usize)
        ensures
            r == self.spec_iterations(),
    {
        self.iterations
    }

    /// One step: `params[i] - learning_rate * grad[i]` for each `i`.
    pub fn step(&self, params: &Vec<T>, grad: &Vec<T>) -> (r: Vec<T>)
        requires
            params@.len() == grad@.len(),
        ensures
            r@ == step_spec(self.spec_learning_rate(), params@, grad@),
    {
        let mut next: Vec<T> = Vec::new();
        let mut i: usize = 0;
        while i < params.len()
            invariant
                params@.len() == grad@.len(),
                i <= params@.len(),
                next@.len() == i,
                forall|k: int|
                    0 <= k < i ==> #[trigger] next@[k] == params@[k].spec_minus(
                        self.learning_rate.spec_times(grad@[k]),
                    ),
            decreases params@.len() - i,
        {
            let d = self.learning_rate.times(&grad[i]);
            next.push(params[i].minus(&d));
            i = i + 1;
        }
        proof {
            assert(next@ =~= step_spec(self.spec_learning_rate(), params@, grad@));
        }
        next
    }

    /// Runs `iterations` steps of descent from `start` and returns the last
    /// parameters.
    pub fn optimize<O: Objective<T>>(
        &self,
        obj: &O,
        start: &Vec<T>,
        data: &Matrix<T>,
        target: &Matrix<T>,
    ) -> (r: Vec<T>)
        requires
            obj.accepts(start@.len(), data, target),
        ensures
            r@ == descent(
                obj,
                self.spec_learning_rate(),
                start@,
                data,
                target,
                self.spec_iterations(),
            ),
            r@.len() == start@.len(),
    {
        let mut params = copy_vec(start);
        let mut it: usize = 0;
        while it < self.iterations
            invariant
                it <= self.iterations,
                obj.accepts(start@.len(), data, target),
                params@.len() == start@.len(),
                params@ == descent(obj, self.learning_rate, start@, data, target, it as nat),
            decreases self.iterations - it,
        {
            let g = obj.gradient(&params, data, target);
            params = self.step(&params, &g);
            it = it + 1;
        }
        params
    }
}

} // verus!
