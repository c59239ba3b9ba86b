use mlp_trainer::error::NetError;
use mlp_trainer::layout::project;
use mlp_trainer::matrix::{MapOp, Matrix, ZipOp};
use mlp_trainer::network::NeuralNet;
use mlp_trainer::optim::GradientDesc;
use mlp_trainer::scalar::Scalar;
use mlp_trainer::schema::LayerSchema;

#[derive(Clone, Copy, Debug, PartialEq)]
struct F(f64);

impl Scalar for F {
    fn spec_zero() -> Self {
        Self::zero()
    }
    fn spec_one() -> Self {
        Self::one()
    }
    fn spec_plus(self, o: Self) -> Self {
        self.plus(&o)
    }
    fn spec_minus(self, o: Self) -> Self {
        self.minus(&o)
    }
    fn spec_times(self, o: Self) -> Self {
        self.times(&o)
    }
    fn spec_div_count(self, n: usize) -> Self {
        self.div_count(n)
    }
    fn spec_activation(self) -> Self {
        self.activation()
    }
    fn spec_activation_grad(self) -> Self {
        self.activation_grad()
    }
    fn zero() -> Self {
        F(0.0)
    }
    fn one() -> Self {
        F(1.0)
    }
    fn plus(&self, o: &Self) -> Self {
        F(self.0 + o.0)
    }
    fn minus(&self, o: &Self) -> Self {
        F(self.0 - o.0)
    }
    fn times(&self, o: &Self) -> Self {
        F(self.0 * o.0)
    }
    fn div_count(&self, n: usize) -> Self {
        F(self.0 / n as f64)
    }
    fn activation(&self) -> Self {
        F(1.0 / (1.0 + (-self.0).exp()))
    }
    fn activation_grad(&self) -> Self {
        let s = self.activation().0;
        F(s * (1.0 - s))
    }
}

fn fs(v: &[f64]) -> Vec<F> {
    v.iter().map(|&x| F(x)).collect()
}

fn mat(rows: usize, cols: usize, v: &[f64]) -> Matrix<F> {
    Matrix::new(rows, cols, fs(v)).unwrap()
}

fn vals(m: &Matrix<F>) -> Vec<f64> {
    m.data().iter().map(|x| x.0).collect()
}

fn blocks_for(sizes: &[usize], f: impl Fn(usize) -> f64) -> Vec<Vec<F>> {
    let mut out = Vec::new();
    let mut k = 0;
    for l in 0..sizes.len() - 1 {
        let mut b = Vec::new();
        for _ in 0..(sizes[l] + 1) * sizes[l + 1] {
            b.push(F(f(k)));
            k += 1;
        }
        out.push(b);
    }
    out
}

fn net(sizes: &[usize], f: impl Fn(usize) -> f64, lr: f64, iters: usize) -> NeuralNet<F> {
    let blocks = blocks_for(sizes, f);
    NeuralNet::new(sizes.to_vec(), &blocks, GradientDesc::new(F(lr), iters)).unwrap()
}

#[test]
fn schema_rejects_short_or_empty_layers() {
    assert!(matches!(LayerSchema::new(vec![3]), Err(NetError::InvalidSchema)));
    assert!(matches!(LayerSchema::new(vec![]), Err(NetError::InvalidSchema)));
    assert!(matches!(LayerSchema::new(vec![2, 0, 1]), Err(NetError::InvalidSchema)));
    assert!(matches!(LayerSchema::new(vec![usize::MAX, 2]), Err(NetError::TooLarge)));
    assert!(matches!(LayerSchema::new(vec![1 << 40, 1 << 40]), Err(NetError::TooLarge)));
}

#[test]
fn parameter_count_and_offsets() {
    let s = LayerSchema::new(vec![2, 4, 1]).unwrap();
    assert_eq!(s.param_count(), 3 * 4 + 5 * 1);
    assert_eq!(s.block_offset(0), 0);
    assert_eq!(s.block_offset(1), 12);
    assert_eq!(s.block_offset(2), 17);
    let s = LayerSchema::new(vec![3, 3, 3, 3]).unwrap();
    assert_eq!(s.param_count(), 36);
    assert_eq!(s.len(), 4);
    assert_eq!(s.size(2), 3);
}

#[test]
fn initial_parameters_have_schema_length() {
    for sizes in [vec![1, 1], vec![2, 4, 1], vec![3, 3, 3, 3], vec![5, 2, 7]] {
        let n = net(&sizes, |k| k as f64, 0.1, 0);
        let s = LayerSchema::new(sizes.clone()).unwrap();
        let mut total = 0;
        for l in 0..sizes.len() - 1 {
            total += (sizes[l] + 1) * sizes[l + 1];
        }
        assert_eq!(s.param_count(), total);
        for l in 0..sizes.len() - 1 {
            let w = n.get_net_weights(l);
            assert_eq!(w.rows(), sizes[l] + 1);
            assert_eq!(w.cols(), sizes[l + 1]);
        }
    }
}

#[test]
fn new_rejects_wrong_blocks() {
    let gd = GradientDesc::new(F(0.1), 1);
    let blocks = vec![fs(&[0.0; 12])];
    assert!(matches!(NeuralNet::new(vec![2, 4, 1], &blocks, gd), Err(NetError::ParameterLength)));
    let gd = GradientDesc::new(F(0.1), 1);
    let blocks = vec![fs(&[0.0; 12]), fs(&[0.0; 4])];
    assert!(matches!(NeuralNet::new(vec![2, 4, 1], &blocks, gd), Err(NetError::ParameterLength)));
    let gd = GradientDesc::new(F(0.1), 1);
    assert!(matches!(NeuralNet::new(vec![2], &vec![], gd), Err(NetError::InvalidSchema)));
}

#[test]
fn net_weights_of_three_by_four_layers() {
    let n = net(&[3, 3, 3, 3], |k| k as f64, 0.1, 0);
    let w = n.get_net_weights(2);
    assert_eq!(w.rows(), 4);
    assert_eq!(w.cols(), 3);
    assert_eq!(vals(&w), (24..36).map(|k| k as f64).collect::<Vec<_>>());
}

#[test]
fn projection_round_trip() {
    let s = LayerSchema::new(vec![2, 4, 1]).unwrap();
    let flat: Vec<F> = (0..17).map(|k| F(k as f64 * 0.5)).collect();
    let w0 = project(&s, &flat, 0);
    let w1 = project(&s, &flat, 1);
    assert_eq!((w0.rows(), w0.cols()), (3, 4));
    assert_eq!((w1.rows(), w1.cols()), (5, 1));
    assert_eq!(w0.get(1, 2), flat[6]);
    let mut back = w0.into_vec();
    assert_eq!(back, flat[0..12].to_vec());
    back.extend(w1.into_vec());
    assert_eq!(back, flat);
    let blocks = vec![flat[0..12].to_vec(), flat[12..17].to_vec()];
    assert_eq!(s.concat_blocks(&blocks).unwrap(), flat);
}

#[test]
fn matrix_operations() {
    assert!(matches!(Matrix::new(2, 3, fs(&[1.0; 5])), Err(NetError::ShapeMismatch)));
    let a = mat(2, 3, &[1.0, 2.0, 3.0, 4.0, 5.0, 6.0]);
    let t = a.transpose();
    assert_eq!((t.rows(), t.cols()), (3, 2));
    assert_eq!(vals(&t), vec![1.0, 4.0, 2.0, 5.0, 3.0, 6.0]);
    let b = a.with_bias();
    assert_eq!(vals(&b), vec![1.0, 1.0, 2.0, 3.0, 1.0, 4.0, 5.0, 6.0]);
    let p = a.mat_mul(&t).unwrap();
    assert_eq!(vals(&p), vec![14.0, 32.0, 32.0, 77.0]);
    assert!(matches!(a.mat_mul(&a), Err(NetError::ShapeMismatch)));
    let d = a.zip(&a, ZipOp::Minus).unwrap();
    assert_eq!(vals(&d), vec![0.0; 6]);
    let m = a.zip(&a, ZipOp::Times).unwrap();
    assert_eq!(vals(&m), vec![1.0, 4.0, 9.0, 16.0, 25.0, 36.0]);
    assert!(matches!(a.zip(&t, ZipOp::Minus), Err(NetError::ShapeMismatch)));
    let h = a.map(MapOp::DivCount(2));
    assert_eq!(vals(&h), vec![0.5, 1.0, 1.5, 2.0, 2.5, 3.0]);
    let s = mat(1, 1, &[0.0]).map(MapOp::Activation);
    assert_eq!(vals(&s), vec![0.5]);
    let g = mat(1, 1, &[0.0]).map(MapOp::ActivationGrad);
    assert_eq!(vals(&g), vec![0.25]);
    let r = a.without_first_row();
    assert_eq!((r.rows(), r.cols()), (1, 3));
    assert_eq!(vals(&r), vec![4.0, 5.0, 6.0]);
}

#[test]
fn predict_shape() {
    let n = net(&[2, 4, 3], |k| (k % 5) as f64 * 0.1, 0.1, 0);
    let data = mat(5, 2, &[0.0, 1.0, 2.0, 3.0, 4.0, 5.0, 6.0, 7.0, 8.0, 9.0]);
    let out = n.predict(&data);
    assert_eq!((out.rows(), out.cols()), (5, 3));
}

#[test]
fn predict_is_deterministic_on_zero_input() {
    let n = net(&[2, 1], |k| [0.25, -1.5, 2.0][k], 0.1, 0);
    let data = mat(1, 2, &[0.0, 0.0]);
    let a = n.predict(&data);
    let b = n.predict(&data);
    assert_eq!(vals(&a), vec![0.25]);
    assert_eq!(vals(&a), vals(&b));
    let c = n.predict(&mat(1, 2, &[1.0, 2.0]));
    assert_eq!(vals(&c), vec![0.25 - 1.5 + 4.0]);
}

#[test]
fn later_transitions_apply_the_activation() {
    let n = net(&[1, 1, 1], |k| [1.0, 2.0, 0.0, 1.0][k], 0.1, 0);
    let out = n.predict(&mat(1, 1, &[-1.5]));
    // first transition: 1 + 2 * -1.5 = -2, passed on as it is;
    // second: sigmoid(0 + 1 * -2)
    let expected = 1.0 / (1.0 + 2.0f64.exp());
    assert!((out.data()[0].0 - expected).abs() < 1e-12);
}

#[test]
fn gradient_has_parameter_length() {
    for sizes in [vec![1, 1], vec![2, 4, 1], vec![3, 2, 2, 4]] {
        let n = net(&sizes, |k| (k % 7) as f64 * 0.1 - 0.3, 0.1, 0);
        let s = LayerSchema::new(sizes.clone()).unwrap();
        let params: Vec<F> = (0..s.param_count()).map(|k| F(k as f64 * 0.01)).collect();
        let rows = 3;
        let data = mat(rows, sizes[0], &vec![0.5; rows * sizes[0]]);
        let last = sizes[sizes.len() - 1];
        let target = mat(rows, last, &vec![1.0; rows * last]);
        let g = n.compute_grad(&params, &data, &target);
        assert_eq!(g.len(), params.len());
    }
}

#[test]
fn gradient_of_linear_fit() {
    // schema [1, 1]: output = b + w x; gradient = [1 | x]^T (out - y) / n
    let n = net(&[1, 1], |_| 0.0, 0.1, 0);
    let data = mat(2, 1, &[1.0, 2.0]);
    let target = mat(2, 1, &[2.0, 4.0]);
    let g = n.compute_grad(&fs(&[0.0, 1.0]), &data, &target);
    // outputs 1, 2; errors -1, -2
    assert_eq!(g, fs(&[-1.5, -2.5]));
}

#[test]
fn batch_checks() {
    let n = net(&[2, 4, 1], |_| 0.1, 0.1, 0);
    let data = mat(2, 2, &[0.0, 1.0, 1.0, 0.0]);
    let target = mat(2, 1, &[0.0, 1.0]);
    assert!(n.check_batch(&data, &target));
    let wide = mat(2, 3, &[0.0; 6]);
    assert!(!n.check_batch(&wide, &target));
    let short = mat(1, 1, &[0.0]);
    assert!(!n.check_batch(&data, &short));
    let empty = mat(0, 2, &[]);
    let empty_t = mat(0, 1, &[]);
    assert!(!n.check_batch(&empty, &empty_t));
}

#[test]
fn mismatched_columns_are_refused() {
    let n = net(&[2, 4, 1], |k| k as f64 * 0.01, 0.1, 10);
    assert!(!n.check_input(&mat(2, 3, &[0.0; 6])));
    assert!(!n.check_input(&mat(2, 1, &[0.0; 2])));
    assert!(n.check_input(&mat(2, 2, &[0.0; 4])));
}

#[test]
fn one_step_of_descent() {
    // schema [1, 1], params [b, w] = [0, 1], eta = 0.1: p - 0.1 * grad
    let mut n = net(&[1, 1], |k| [0.0, 1.0][k], 0.1, 1);
    let data = mat(2, 1, &[1.0, 2.0]);
    let target = mat(2, 1, &[2.0, 4.0]);
    n.train(&data, &target);
    let w = n.get_net_weights(0).into_vec();
    assert!((w[0].0 - 0.15).abs() < 1e-12);
    assert!((w[1].0 - 1.25).abs() < 1e-12);
}

#[test]
fn rows_are_predicted_independently() {
    let n = net(&[2, 3, 2], |k| ((k * 5) % 7) as f64 * 0.1 - 0.3, 0.1, 0);
    let both = n.predict(&mat(2, 2, &[0.5, -1.0, 2.0, 0.25]));
    let first = n.predict(&mat(1, 2, &[0.5, -1.0]));
    let second = n.predict(&mat(1, 2, &[2.0, 0.25]));
    assert_eq!(vals(&both)[0..2].to_vec(), vals(&first));
    assert_eq!(vals(&both)[2..4].to_vec(), vals(&second));
}

#[test]
fn descent_fits_a_line() {
    let mut n = net(&[1, 1], |_| 0.0, 0.05, 3000);
    let xs = [0.0, 0.5, 1.0, 1.5, 2.0];
    let ys: Vec<f64> = xs.iter().map(|x| 2.0 * x).collect();
    let data = mat(5, 1, &xs);
    let target = mat(5, 1, &ys);
    n.train(&data, &target);
    let w = n.get_net_weights(0);
    assert!((w.get(1, 0).0 - 2.0).abs() < 0.05);
    assert!(w.get(0, 0).0.abs() < 0.05);
}

#[test]
fn descent_with_no_iterations_keeps_parameters() {
    let mut n = net(&[2, 3, 1], |k| k as f64 * 0.1, 0.5, 0);
    let before = n.get_net_weights(1).into_vec();
    n.train(&mat(1, 2, &[1.0, 0.0]), &mat(1, 1, &[1.0]));
    assert_eq!(n.get_net_weights(1).into_vec(), before);
}

#[test]
fn learns_logical_and() {
    let mut n = net(&[2, 4, 1], |k| ((k * 7) % 11) as f64 / 10.0 - 0.5, 0.5, 5000);
    let data = mat(4, 2, &[0.0, 0.0, 0.0, 1.0, 1.0, 0.0, 1.0, 1.0]);
    let target = mat(4, 1, &[0.0, 0.0, 0.0, 1.0]);
    n.train(&data, &target);
    let out = n.predict(&data);
    let labels = [0.0, 0.0, 0.0, 1.0];
    let mut right = 0;
    for i in 0..4 {
        let p = out.get(i, 0).0;
        if (p > 0.5) == (labels[i] > 0.5) {
            right += 1;
        }
    }
    assert!(right >= 3);
}
