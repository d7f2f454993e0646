//! Propagation on tensors of plain vectors in verified double precision.
use stableprop::backend::{Backend, ConvOptions, Format};
use stableprop::binary64::Binary64;
use stableprop::burn_sdp;
use stableprop::burn_sdp::cauchy::{check_cauchy, check_interval};
use stableprop::burn_sdp::cross::{check_cross_linear, check_cross_relu};
use stableprop::burn_sdp::diagonal::{
    check_affine, check_bayes, check_conv2d, check_correlated, check_left, check_moments,
    check_residual,
};
use stableprop::burn_sdp::full::{check_diagonal, check_full, check_width};
use stableprop::burn_sdp::rectify::check_slope;
use stableprop::dense::{Dense, DenseCube, DenseImage, DenseMatrix, DenseVector};
use stableprop::violation::Violation;

type D = Dense<Binary64>;
type Moments = burn_sdp::Moments<D>;
type MomentsFull = burn_sdp::MomentsFull<D>;
type Cauchy = burn_sdp::Cauchy<D>;
type Matrix = DenseMatrix<Binary64>;
type Cube = DenseCube<Binary64>;

fn soft(x: f64) -> Binary64 {
    Binary64 { bits: x.to_bits() }
}

fn hard(x: Binary64) -> f64 {
    f64::from_bits(x.bits)
}

fn typed(rows: &[&[f64]], format: Format) -> Matrix {
    let cols = if rows.is_empty() { 0 } else { rows[0].len() };
    let entries = rows.iter().map(|r| r.iter().map(|x| soft(*x)).collect()).collect();
    Matrix::from_rows(entries, cols, format).unwrap()
}

fn matrix(rows: &[&[f64]]) -> Matrix {
    typed(rows, Format::F64)
}

fn vector(entries: &[f64]) -> DenseVector<Binary64> {
    DenseVector { format: Format::F64, entries: entries.iter().map(|x| soft(*x)).collect() }
}

fn cube(layers: &[&[&[f64]]]) -> Cube {
    let rows = layers[0].len();
    let cols = layers[0][0].len();
    let matrices = layers.iter().map(|l| matrix(l)).collect();
    Cube::from_layers(matrices, rows, cols, Format::F64).unwrap()
}

fn image(items: &[&[&[&[f64]]]]) -> DenseImage<Binary64> {
    let channels = items[0].len();
    let rows = items[0][0].len();
    let cols = items[0][0][0].len();
    let cubes = items.iter().map(|c| cube(c)).collect();
    DenseImage::from_items(cubes, channels, rows, cols, Format::F64).unwrap()
}

fn rows_of(m: &Matrix) -> Vec<Vec<f64>> {
    let (rows, cols) = m.entries.dims();
    (0..rows).map(|i| (0..cols).map(|j| hard(m.entries.get(i, j))).collect()).collect()
}

fn layers_of(c: &Cube) -> Vec<Vec<Vec<f64>>> {
    let (layers, rows, cols) = c.entries.dims();
    (0..layers)
        .map(|b| {
            (0..rows).map(|i| (0..cols).map(|j| hard(c.entries.get(b, i, j))).collect()).collect()
        })
        .collect()
}

fn flat(x: &DenseImage<Binary64>) -> Vec<f64> {
    let (items, channels, rows, cols) = x.entries.dims();
    let mut all = Vec::new();
    for n in 0..items {
        for c in 0..channels {
            for i in 0..rows {
                for j in 0..cols {
                    all.push(hard(x.entries.get(n, c, i, j)));
                }
            }
        }
    }
    all
}

fn moments(mean: &[&[f64]], var: &[&[f64]]) -> Moments {
    let (mean, var) = (matrix(mean), matrix(var));
    assert_eq!(check_moments::<D>(&mean, &var), None);
    Moments::new(mean, var)
}

fn full(mean: &[&[f64]], cov: &[&[&[f64]]]) -> MomentsFull {
    let (mean, cov) = (matrix(mean), cube(cov));
    assert_eq!(check_full::<D>(&mean, &cov), None);
    MomentsFull::new(mean, cov)
}

fn cauchy(location: &[&[f64]], scale: &[&[f64]]) -> Cauchy {
    let (location, scale) = (matrix(location), matrix(scale));
    assert_eq!(check_cauchy::<D>(&location, &scale), None);
    Cauchy::new(location, scale)
}

fn close(a: f64, b: f64, tolerance: f64) -> bool {
    (a - b).abs() <= tolerance * (1.0 + b.abs())
}

#[test]
fn ragged_rows_make_no_tensor() {
    let ragged = vec![vec![soft(1.0)], vec![soft(1.0), soft(2.0)]];
    assert!(Matrix::from_rows(ragged, 1, Format::F64).is_none());
    let layers = vec![matrix(&[&[1.0]]), matrix(&[&[1.0, 2.0]])];
    assert!(Cube::from_layers(layers, 1, 1, Format::F64).is_none());
    let items = vec![cube(&[&[&[1.0]]]), cube(&[&[&[1.0]], &[&[1.0]]])];
    assert!(DenseImage::from_items(items, 1, 1, 1, Format::F64).is_none());
}

#[test]
fn affine_maps_have_exact_values() {
    let m = moments(&[&[1.0, 2.0]], &[&[0.5, 0.25]]);
    let weight = matrix(&[&[1.0, 0.0, 2.0], &[-1.0, 3.0, 0.5]]);
    let bias = Some(vector(&[0.5, -1.0, 0.0]));
    assert_eq!(check_affine::<D>(&m.mean, &weight, &bias), None);
    let out = burn_sdp::propagate_linear::<D>(&m, weight, bias);
    assert_eq!(rows_of(&out.mean), vec![vec![-0.5, 5.0, 3.0]]);
    assert_eq!(rows_of(&out.var), vec![vec![0.75, 2.25, 2.0625]]);
}

#[test]
fn rows_of_a_batch_do_not_meet() {
    let both = moments(&[&[1.0, 2.0], &[-3.0, 0.5]], &[&[0.5, 0.25], &[2.0, 1.0]]);
    let first = moments(&[&[1.0, 2.0]], &[&[0.5, 0.25]]);
    let second = moments(&[&[-3.0, 0.5]], &[&[2.0, 1.0]]);
    let weight = || matrix(&[&[1.5, -0.25], &[0.75, 2.0]]);
    let together = burn_sdp::propagate_linear::<D>(&both, weight(), None);
    let apart = [
        burn_sdp::propagate_linear::<D>(&first, weight(), None),
        burn_sdp::propagate_linear::<D>(&second, weight(), None),
    ];
    for (i, part) in apart.iter().enumerate() {
        assert_eq!(rows_of(&together.mean)[i], rows_of(&part.mean)[0]);
        assert_eq!(rows_of(&together.var)[i], rows_of(&part.var)[0]);
    }
}

#[test]
fn uncertain_weights_have_exact_values() {
    let m = moments(&[&[2.0]], &[&[0.5]]);
    let bias = Some((vector(&[1.0]), vector(&[0.25])));
    let (w_mean, w_var) = (matrix(&[&[3.0]]), matrix(&[&[0.125]]));
    assert_eq!(check_bayes::<D>(&m, &w_mean, &w_var, &bias), None);
    let out = burn_sdp::propagate_linear_bayes::<D>(&m, w_mean, w_var, bias);
    assert_eq!(rows_of(&out.mean), vec![vec![7.0]]);
    // 4 * 0.125 + 0.5 * 9 + 0.5 * 0.125 + 0.25
    assert_eq!(rows_of(&out.var), vec![vec![5.3125]]);
}

#[test]
fn certain_weights_are_an_affine_map() {
    let m = moments(&[&[1.25, -0.5]], &[&[0.5, 2.0]]);
    let weight = || matrix(&[&[0.3, -1.7], &[2.1, 0.9]]);
    let plain = burn_sdp::propagate_linear::<D>(&m, weight(), Some(vector(&[0.1, 0.2])));
    let certain = burn_sdp::propagate_linear_bayes::<D>(
        &m,
        weight(),
        matrix(&[&[0.0, 0.0], &[0.0, 0.0]]),
        Some((vector(&[0.1, 0.2]), vector(&[0.0, 0.0]))),
    );
    assert_eq!(rows_of(&plain.mean), rows_of(&certain.mean));
    assert_eq!(rows_of(&plain.var), rows_of(&certain.var));
}

#[test]
fn left_products_are_affine_maps_of_columns() {
    let m = moments(&[&[1.0, 2.0], &[3.0, -1.0]], &[&[0.5, 0.25], &[1.0, 2.0]]);
    let turned = moments(&[&[1.0, 3.0], &[2.0, -1.0]], &[&[0.5, 1.0], &[0.25, 2.0]]);
    let a = matrix(&[&[1.0, -2.0], &[0.5, 4.0], &[3.0, 0.0]]);
    assert_eq!(check_left::<D>(&a, &m), None);
    let left = burn_sdp::propagate_matmul_left::<D>(a, &m);
    let affine = burn_sdp::propagate_linear::<D>(
        &turned,
        matrix(&[&[1.0, 0.5, 3.0], &[-2.0, 4.0, 0.0]]),
        None,
    );
    assert_eq!(rows_of(&left.mean), rows_of(&D::transposed(&affine.mean)));
    assert_eq!(rows_of(&left.var), rows_of(&D::transposed(&affine.var)));
    assert_eq!(rows_of(&left.var)[0], vec![4.5, 8.25]);
}

#[test]
fn residuals_add_up() {
    let skip = moments(&[&[1.0, -2.0]], &[&[0.5, 1.0]]);
    let branch = moments(&[&[0.25, 4.0]], &[&[0.125, 2.0]]);
    assert_eq!(check_residual::<D>(&skip, &branch), None);
    let out = burn_sdp::propagate_residual_add::<D>(&skip, &branch);
    let turned = burn_sdp::propagate_residual_add::<D>(&branch, &skip);
    assert_eq!(rows_of(&out.mean), vec![vec![1.25, 2.0]]);
    assert_eq!(rows_of(&out.var), vec![vec![0.625, 3.0]]);
    assert_eq!(rows_of(&out.mean), rows_of(&turned.mean));
    assert_eq!(rows_of(&out.var), rows_of(&turned.var));

    let zero = matrix(&[&[0.0, 0.0]]);
    assert_eq!(check_correlated::<D>(&skip, &branch, &zero), None);
    let apart = burn_sdp::propagate_residual_add_correlated::<D>(&skip, &branch, zero);
    assert_eq!(rows_of(&apart.var), rows_of(&out.var));
    let own = burn_sdp::propagate_residual_add_correlated::<D>(&skip, &skip, matrix(&[&[0.5, 1.0]]));
    assert_eq!(rows_of(&own.mean), vec![vec![2.0, -4.0]]);
    assert_eq!(rows_of(&own.var), vec![vec![2.0, 4.0]]);
}

#[test]
fn convolutions_have_exact_values() {
    let options =
        ConvOptions { stride: (1, 1), padding: (0, 0), dilation: (1, 1), groups: 1 };
    let x = || image(&[&[&[&[1.0, 2.0, 3.0], &[4.0, 5.0, 6.0], &[7.0, 8.0, 9.0]]]]);
    let w = || image(&[&[&[&[1.0, -1.0], &[2.0, 0.5]]]]);
    assert_eq!(check_conv2d::<D>(&x(), &x(), &w(), &Some(vector(&[10.0])), options), None);
    let (mean, var) =
        burn_sdp::propagate_conv2d::<D>(x(), x(), w(), Some(vector(&[10.0])), options);
    assert_eq!(mean.entries.dims(), (1, 1, 2, 2));
    assert_eq!(flat(&mean), vec![19.5, 22.0, 27.0, 29.5]);
    assert_eq!(flat(&var), vec![20.25, 26.5, 39.0, 45.25]);
}

#[test]
fn convolutions_keep_to_stride_padding_dilation_and_groups() {
    let options =
        ConvOptions { stride: (2, 1), padding: (1, 0), dilation: (1, 2), groups: 2 };
    let x = || {
        image(&[&[
            &[&[1.0, 2.0, 3.0, 4.0], &[5.0, 6.0, 7.0, 8.0]],
            &[&[-1.0, 0.0, 1.0, 2.0], &[0.5, 1.5, 2.5, 3.5]],
        ]])
    };
    let w = || image(&[&[&[&[1.0, 10.0], &[100.0, 1000.0]]], &[&[&[2.0, 0.0], &[0.0, -1.0]]]]);
    assert_eq!(check_conv2d::<D>(&x(), &x(), &w(), &None, options), None);
    let (mean, _) = burn_sdp::propagate_conv2d::<D>(x(), x(), w(), None, options);
    // Rows -1 and 1 of the padded input start a window, columns 0 and 1 too.
    assert_eq!(mean.entries.dims(), (1, 2, 2, 2));
    assert_eq!(
        flat(&mean),
        vec![3100.0, 4200.0, 75.0, 86.0, -1.0, -2.0, 1.0, 3.0],
    );
}

#[test]
fn rectified_moments_match_the_closed_form() {
    let m = moments(&[&[0.0, 1.0, -1.0, 0.5]], &[&[1.0, 4.0, 0.25, 2.0]]);
    let out = burn_sdp::propagate_relu::<D>(&m);
    // Half of a normal distribution: mean 1/sqrt(2 pi), variance (1 - 1/pi) / 2.
    let pi = std::f64::consts::PI;
    assert!(close(rows_of(&out.mean)[0][0], 1.0 / (2.0 * pi).sqrt(), 1e-12));
    assert!(close(rows_of(&out.var)[0][0], 0.5 - 0.5 / pi, 1e-12));
    // mu Phi(a) + sigma phi(a) and what the second moment leaves, a = mu / sigma.
    for (j, mean, var) in [
        (1, 1.395_593_114_802_612_2, 2.213_762_817_814_207_5),
        (2, 0.004_245_351_308_414_812, 0.001_424_158_670_898_133_7),
        (3, 0.849_088_662_230_116_5, 0.979_919_164_955_566_2),
    ] {
        assert!(close(rows_of(&out.mean)[0][j], mean, 1e-12), "mean {j}");
        assert!(close(rows_of(&out.var)[0][j], var, 1e-12), "var {j}");
    }
}

#[test]
fn rectified_variance_is_not_negative() {
    let mut mean = -9.0;
    while mean < 9.0 {
        let out = burn_sdp::propagate_relu::<D>(&moments(&[&[mean]], &[&[1.0]]));
        assert!(rows_of(&out.var)[0][0] >= 0.0, "mean {mean}");
        mean += 0.25;
    }
}

#[test]
fn certain_features_are_rectified_plainly() {
    let m = moments(&[&[2.5, -2.5, 0.0]], &[&[0.0, 0.0, 0.0]]);
    let out = burn_sdp::propagate_relu::<D>(&m);
    assert_eq!(rows_of(&out.mean), vec![vec![2.5, 0.0, 0.0]]);
    assert_eq!(rows_of(&out.var), vec![vec![0.0, 0.0, 0.0]]);
}

#[test]
fn far_features_pass_or_vanish() {
    let m = moments(&[&[16.0, -16.0]], &[&[4.0, 4.0]]);
    let out = burn_sdp::propagate_relu::<D>(&m);
    assert_eq!(rows_of(&out.mean), vec![vec![16.0, 0.0]]);
    assert_eq!(rows_of(&out.var), vec![vec![4.0, 0.0]]);
}

#[test]
fn no_slope_is_a_rectifier() {
    let m = moments(&[&[0.3, -1.2, 4.0]], &[&[1.0, 0.5, 0.1]]);
    assert_eq!(check_slope::<D>(Format::F64, soft(0.0)), None);
    let plain = burn_sdp::propagate_relu::<D>(&m);
    let leaky = burn_sdp::propagate_leaky_relu::<D>(&m, soft(0.0));
    for j in 0..3 {
        assert!(close(rows_of(&leaky.mean)[0][j], rows_of(&plain.mean)[0][j], 1e-14));
        assert!(close(rows_of(&leaky.var)[0][j], rows_of(&plain.var)[0][j], 1e-14));
    }
}

#[test]
fn full_slope_changes_nothing() {
    let m = moments(&[&[0.3, -1.2]], &[&[1.0, 0.5]]);
    let out = burn_sdp::propagate_leaky_relu::<D>(&m, soft(1.0));
    for j in 0..2 {
        assert!(close(rows_of(&out.mean)[0][j], rows_of(&m.mean)[0][j], 1e-12));
        assert!(close(rows_of(&out.var)[0][j], rows_of(&m.var)[0][j], 1e-12));
    }
}

#[test]
fn scaled_inputs_give_scaled_moments() {
    let one = burn_sdp::propagate_relu::<D>(&moments(&[&[0.4, -0.9]], &[&[1.0, 0.5]]));
    let four = burn_sdp::propagate_relu::<D>(&moments(&[&[1.6, -3.6]], &[&[16.0, 8.0]]));
    for j in 0..2 {
        assert!(close(rows_of(&four.mean)[0][j], 4.0 * rows_of(&one.mean)[0][j], 1e-13));
        assert!(close(rows_of(&four.var)[0][j], 16.0 * rows_of(&one.var)[0][j], 1e-13));
    }
}

#[test]
fn reflected_inputs_share_their_raw_moments() {
    for mean in [0.0, 0.25, 1.0, 1.75, 2.5, 5.0] {
        let m = burn_sdp::propagate_relu::<D>(&moments(&[&[mean]], &[&[1.0]]));
        let n = burn_sdp::propagate_relu::<D>(&moments(&[&[-mean]], &[&[1.0]]));
        let (mu, nu) = (rows_of(&m.mean)[0][0], rows_of(&n.mean)[0][0]);
        let (mv, nv) = (rows_of(&m.var)[0][0], rows_of(&n.var)[0][0]);
        assert!(close(mu - nu, mean, 1e-12), "mean {mean}");
        assert!(close(mv + mu * mu + nv + nu * nu, 1.0 + mean * mean, 1e-12), "second {mean}");
    }
}

#[test]
fn diagonals_come_back() {
    let (mean, var) = (matrix(&[&[1.0, 2.0], &[3.0, 4.0]]), matrix(&[&[0.5, 0.25], &[2.0, 3.0]]));
    assert_eq!(check_diagonal::<D>(&mean, &var), None);
    let m = MomentsFull::from_diagonal(mean, var);
    assert_eq!(
        layers_of(&m.cov),
        vec![
            vec![vec![0.5, 0.0], vec![0.0, 0.25]],
            vec![vec![2.0, 0.0], vec![0.0, 3.0]],
        ],
    );
    assert_eq!(rows_of(&m.variance()), vec![vec![0.5, 0.25], vec![2.0, 3.0]]);
}

#[test]
fn full_affine_maps_compose() {
    let m = || full(&[&[1.0, -1.0]], &[&[&[2.0, 0.5], &[0.5, 1.0]]]);
    let w = || matrix(&[&[1.0, 2.0], &[0.0, -1.0]]);
    let v = || matrix(&[&[3.0, 1.0], &[1.0, -2.0]]);
    // w @ v
    let wv = matrix(&[&[5.0, -3.0], &[-1.0, 2.0]]);
    let one = burn_sdp::propagate_linear_full::<D>(&m(), w(), Some(vector(&[1.0, 0.0])));
    let two = burn_sdp::propagate_linear_full::<D>(&one, v(), Some(vector(&[0.0, 2.0])));
    // [1, 0] @ v + [0, 2]
    let once = burn_sdp::propagate_linear_full::<D>(&m(), wv, Some(vector(&[3.0, 3.0])));
    assert_eq!(rows_of(&two.mean), rows_of(&once.mean));
    assert_eq!(layers_of(&two.cov), layers_of(&once.cov));
    assert_eq!(layers_of(&one.cov), vec![vec![vec![2.0, 3.5], vec![3.5, 7.0]]]);
}

#[test]
fn full_variance_is_that_of_the_diagonal_path() {
    let (mean, var): (&[&[f64]], &[&[f64]]) = (&[&[0.4, -0.2]], &[&[1.0, 0.5]]);
    let weight = || matrix(&[&[1.0, 0.5], &[-2.0, 0.25]]);
    let diagonal = burn_sdp::propagate_linear::<D>(&moments(mean, var), weight(), None);
    let all = MomentsFull::from_diagonal(matrix(mean), matrix(var));
    let all = burn_sdp::propagate_linear_full::<D>(&all, weight(), None);
    assert_eq!(rows_of(&all.mean), rows_of(&diagonal.mean));
    assert_eq!(rows_of(&all.variance()), rows_of(&diagonal.var));
}

#[test]
fn full_rectifiers_keep_to_the_marginals() {
    let m = full(
        &[&[0.4, -0.2, 20.0, -20.0]],
        &[&[
            &[1.0, 0.3, 0.2, 0.1],
            &[0.3, 0.5, 0.0, 0.05],
            &[0.2, 0.0, 1.0, 0.4],
            &[0.1, 0.05, 0.4, 1.0],
        ]],
    );
    assert_eq!(check_width(4), None);
    let out = burn_sdp::propagate_relu_full::<D>(&m);
    let marginal = burn_sdp::propagate_relu::<D>(&moments(
        &[&[0.4, -0.2, 20.0, -20.0]],
        &[&[1.0, 0.5, 1.0, 1.0]],
    ));
    assert_eq!(rows_of(&out.mean), rows_of(&marginal.mean));
    assert_eq!(rows_of(&out.variance()), rows_of(&marginal.var));
    let cov = &layers_of(&out.cov)[0];
    for i in 0..4 {
        for j in 0..4 {
            assert_eq!(cov[i][j], cov[j][i], "symmetry at {i} {j}");
        }
    }
    // Uncorrelated features stay so, and what is far below does not vary.
    assert_eq!(cov[1][2], 0.0);
    assert_eq!(cov[0][3], 0.0);
    assert_eq!(cov[2][3], 0.0);
}

#[test]
fn two_far_features_keep_their_covariance() {
    let m = full(&[&[20.0, 30.0]], &[&[&[1.0, 0.3], &[0.3, 2.0]]]);
    let out = burn_sdp::propagate_relu_full::<D>(&m);
    assert_eq!(layers_of(&out.cov), vec![vec![vec![1.0, 0.3], vec![0.3, 2.0]]]);
}

#[test]
fn cross_covariances_pass_through_layers() {
    let cross = || cube(&[&[&[1.0, 2.0], &[-1.0, 0.5]]]);
    let w = || matrix(&[&[1.0, 0.0, 2.0], &[3.0, 1.0, 0.0]]);
    assert_eq!(check_cross_linear::<D>(&cross(), &w()), None);
    let out = burn_sdp::propagate_linear_cross_covariance::<D>(cross(), w());
    assert_eq!(layers_of(&out), vec![vec![vec![7.0, 2.0, 2.0], vec![0.5, 0.5, -2.0]]]);

    let right = moments(&[&[20.0, -20.0]], &[&[1.0, 1.0]]);
    assert_eq!(check_cross_relu::<D>(&cross(), &right), None);
    let far = burn_sdp::propagate_relu_cross_covariance::<D>(cross(), &right);
    assert_eq!(layers_of(&far), vec![vec![vec![1.0, 0.0], vec![-1.0, 0.0]]]);

    // At mean zero half of the covariance passes.
    let middle = moments(&[&[0.0, 0.0]], &[&[1.0, 4.0]]);
    let half = burn_sdp::propagate_relu_cross_covariance::<D>(cross(), &middle);
    for (i, row) in layers_of(&half)[0].iter().enumerate() {
        for (j, x) in row.iter().enumerate() {
            assert!(close(*x, 0.5 * layers_of(&cross())[0][i][j], 1e-12));
        }
    }
}

#[test]
fn cross_covariances_of_reflections_add_up() {
    let cross = || cube(&[&[&[1.0, 2.0], &[-1.0, 0.5]]]);
    let a = burn_sdp::propagate_relu_cross_covariance::<D>(
        cross(),
        &moments(&[&[0.6, -1.5]], &[&[1.0, 4.0]]),
    );
    let b = burn_sdp::propagate_relu_cross_covariance::<D>(
        cross(),
        &moments(&[&[-0.6, 1.5]], &[&[1.0, 4.0]]),
    );
    for i in 0..2 {
        for j in 0..2 {
            let total = layers_of(&a)[0][i][j] + layers_of(&b)[0][i][j];
            assert!(close(total, layers_of(&cross())[0][i][j], 1e-12), "{i} {j}");
        }
    }
}

#[test]
fn cauchy_distributions_pass_through_layers() {
    let c = cauchy(&[&[1.0, -2.0]], &[&[0.5, 0.25]]);
    let out = burn_sdp::propagate_linear_cauchy::<D>(
        &c,
        matrix(&[&[2.0, -1.0], &[1.0, 4.0]]),
        Some(vector(&[0.5, 0.0])),
    );
    assert_eq!(rows_of(&out.location), vec![vec![0.5, -9.0]]);
    assert_eq!(rows_of(&out.scale), vec![vec![1.25, 1.5]]);

    let gated = burn_sdp::propagate_relu_cauchy::<D>(&cauchy(&[&[3.0, -3.0, 0.0]], &[&[1.0, 1.0, 1.0]]));
    assert_eq!(rows_of(&gated.location), vec![vec![3.0, 0.0, 0.0]]);
    assert_eq!(rows_of(&gated.scale), vec![vec![1.0, 0.0, 0.0]]);
}

#[test]
fn central_intervals_have_the_width_of_their_mass() {
    let c = cauchy(&[&[1.0]], &[&[2.0]]);
    assert_eq!(check_interval::<D>(Format::F64, soft(0.5)), None);
    assert!(close(rows_of(&c.interval_halfwidth(soft(0.5)))[0][0], 2.0, 1e-14));
    assert_eq!(rows_of(&c.interval_halfwidth(soft(0.0))), vec![vec![0.0]]);
}

#[test]
fn unfit_moments_are_named() {
    let m = moments(&[&[1.0, 2.0]], &[&[1.0, 1.0]]);
    let single = |rows: &[&[f64]]| typed(rows, Format::F32);
    assert_eq!(
        check_moments::<D>(&m.mean, &matrix(&[&[1.0]])),
        Some(Violation::MomentsShapes),
    );
    assert_eq!(
        check_moments::<D>(&m.mean, &single(&[&[1.0, 1.0]])),
        Some(Violation::MomentsFormats),
    );
    assert_eq!(
        check_affine::<D>(&m.mean, &matrix(&[&[1.0]]), &None),
        Some(Violation::InputWidth),
    );
    assert_eq!(
        check_affine::<D>(&m.mean, &single(&[&[1.0], &[1.0]]), &None),
        Some(Violation::OperandFormats),
    );
    let weight = matrix(&[&[1.0], &[1.0]]);
    assert_eq!(
        check_affine::<D>(&m.mean, &weight, &Some(vector(&[1.0, 2.0]))),
        Some(Violation::BiasWidth),
    );
    assert_eq!(
        check_bayes::<D>(&m, &weight, &matrix(&[&[1.0]]), &None),
        Some(Violation::WeightShapes),
    );
    assert_eq!(
        check_bayes::<D>(&m, &weight, &weight, &Some((vector(&[1.0]), vector(&[])))),
        Some(Violation::BiasShapes),
    );
    assert_eq!(
        check_bayes::<D>(&m, &weight, &weight, &Some((vector(&[]), vector(&[])))),
        Some(Violation::BiasWidths),
    );
    assert_eq!(check_left::<D>(&m.mean, &m), Some(Violation::InputWidth));
    let other = moments(&[&[1.0]], &[&[1.0]]);
    assert_eq!(check_residual::<D>(&m, &other), Some(Violation::ResidualShapes));
    assert_eq!(
        check_correlated::<D>(&m, &m, &matrix(&[&[1.0]])),
        Some(Violation::ResidualCrossShape),
    );
}

#[test]
fn unfit_convolutions_are_named() {
    let options = ConvOptions { stride: (1, 1), padding: (0, 0), dilation: (1, 1), groups: 1 };
    let x = image(&[&[&[&[1.0, 2.0], &[3.0, 4.0]]]]);
    let narrow = image(&[&[&[&[1.0], &[3.0]]]]);
    let wide = image(&[&[&[&[1.0, 2.0, 3.0]]]]);
    assert_eq!(
        check_conv2d::<D>(&x, &narrow, &narrow, &None, options),
        Some(Violation::ConvolutionShapes),
    );
    assert_eq!(
        check_conv2d::<D>(&x, &x, &wide, &None, options),
        Some(Violation::ConvolutionFit),
    );
    assert_eq!(
        check_conv2d::<D>(&x, &x, &narrow, &Some(vector(&[1.0, 2.0])), options),
        Some(Violation::ConvolutionFit),
    );
    let still = ConvOptions { stride: (0, 1), ..options };
    assert_eq!(
        check_conv2d::<D>(&x, &x, &narrow, &None, still),
        Some(Violation::ConvolutionFit),
    );
    assert_eq!(check_conv2d::<D>(&x, &x, &narrow, &None, options), None);
}

#[test]
fn unfit_covariances_are_named() {
    let mean = matrix(&[&[1.0, 2.0]]);
    let cov = cube(&[&[&[1.0, 0.0], &[0.0, 1.0]]]);
    assert_eq!(
        check_full::<D>(&mean, &cube(&[&[&[1.0]]])),
        Some(Violation::CovarianceShape),
    );
    assert_eq!(
        check_full::<D>(&typed(&[&[1.0, 2.0]], Format::F16), &cov),
        Some(Violation::CovarianceFormats),
    );
    assert_eq!(check_width(usize::MAX), Some(Violation::FeatureCount));
    assert_eq!(
        check_diagonal::<D>(&mean, &matrix(&[&[1.0]])),
        Some(Violation::MomentsShapes),
    );
    assert_eq!(
        check_cross_linear::<D>(&cov, &matrix(&[&[1.0]])),
        Some(Violation::CrossWeight),
    );
    let right = moments(&[&[1.0]], &[&[1.0]]);
    assert_eq!(check_cross_relu::<D>(&cov, &right), Some(Violation::CrossMean));
    let skewed = Moments { mean: matrix(&[&[1.0, 2.0]]), var: matrix(&[&[1.0]]) };
    assert_eq!(check_cross_relu::<D>(&cov, &skewed), Some(Violation::CrossVariance));
}

#[test]
fn unfit_intervals_and_slopes_are_named() {
    let location = matrix(&[&[1.0, 2.0]]);
    assert_eq!(
        check_cauchy::<D>(&location, &matrix(&[&[1.0]])),
        Some(Violation::CauchyShapes),
    );
    assert_eq!(
        check_cauchy::<D>(&location, &typed(&[&[1.0, 1.0]], Format::BF16)),
        Some(Violation::CauchyFormats),
    );
    for p in [-0.1, 1.0, f64::NAN, f64::INFINITY] {
        assert_eq!(
            check_interval::<D>(Format::F64, soft(p)),
            Some(Violation::ProbabilityMass),
            "{p}",
        );
    }
    for alpha in [f64::NAN, f64::INFINITY, f64::NEG_INFINITY] {
        assert_eq!(check_slope::<D>(Format::F64, soft(alpha)), Some(Violation::Slope), "{alpha}");
    }
    assert_eq!(
        check_slope::<D>(Format::F64, soft(1e200)),
        Some(Violation::SlopeCoefficients),
    );
    assert_eq!(check_slope::<D>(Format::F64, soft(-0.5)), None);
    // Whether a coefficient fits is a matter of the format.
    assert_eq!(check_slope::<D>(Format::F64, soft(1e20)), None);
    assert_eq!(
        check_slope::<D>(Format::F32, soft(1e20)),
        Some(Violation::SlopeCoefficients),
    );
    assert_eq!(
        check_slope::<D>(Format::F16, soft(1e-6)),
        Some(Violation::SlopeCoefficients),
    );
    assert_eq!(
        check_interval::<D>(Format::F16, soft(0.999_999)),
        Some(Violation::IntervalCoefficient),
    );
    assert_eq!(check_interval::<D>(Format::F32, soft(0.999_999)), None);
}

#[test]
fn vectors_in_verified_double_precision() {
    let m = stableprop::Moments {
        mean: vec![soft(0.5), soft(-1.25)],
        cov: vec![vec![soft(1.0), soft(0.25)], vec![soft(0.25), soft(2.0)]],
    };
    let weight = vec![vec![soft(2.0), soft(-1.0)]];
    let out = stableprop::propagate_linear(&m, &weight, &[soft(0.5)]);
    assert_eq!(hard(out.mean[0]), 2.75);
    assert_eq!(hard(out.cov[0][0]), 5.0);
    let out = stableprop::propagate_relu(&m);
    assert!(close(hard(out.mean[0]), 0.697_796_557_401_306_1, 1e-6));
    assert_eq!(hard(out.cov[0][1]), 0.0);
}
