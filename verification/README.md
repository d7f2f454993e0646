# stableprop

Propagation of distributions through neural-network layers, verified with Verus.

A Gaussian that enters an affine layer leaves it as a Gaussian whose mean and
covariance are known exactly. A rectifier turns it into something else, of which
the first two moments have a closed form (Frey & Hinton, 1999). This library
computes those moments, for vectors with a full covariance and for batches of
tensors with diagonal covariance, full covariance, cross-covariance between two
variables, or Cauchy location and scale.

Every function states in its contract what it computes, operation by operation,
over the arithmetic of the number type in use. A result is therefore fixed down
to the last rounding. Inputs that cannot be propagated are named by a
`Violation`; the `check_*` functions find them.

## Layout

- `src/scalar.rs`: the number types, as a trait with specification twins.
- `src/binary64/`: a number type whose sums, products, quotients and square
  roots are proved to be the correctly rounded ones of IEEE 754 binary64, and
  one that rounds its results further, to a shorter format.
- `src/gaussian.rs`, `src/matrix.rs`, `src/vector.rs`: moments of vectors, and
  sequences of layers.
- `src/tensor.rs`, `src/backend.rs`: tables as mathematical objects, and the
  tensor operations that propagation asks of a backend.
- `src/dense/`: a backend of plain vectors that is proved to provide them.
- `src/burn_sdp/`: propagation on batches of tensors.
- `src/laws/`: what holds of propagation as a whole, as proof functions.
- `app/`: the same functions on `f64` and on the tensors of any Burn backend.
- `tests/`: the library on concrete values, on plain vectors and on Burn tensors
  with automatic differentiation.

## Laws

Some laws survive rounding: they ask of the arithmetic only that zero and one
are neutral, that comparisons order the numbers, or that operations commute.
`src/laws/double.rs` proves these properties of double precision. Other laws,
such as that two affine maps compose to one, are stated for exact arithmetic,
and once more for double precision with what rounding leaves of them:

- `src/laws/powers.rs`: rescaling by a power of two passes through the rectifier
  to the last bit, clear of underflow.
- `src/laws/composition.rs`: two affine maps are one, up to a bound that counts
  the roundings.
- `src/laws/symmetry.rs`: a rectified number and its rectified opposite differ
  by the number, up to a bound of a few roundings.
- `src/laws/between.rs`: the same where the series on one side meets the
  continued fraction on the other.
- `src/laws/second.rs`: their second moments add up to that of the number.
- `src/laws/signs.rs`, `src/laws/means.rs`: rectified variances and means are
  not negative. Within two deviations below zero this is a bound on the tail of
  the normal distribution, by `mills.rs`, `normal.rs`, `ratio.rs` and
  `partial.rs`.
- `src/laws/spread.rs`, `src/laws/raised.rs`: rectifying does not raise a
  variance, up to rounding.
- `src/laws/active.rs`: two active features keep their covariance, up to
  rounding.
- `src/laws/finite.rs`, `src/laws/tame.rs`: the probabilities and moments that
  rectifiers are made of are finite.
- `src/laws/instances.rs`: the laws that survive rounding, for double precision.

`src/binary64/errors.rs` bounds the error of one rounding in real numbers, and
`src/laws/accuracy.rs` that of an inner product.
