# lau-tensor-analysis

Tensor analysis on manifolds — the language of general relativity and
continuum mechanics: tensors with contravariant and covariant indices,
metric tensors, Christoffel symbols, covariant derivatives, Riemann
curvature, the Ricci tensor and scalar curvature, Lie derivatives, and an
agent field theory built on them.

## Layout

- `src/` is the verified library. Its tensors are generic over the
  component type, and every operation that computes with components takes
  that arithmetic as arguments (a fold step, a combination, a tolerance
  test). Contracts state, for each component, exactly which values the
  arithmetic was applied to and in which order, so they hold for any number
  type. The laws in `src/laws.rs` (antisymmetry of the Riemann tensor and of
  the Lie bracket, symmetry of the Christoffel symbols, associativity of the
  outer product) are proved for every arithmetic with the stated algebraic
  properties. `src/compatibility.rs` proves that the covariant derivative
  of a metric under the connection computed from it vanishes, for exact
  commutative arithmetic, and `src/agreement.rs` that the operations taking
  a closure agree with those taking a tensor, and a composite with its parts,
  whenever the arithmetic answers alike on alike arguments.
- `app/` is the `f64` front end: the arithmetic closures, the metric
  constructors that invert matrices with nalgebra, the tolerance checks, and
  serde-enabled copies of the library's types.
- `tests/` runs the library with `f64` arithmetic.
