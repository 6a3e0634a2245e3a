//! Tensor analysis on manifolds — the language of general relativity and
//! continuum mechanics.
//!
//! Provides tensors with contravariant/covariant indices, metric tensors,
//! Christoffel symbols, covariant derivatives, Riemann curvature, Ricci
//! tensor, scalar curvature, and Lie derivatives. Components are of any
//! type; the operations that compute with them take that arithmetic as
//! arguments, and their contracts say exactly which values it is applied to.
pub mod agent_field;
pub mod agreement;
pub mod checks;
pub mod christoffel;
pub mod compatibility;
pub mod contraction;
pub mod covariant;
pub mod display;
pub mod flat_space;
pub mod fold;
pub mod identities;
pub mod laws;
pub mod layout;
pub mod lie;
pub mod metric;
pub mod products;
pub mod ricci;
pub mod riemann;
pub mod sums;
pub mod tensor;

pub use agent_field::AgentFieldTheory;
pub use christoffel::ChristoffelSymbols;
pub use covariant::covariant_derivative_with;
pub use lie::lie_derivative_with;
pub use metric::{MetricSignature, MetricTensor};
pub use ricci::{RicciTensor, ScalarCurvature};
pub use riemann::RiemannTensor;
pub use tensor::{IndexType, Tensor};
