//! Polynomial evaluation in the Lagrange (NTT-domain) basis.
//!
//! A polynomial is represented by its values at the powers of a root of
//! unity in a prime field, and is evaluated, extended to a larger domain,
//! or re-sampled without conversion to coefficient form.

pub mod field;
pub mod lagrange;
pub mod ntt;

pub use lagrange::extend_dimension_double;
pub use lagrange::extend_dimension_one;
pub use lagrange::inv_pow2;
pub use lagrange::nth_root_powers;
pub use lagrange::perfect_shuffle;
pub use lagrange::poly_eval_rhizomes;
pub use lagrange::poly_eval_rhizomes_batched;
pub use lagrange::poly_multieval_rhizomes_batched;
