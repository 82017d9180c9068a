//! Guards for the parameters of a function: a rewriter that puts, in front of
//! a function's statements, one block for each named parameter that validates
//! it and returns its error early, and the meaning of such guards at run time.

pub mod directive;
pub mod error;
pub mod guard;
pub mod rewriter;
pub mod semantics;
pub mod syntax;
pub mod tokens;
pub mod validatable;

pub use error::RewriteError;
pub use rewriter::apply_directive;
pub use rewriter::rewrite;
pub use rewriter::with_validation;
pub use rewriter::with_validation_impl;
pub use validatable::Validatable;
