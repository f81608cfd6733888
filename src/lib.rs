//! Hindley-Milner style type inference for a small expression language.
pub mod types;
pub mod subst;
pub mod unify;
pub mod context;
pub mod infer;
pub mod typing;
