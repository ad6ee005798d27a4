//! Type inference for a language in which a value is owned, shared or
//! borrowed.
//!
//! The crate is built up from the leaves:
//!
//! - [`ty`] and [`intern`]: types, and the tables that give every type a
//!   small key;
//! - [`map`] and [`substitute`]: mapping over types part by part, and the
//!   substitution of generic arguments;
//! - [`unify`]: the unification table, a union-find over inference
//!   variables whose classes carry what they are resolved to;
//! - [`ops`] over [`arena`]: the operations that wait for a variable to
//!   be resolved, and their release in the order of registration;
//! - [`typeck`], [`family`], [`hir`], [`hir_typeck`] and [`results`]: the
//!   type checker for the body of a function, and what it hands back;
//! - [`kind_inference`] over [`relation`], with [`kind_map`]: the fixpoint
//!   that classifies every permission variable as owned or borrowed, and
//!   leaves the others shared;
//! - [`ast`]: the syntax tree that the parser produces.

pub mod arena;
pub mod ast;
pub mod family;
pub mod hir;
pub mod hir_typeck;
pub mod intern;
pub mod kind_inference;
pub mod kind_map;
pub mod map;
pub mod ops;
pub mod relation;
pub mod results;
pub mod substitute;
pub mod ty;
pub mod typeck;
pub mod unify;
