//! Validation of finite algebraic groups: pure checks for closure,
//! associativity, identity and inverse structure over a finite carrier
//! set of caller-supplied elements, and a builder that runs the checks in
//! order and yields a validated `Group` with its derived queries.

pub mod axioms;
pub mod elements;
pub mod group;
pub mod operator;
