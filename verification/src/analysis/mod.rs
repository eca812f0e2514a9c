//! The decisions of the three analyses that do not depend on the compiler:
//! which MIR locations a query targets, how they are grouped, and how the
//! converted spans are assembled into results.

pub mod focus;
pub mod slice;
pub mod spans;
