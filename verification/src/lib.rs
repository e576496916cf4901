//! Locally nameless first-order formulas over protocol terms, their
//! conversion into the guarded fragment, the guarded-formula operations a
//! constraint solver builds on, and the message-deduction rules of the
//! intruder.
pub mod term;
pub mod formula;
pub mod guarded;
pub mod fresh;
pub mod convert;
pub mod intruder;
pub mod vars;
pub mod variants;
pub mod private_constants;
pub mod surface;
pub mod guarded_types;
pub mod theory;
pub mod reading;
pub mod order;
pub mod canon;
