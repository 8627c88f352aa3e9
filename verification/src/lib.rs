//! A verified core of a forward-chaining rule engine: typed scalar values
//! and exact decimals, the comparison and coercion rules of the constraint
//! language, the Allen interval algebra of the event layer, and the
//! mechanical firing-order shadows that replay the propagation machinery.

pub mod accumulate;
pub mod agenda;
pub mod allen;
pub mod arith;
pub mod canon;
pub mod compare;
pub mod decimal;
pub mod expiry;
pub mod gexpr;
pub mod keys;
pub mod order;
pub mod render;
pub mod rulenet;
pub mod seqs;
pub mod shadow_bf;
pub mod shadow_ex;
pub mod shadow_pn;
pub mod shadow_px;
pub mod staged;
pub mod tms;
pub mod store;
pub mod value;
pub mod window_folds;
