//! An in-memory banner inventory: banners carry an impression budget and a
//! set of categories, and are served at random with a probability
//! proportional to their declared budget.

pub mod serving;
pub mod storage;
pub mod util;
