//! Ball arithmetic for verified real computation.
use vstd::prelude::*;

pub mod limb_spec;
pub mod dyadic;
pub mod mpn;
pub mod window;
pub mod fp;
pub mod mag;
pub mod bigint;
pub mod ball;
pub mod decimal;
pub mod directed;
pub mod binsplit;
pub mod constants;
pub mod elementary;
pub mod bernoulli;
pub mod gamma;
pub mod zeta;
pub mod testutil;

pub use ball::Ball;
pub use fp::{Float, Round};

verus! {
} // verus!
