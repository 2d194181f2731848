//! Show compiler for light-dance costumes: resolves sparse lighting records
//! into dense per-frame colour arrays and serialises them into the
//! `control.dat` and `frame.dat` wire layouts.
use vstd::prelude::*;

pub mod types;
pub mod channel_table;
pub mod order;
pub mod color;
pub mod wire;
pub mod control;
pub mod gradient;
pub mod interpolate;
pub mod frames;
pub mod records;
pub mod plan;
pub mod compile;

verus! {

} // verus!
