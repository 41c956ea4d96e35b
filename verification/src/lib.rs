use vstd::prelude::*;

pub mod dataloader;
pub mod expr;
pub mod metrics;
pub mod num;
pub mod optimizer;
pub mod rng;
pub mod text;
pub mod vec2d;
pub mod vm;

verus! {

} // verus!
