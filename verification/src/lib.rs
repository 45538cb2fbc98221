//! Verified core of breplot: STEP text normalization, NURBS knot bookkeeping,
//! occlusion grid indexing, mesh silhouettes and payload framing.
use vstd::prelude::*;

pub mod construct;
pub mod grid;
pub mod mesh;
pub mod nurbs;
pub mod raster;
pub mod seqs;
pub mod step;
pub mod text;

verus! {

} // verus!
