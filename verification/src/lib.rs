//! An OpenFX image-effect host: project files, property and parameter
//! sets, and the decisions the host makes when it talks to plug-ins.
use vstd::prelude::*;

pub mod numbers;
pub mod text;
pub mod keyed;
pub mod rfx;
pub mod suites;
pub mod sandbox;

verus! {

} // verus!
