//! Code-emission support shared by the wasm-to-scripting-language backends.
use vstd::prelude::*;

pub mod bundler;
pub mod chars;
pub mod eval;
pub mod compare;
pub mod flat;
pub mod fuse;
pub mod ir;
pub mod licm;
pub mod liveness;
pub mod masking;
pub mod outline;
pub mod perl;
pub mod perl_gen;
pub mod precedence;
pub mod python;
pub mod regions;
pub mod ruby;
pub mod support;
pub mod switch;
pub mod text;
pub mod varset;
pub mod writer;

verus! {

} // verus!
