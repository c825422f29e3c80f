//! Analyses and rewrites of an optimizing compiler for the ksplang stack
//! language: interval arithmetic on value ranges, depth-first orders and
//! data-flow over the control-flow graph, and the recognition of well-known
//! instruction sequences whose effect is compiled in one step.

use vstd::prelude::*;

pub mod stdlib;
pub mod ranges;
pub mod seqs;
pub mod convert;
pub mod text;
pub mod cfg;
pub mod analyzer;
pub mod ops;
pub mod cheats;
pub mod implications;
pub mod hoisting;
pub mod down_hoisting;
pub mod direction;
pub mod counting;
pub mod condition_laws;
pub mod stack_model;
pub mod fuzz;

verus! {

} // verus!
