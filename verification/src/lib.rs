use vstd::prelude::*;

pub mod text;
pub mod model;
pub mod order;
pub mod seqs;
pub mod app;
pub mod path;
pub mod demo;
pub mod ui;
pub mod splash;
pub mod screenshot;
pub mod terminal;
pub mod dust;
pub mod scanner;
pub mod cli;

verus! {

} // verus!
