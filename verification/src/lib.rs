use vstd::prelude::*;

pub mod builder;
pub mod chunk_map;
pub mod cli;
pub mod error;
pub mod file_handler;
pub mod file_parser;
pub mod input;
pub mod merge;
pub mod octree;
pub mod palette;
pub mod text;
pub mod vecmath;
pub mod worldgen;

verus! {

} // verus!
