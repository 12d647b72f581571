pub mod config;
pub mod constraints;
pub mod engine;
pub mod generator;
pub mod normalize;
pub mod rng;
pub mod runner;
pub mod text;
