pub mod command;
pub mod config;
pub mod corpus;
pub mod encode;
pub mod executor;
pub mod feedback;
pub mod filesystems;
pub mod flags;
pub mod generator;
pub mod laws;
pub mod model;
pub mod mutator;
pub mod node;
pub mod operation;
pub mod outcome;
pub mod pathname;
pub mod reducer;
pub mod stats;
pub mod supervisor;
pub mod text;
pub mod trace;
pub mod workload;
