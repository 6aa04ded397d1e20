//! Elaborated hardware designs: a node model with its lookup indices, the
//! schematic views drawn from it, and the matching of waveform signals to nodes.

pub mod bench;
pub mod cache;
pub mod cli;
pub mod command_laws;
pub mod files;
pub mod groups;
pub mod ingest;
pub mod load_laws;
pub mod matcher;
pub mod model;
pub mod model_laws;
pub mod order;
pub mod paths;
pub mod schematic;
pub mod session;
pub mod session_laws;
pub mod sessions;
pub mod source_laws;
pub mod spans;
pub mod startup;
pub mod text;
pub mod text_laws;
pub mod words;
