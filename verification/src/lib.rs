//! The verified core of the clave sidebar: the bar's state machine, its row
//! model and the pure helpers both are built from.
pub mod card;
pub mod cli;
pub mod laws;
pub mod model;
pub mod payload;
pub mod pipe;
pub mod render;
pub mod rows;
pub mod seqs;
pub mod plugin_config;
pub mod text;
pub mod types;
