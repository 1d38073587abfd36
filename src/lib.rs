//! The output pipeline of an interactive command shell: the stages that
//! may follow a command (`| include X | count`), how their names are
//! resolved and their words parsed, the builtin line filters, and the
//! decisions of building and tearing down a running pipeline.
pub mod chain;
pub mod filter;
pub mod laws;
pub mod lines;
pub mod output;
pub mod pipe;
pub mod plan;
pub mod terminal;
pub mod text;
