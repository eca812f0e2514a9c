//! Flowistry from the command line: parsing of locations, the decisions of the
//! slice, focus and spans analyses, and the text form of their results.

pub mod analysis;
pub mod cli;
pub mod input;
pub mod output;
pub mod plugin;
pub mod text;

pub use plugin::FlowistryCliPlugin;
