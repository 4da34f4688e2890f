//! Logic of a `protoc` plugin that drives prost code generation.

pub mod args;
pub mod deps;
pub mod generator;
pub mod literal;
pub mod manifest;
pub mod modules;
pub mod plugin;
pub mod text;
pub mod tree;
pub mod utils;

pub use generator::Generator;
pub use utils::split_escaped;
