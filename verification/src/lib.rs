pub mod aggregate;
pub mod binary;
pub mod container;
pub mod decimal;
pub mod error;
pub mod folded;
pub mod gate;
pub mod laws;
pub mod model;
pub mod parse;
pub mod profile;
pub mod profiler;
pub mod text;
