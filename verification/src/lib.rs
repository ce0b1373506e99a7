//! Map ports to the processes that hold them, and decide what to do with them.

pub mod cli;
pub mod errors;
pub mod finder;
pub mod plan;
pub mod port;
pub mod presets;
pub mod text;
pub mod util;
