//! Reading programs and modules.
pub mod parser;
pub mod token;

pub use crate::combine::combine_blocks;
pub use parser::{parse_module, parse_program};
