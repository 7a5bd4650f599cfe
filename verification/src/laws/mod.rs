//! What holds of the assembler as a whole.
pub mod blocks;
pub mod calls;
pub mod catalogues;
pub mod digests;
pub mod independence;
pub mod linking;
pub mod meaning;
pub mod models;
pub mod origins;
pub mod programs;
pub mod replay;
pub mod rows;
pub mod shapes;
pub mod soundness;
pub mod sources;
pub mod steady;
pub mod texts;
pub mod tokens;
pub mod units;
pub mod words;
