pub mod block;
pub mod fs;
