pub mod syscall;
pub mod fs_calls;
pub mod pipe;
