pub mod boot;
pub mod buffer;
pub mod color;
pub mod config;
pub mod result;
pub mod font;
pub mod fs;
pub mod cpu;
pub mod idt;
pub mod multiboot;
pub mod video;
pub mod process;
