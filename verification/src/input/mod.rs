pub mod cmd;
pub mod elf;
pub mod irq;
pub mod keyboard;
pub mod mouse;
pub mod nav;
