pub mod block;
pub mod fat12;
pub mod iso9660;
pub mod vfs;
