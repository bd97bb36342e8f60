pub mod entry;
pub mod table;
pub mod fs;
pub mod dir;
pub mod check;
pub mod path;
