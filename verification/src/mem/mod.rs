pub mod pages;
pub mod pmm;
pub mod heap;
pub mod uheap;
pub mod phys;
