pub mod idt;
