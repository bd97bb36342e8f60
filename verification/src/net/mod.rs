pub mod tcp;
