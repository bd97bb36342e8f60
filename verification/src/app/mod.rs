pub mod chat;
pub mod editor;
pub mod snake;
pub mod tcp_handler;
pub mod menu;
pub mod http_udp;
