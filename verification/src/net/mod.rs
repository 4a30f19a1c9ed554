pub mod types;
pub mod config;
pub mod checksum;
pub mod link;
pub mod ip;
pub mod transport;
pub mod interface;
pub mod io_uring;
