pub mod ethernet;
pub mod arp;
