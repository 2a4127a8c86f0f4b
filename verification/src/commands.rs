pub mod clean;
pub mod dhcp;
