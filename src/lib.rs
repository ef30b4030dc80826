pub mod cache;
pub mod dhcp;
pub mod dhcppkt;
pub mod dns;
pub mod packet;
