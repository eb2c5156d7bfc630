pub mod ether_type;
pub mod mac_address;
