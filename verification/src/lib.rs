//! IPv6 address and subnet arithmetic: parsing, canonical formatting,
//! classification, CIDR division and aggregation, and address generation.

pub mod address;
pub mod error;
pub mod format;
pub mod generate;
pub mod laws;
pub mod literal;
pub mod network;
pub mod roundtrip;
pub mod subnet;
pub mod text;

pub use address::IPv6Address;
pub use error::Ipv6Error;
pub use network::IPv6Network;
pub use subnet::{IPv6SubnetCalculator, SubnetInfo};
pub use generate::{
    calculate_subnet_mask, compress_address, expand_address, generate_link_local,
    generate_random_ipv6, generate_unique_local, mac_to_ipv6_link_local, reverse_pointer,
    validate_ipv6, validate_ipv6_network,
};
