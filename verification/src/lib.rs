//! Verified building blocks of a DNS policy engine.

pub mod addr;
pub mod client_ip_from_ecs;
pub mod error;
pub mod netlink;
pub mod netlink_laws;
pub mod proto;
pub mod text;
pub mod text_laws;
pub mod upstream;
pub mod v2ray;
