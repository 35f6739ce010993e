//! Reading of V2Ray `geosite.dat` and `geoip.dat` rule files.

pub mod agreement;
pub mod decode;
pub mod encoding;
pub mod field;
pub mod field_laws;
pub mod kinds;
pub mod laws;
pub mod model;
pub mod parser;
pub mod rule_laws;
pub mod rules;
pub mod unknown_laws;
pub mod wire;
pub mod wire_laws;
