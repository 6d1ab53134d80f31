//! Core library of BINDA, a gossip-replicated name service without a root.

pub mod address;
pub mod api;
pub mod args;
pub mod bytes;
pub mod client;
pub mod client_api;
pub mod collision;
pub mod dns;
pub mod domain;
pub mod fcrdns;
pub mod gossip;
pub mod json;
pub mod liveness;
pub mod node;
pub mod ntp;
pub mod peers;
pub mod punycode;
pub mod rate_limit;
pub mod resolver;
pub mod store;
pub mod table;
pub mod text;
pub mod token;
pub mod wire;
pub mod zone;

pub use client::ClientIdentity;
pub use domain::DomainName;
pub use store::RegistryStore;
pub use zone::ZoneFile;
