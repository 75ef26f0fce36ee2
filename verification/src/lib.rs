//! The decision logic of `kube-node-dns`: which addresses of a node are
//! published, under which domains, and when.

pub mod address;
pub mod address_laws;
pub mod annotate;
pub mod command;
pub mod coordinates;
pub mod error;
pub mod hosted_zone;
pub mod interval;
pub mod name_map;
pub mod node;
pub mod node_ips;
pub mod node_state;
pub mod numeral;
pub mod publish_loop;
pub mod publisher;
pub mod reach;
pub mod records;
pub mod text;
pub mod view_laws;
