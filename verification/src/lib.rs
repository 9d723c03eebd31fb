//! IPLD data model values with verified DAG-CBOR and DAG-JSON encoders and a
//! verified DAG-CBOR decoder.

pub mod order;
pub mod ipld;
pub mod cbor;
pub mod dag_cbor;
pub mod dag_json;

pub use crate::ipld::{Ipld, IpldMap};
