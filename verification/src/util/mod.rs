//! Helpers for flows, packets and labels.
pub mod gen_data;
pub mod helpers;
pub mod pkt_type;
pub mod text;
pub mod tor;
