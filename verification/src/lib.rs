//! Verified core of the qeli VPN.

pub mod crypto;
pub mod protocol;
pub mod server;
pub mod text;
pub mod web;
