//! A mesh VPN at the network layer with post-quantum hybrid cryptography.

pub mod addr;
pub mod bytes;
pub mod cert;
pub mod clock;
pub mod config;
pub mod crypto;
pub mod frag;
pub mod handshake;
pub mod hex_serde;
pub mod mesh;
pub mod net;
pub mod packet;
pub mod replay;
pub mod route;
pub mod text;
