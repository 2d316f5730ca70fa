//! Networking for programs that poll: an HTTP and WebSocket server, WebSocket and HTTP clients, SSH
//! sessions and a host for signed plugins.
//!
//! The library decides and keeps the books. Sockets, threads and the clock are the caller's, who
//! reports what they bring and carries out what is decided.
pub mod text;

pub mod base64;
pub mod sha1;

pub mod frame;
pub mod handshake;
pub mod http;
pub mod tls;

pub mod server;
pub mod slots;

pub mod browser;
pub mod web;
pub mod ws_client;

pub mod session;

pub mod counter;
pub mod plugin;
