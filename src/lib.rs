//! Routing decisions for a command wrapper that sends a child process's
//! outbound traffic either directly or through a SOCKS5 proxy, chosen by
//! the active cluster context.
pub mod config;
pub mod context;
pub mod host_trie;
pub mod ip_set;
pub mod launch;
pub mod pattern;
pub mod relay;
pub mod setup;
