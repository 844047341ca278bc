//! Starting network services on demand.
//!
//! A configuration names endpoints: addresses to listen on, each with a command that
//! serves it. The command is started when the first client connects. When it binds
//! its port, the call is intercepted, and the socket that already listens takes the
//! place of the one that the command made.
//!
//! This library holds what is decided on the way: how the configuration is read, which
//! descriptors are polled and what their events lead to, which system calls of a
//! command are intercepted, and how they are answered. It makes no system call itself.
pub mod addr;
pub mod answer;
pub mod bpf;
pub mod config;
pub mod endpoint;
pub mod poll;
pub mod seccomp;
pub mod split;
pub mod text;
