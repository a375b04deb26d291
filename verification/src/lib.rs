//! A lightweight connection-oriented reliability layer for unreliable
//! datagram transports: a bit-packed wire codec (`bitbuf`), a
//! sequencing/acknowledgment engine (`udp_reliable`), per-peer connection
//! state (`udp_conn`, `connection`) and a handshake/session state machine
//! (`udp_sock`).
//!
//! The library itself performs no I/O and never reads a clock: every
//! operation takes the datagram bytes and the current time as plain values
//! and returns the datagrams to send, so an external driver owns the socket
//! and the tick cadence.

pub mod bits;

pub mod bitbuf;

pub mod connection;

pub mod udp_reliable;

pub mod udp_conn;

pub mod udp_sock;
