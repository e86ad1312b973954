//! Network front-end of a RESP server: request framing, the per-connection
//! reader state machine that decides what each connection does next, the
//! writer's handling of short writes, and the options set on accepted streams.
pub mod connection;
pub mod frame;
pub mod settings;
pub mod writer;
