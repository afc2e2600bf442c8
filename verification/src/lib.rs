//! Core of a layer-1 peer-to-peer overlay node: session identifiers,
//! fragment reassembly, path/peer/root tables, the WHOIS queue, the
//! background scheduler and the ingress dispatcher.

pub mod address;
pub mod endpoint;
pub mod event;
pub mod fragged;
pub mod gate;
pub mod hash;
pub mod host;
pub mod node;
pub mod path;
pub mod peer;
pub mod protocol;
pub mod rootset;
pub mod sessionid;
