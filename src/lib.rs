//! Decide whether this host is attached to a given network: a wireless
//! network name, an IPv4 address, or an IPv4 subnet, optionally on one
//! named interface.

pub mod cidr;
pub mod error;
pub mod inet;
pub mod roameo;
pub mod text;
pub mod wireless;
