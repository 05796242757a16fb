//! A WHOIS referral proxy library: longest-match lookup of IP prefixes and AS
//! number ranges, and compilation of registry data into routing tables.

pub mod context;
pub mod data;
pub mod interval;
pub mod lookup;
pub mod net;
pub mod registry;
pub mod server;
pub mod text;
