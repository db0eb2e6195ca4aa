pub mod text;
pub mod scan;
pub mod http;
pub mod callback_url;
pub mod callback;
pub mod captive_portal;
pub mod json;
pub mod mdns_discovery;
pub mod gpio;
pub mod board;
pub mod dns;
pub mod crypto;
pub mod compress;
pub mod mem_stats;
pub mod mdns;
pub mod log_util;
pub mod odf;
pub mod omi;
pub mod device;
pub mod dht11;
pub mod provision;
