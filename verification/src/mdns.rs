//! mDNS responder configuration, and the responder as this host build runs
//! it: it records its configuration and state without touching the network.

use vstd::prelude::*;
use crate::text;

verus! {

/// `anyhow::Error`, the error type of the responder's operations.
#[verifier::external_type_specification]
#[verifier::external_body]
pub struct ExAnyhowError(anyhow::Error);

/// DNS-SD service type for eOMI devices.
pub const SERVICE_TYPE: &'static str = "_omi";

/// DNS-SD protocol.
pub const SERVICE_PROTO: &'static str = "_tcp";

/// Default O-DF object path advertised in the TXT record.
pub const DEFAULT_ODF_PATH: &'static str = "/Objects";

/// Default HTTP port.
pub const DEFAULT_PORT: u16 = 80;

/// Configuration for the mDNS responder.
#[derive(Debug, Clone)]
pub struct MdnsConfig {
    pub hostname: String,
    pub port: u16,
    pub odf_path: String,
}

impl MdnsConfig {
    /// A config for `hostname` with the default port and O-DF path.
    pub fn new(hostname: &str) -> (r: Self)
        ensures
            r.hostname@ == hostname@,
            r.port == DEFAULT_PORT,
            r.odf_path@ == DEFAULT_ODF_PATH@,
    {
        MdnsConfig {
            hostname: text::to_string(hostname),
            port: DEFAULT_PORT,
            odf_path: text::to_string(DEFAULT_ODF_PATH),
        }
    }
}

/// The responder: its configuration, whether it runs, and how many address
/// updates it has announced.
pub struct MdnsResponder {
    config: MdnsConfig,
    running: bool,
    ip_updates: u32,
}

impl MdnsResponder {
    pub closed spec fn view_config(&self) -> MdnsConfig {
        self.config
    }

    pub closed spec fn view_running(&self) -> bool {
        self.running
    }

    pub closed spec fn view_updates(&self) -> u32 {
        self.ip_updates
    }

    /// Start the responder with `config`: advertise the hostname and the
    /// `_omi._tcp` service with the O-DF path in its TXT record.
    pub fn start(config: MdnsConfig) -> (r: Result<Self, anyhow::Error>)
        ensures
            r matches Ok(m) && m.view_config() == config && m.view_running() && m.view_updates() == 0,
    {
        Ok(MdnsResponder { config, running: true, ip_updates: 0 })
    }

    /// Announce the device's (new) address.
    pub fn update_ip(&mut self) -> (r: Result<(), anyhow::Error>)
        requires
            old(self).view_updates() < u32::MAX,
        ensures
            r is Ok,
            final(self).view_updates() == old(self).view_updates() + 1,
            final(self).view_config() == old(self).view_config(),
            final(self).view_running() == old(self).view_running(),
    {
        self.ip_updates = self.ip_updates + 1;
        Ok(())
    }

    /// Stop the responder.
    pub fn stop(self) {
    }

    pub fn hostname(&self) -> (r: &str)
        ensures
            r@ == self.view_config().hostname@,
    {
        self.config.hostname.as_str()
    }

    pub fn port(&self) -> (r: u16)
        ensures
            r == self.view_config().port,
    {
        self.config.port
    }

    pub fn odf_path(&self) -> (r: &str)
        ensures
            r@ == self.view_config().odf_path@,
    {
        self.config.odf_path.as_str()
    }

    pub fn is_running(&self) -> (r: bool)
        ensures
            r == self.view_running(),
    {
        self.running
    }

    /// How many address updates have been announced.
    pub fn ip_update_count(&self) -> (r: u32)
        ensures
            r == self.view_updates(),
    {
        self.ip_updates
    }
}

} // verus!
