//! The user's routing intent: split-tunnel lists, the SOCKS inbound
//! toggle, the legacy per-process list, and the host platform tag.

use vstd::prelude::*;
use vstd::string::StringExecFns;
use crate::strings::views_of;

verus! {

/// The host platform the synthesized document will run on.
#[derive(Clone, Copy, PartialEq, Eq, Structural)]
pub enum Platform {
    Windows,
    MacOs,
    Linux,
}

/// Mathematical view of a policy snapshot.
#[verifier::ext_equal]
pub struct PolicyModel {
    pub enabled: bool,
    pub bypass_apps: Seq<Seq<char>>,
    pub proxy_apps: Seq<Seq<char>>,
    pub bypass_domains: Seq<Seq<char>>,
    pub proxy_domains: Seq<Seq<char>>,
    pub proxy_outbound: Seq<char>,
    pub direct_outbound: Seq<char>,
    pub socks5_enabled: bool,
    pub legacy_enabled: bool,
    pub legacy_processes: Seq<Seq<char>>,
}

/// A snapshot of the user's routing policy.
///
/// `enabled` guards the split-routing pass; `socks5_enabled` and the
/// legacy pair are independent toggles. The outbound tags default to
/// `proxy` and `direct`.
pub struct Policy {
    pub enabled: bool,
    pub bypass_apps: Vec<String>,
    pub proxy_apps: Vec<String>,
    pub bypass_domains: Vec<String>,
    pub proxy_domains: Vec<String>,
    pub proxy_outbound: String,
    pub direct_outbound: String,
    pub socks5_enabled: bool,
    pub legacy_enabled: bool,
    pub legacy_processes: Vec<String>,
}

impl View for Policy {
    type V = PolicyModel;

    open spec fn view(&self) -> PolicyModel {
        PolicyModel {
            enabled: self.enabled,
            bypass_apps: views_of(self.bypass_apps@),
            proxy_apps: views_of(self.proxy_apps@),
            bypass_domains: views_of(self.bypass_domains@),
            proxy_domains: views_of(self.proxy_domains@),
            proxy_outbound: self.proxy_outbound@,
            direct_outbound: self.direct_outbound@,
            socks5_enabled: self.socks5_enabled,
            legacy_enabled: self.legacy_enabled,
            legacy_processes: views_of(self.legacy_processes@),
        }
    }
}

impl Policy {
    /// The everything-off policy: no split tunneling, no SOCKS inbound,
    /// no legacy list, and the default outbound tags.
    pub fn new() -> (r: Policy)
        ensures
            !r@.enabled,
            !r@.socks5_enabled,
            !r@.legacy_enabled,
            r@.bypass_apps.len() == 0,
            r@.proxy_apps.len() == 0,
            r@.bypass_domains.len() == 0,
            r@.proxy_domains.len() == 0,
            r@.legacy_processes.len() == 0,
            r@.proxy_outbound == "proxy"@,
            r@.direct_outbound == "direct"@,
    {
        Policy {
            enabled: false,
            bypass_apps: Vec::new(),
            proxy_apps: Vec::new(),
            bypass_domains: Vec::new(),
            proxy_domains: Vec::new(),
            proxy_outbound: String::from_str("proxy"),
            direct_outbound: String::from_str("direct"),
            socks5_enabled: false,
            legacy_enabled: false,
            legacy_processes: Vec::new(),
        }
    }
}

} // verus!
