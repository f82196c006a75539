//! What can be configured, and what holds where nothing is.

use vstd::prelude::*;

verus! {

/// The options of the proxy.
#[derive(Debug, Clone, PartialEq, Eq)]
pub struct Config {
    /// The address that the three listeners bind to.
    pub bind_address: String,
    /// The port of the UDP and of the TCP listener.
    pub dns_port: u16,
    /// The port of the TLS listener.
    pub tls_port: u16,
    /// The upstream resolver, reached by DNS over TLS.
    pub upstream_host: String,
    pub upstream_port: u16,
    /// The file of patterns to block, one on each line.
    pub blocklist_path: String,
    /// The file of vendor lines, kept for an allowlist to come.
    pub vendor_path: String,
    /// The TLS identity of the proxy: a PEM certificate and a PKCS#8 key.
    pub cert_path: String,
    pub key_path: String,
    /// The time to live of the answer to a blocked question.
    pub default_ttl_seconds: u32,
    /// How long a request may take from its arrival to its reply.
    pub request_deadline_ms: u64,
}

impl Default for Config {
    fn default() -> (r: Config)
        ensures
            r.bind_address@ == "127.0.0.1"@,
            r.dns_port == 5300,
            r.tls_port == 8530,
            r.upstream_host@ == "1.1.1.1"@,
            r.upstream_port == 853,
            r.blocklist_path@ == "./black.list"@,
            r.vendor_path@ == "./vendor.list"@,
            r.cert_path@ == "./localhost.crt"@,
            r.key_path@ == "./localhost.key"@,
            r.default_ttl_seconds == 60,
            r.request_deadline_ms == 5000,
    {
        Config {
            bind_address: "127.0.0.1".to_owned(),
            dns_port: 5300,
            tls_port: 8530,
            upstream_host: "1.1.1.1".to_owned(),
            upstream_port: 853,
            blocklist_path: "./black.list".to_owned(),
            vendor_path: "./vendor.list".to_owned(),
            cert_path: "./localhost.crt".to_owned(),
            key_path: "./localhost.key".to_owned(),
            default_ttl_seconds: 60,
            request_deadline_ms: 5000,
        }
    }
}

} // verus!
