//! The bridge's settings: the command-line options, and the configuration made of them.

use vstd::prelude::*;

verus! {

/// The command-line options, as given (defaults and environment fallbacks applied).
#[derive(Debug, Clone)]
pub struct Cli {
    pub site_id: String,
    pub bridge_id: Option<String>,
    pub udp_port: u16,
    pub udp_address_setting: String,
    pub udp_bind_ip: String,
    pub udp_send_bind_ip: String,
    pub udp_interface_ip: Option<String>,
    pub udp_ttl: u32,
    pub udp_loop: bool,
    pub pub_bind: String,
    pub sub_connect: Vec<String>,
    pub forward_remote: bool,
    pub max_hops: u32,
    pub seen_ttl_seconds: u64,
    pub seen_max_entries: usize,
    pub poll_ms: u64,
    pub log_level: String,
}

/// The bridge configuration: the options, with the bridge id settled.
#[derive(Debug, Clone)]
pub struct BridgeConfig {
    pub site_id: String,
    pub bridge_id: String,
    pub udp_port: u16,
    pub udp_address_setting: String,
    pub udp_bind_ip: String,
    pub udp_send_bind_ip: String,
    pub udp_interface_ip: Option<String>,
    pub udp_ttl: u32,
    pub udp_loop: bool,
    pub pub_bind: String,
    pub sub_connect: Vec<String>,
    pub forward_remote: bool,
    pub max_hops: u32,
    pub seen_ttl_seconds: u64,
    pub seen_max_entries: usize,
    pub poll_ms: u64,
    pub log_level: String,
}

/// One second in nanoseconds.
pub const NANOS_PER_SECOND: u64 = 1_000_000_000;

impl BridgeConfig {
    /// The configuration of the given options: every option carried over, the bridge id
    /// being the one given or else `default_bridge_id` (host name and process id).
    pub fn from_cli(cli: Cli, default_bridge_id: String) -> (c: Self)
        ensures
            c.site_id == cli.site_id,
            c.bridge_id == (match cli.bridge_id {
                Some(b) => b,
                None => default_bridge_id,
            }),
            c.udp_port == cli.udp_port,
            c.udp_address_setting == cli.udp_address_setting,
            c.udp_bind_ip == cli.udp_bind_ip,
            c.udp_send_bind_ip == cli.udp_send_bind_ip,
            c.udp_interface_ip == cli.udp_interface_ip,
            c.udp_ttl == cli.udp_ttl,
            c.udp_loop == cli.udp_loop,
            c.pub_bind == cli.pub_bind,
            c.sub_connect == cli.sub_connect,
            c.forward_remote == cli.forward_remote,
            c.max_hops == cli.max_hops,
            c.seen_ttl_seconds == cli.seen_ttl_seconds,
            c.seen_max_entries == cli.seen_max_entries,
            c.poll_ms == cli.poll_ms,
            c.log_level == cli.log_level,
    {
        let bridge_id = match cli.bridge_id {
            Some(b) => b,
            None => default_bridge_id,
        };
        BridgeConfig {
            site_id: cli.site_id,
            bridge_id,
            udp_port: cli.udp_port,
            udp_address_setting: cli.udp_address_setting,
            udp_bind_ip: cli.udp_bind_ip,
            udp_send_bind_ip: cli.udp_send_bind_ip,
            udp_interface_ip: cli.udp_interface_ip,
            udp_ttl: cli.udp_ttl,
            udp_loop: cli.udp_loop,
            pub_bind: cli.pub_bind,
            sub_connect: cli.sub_connect,
            forward_remote: cli.forward_remote,
            max_hops: cli.max_hops,
            seen_ttl_seconds: cli.seen_ttl_seconds,
            seen_max_entries: cli.seen_max_entries,
            poll_ms: cli.poll_ms,
            log_level: cli.log_level,
        }
    }

    /// The pause between two polls, in milliseconds: `poll_ms`, but at least one.
    pub fn poll_sleep_ms(&self) -> (ms: u64)
        ensures
            ms == if self.poll_ms >= 1 {
                self.poll_ms
            } else {
                1
            },
    {
        if self.poll_ms >= 1 {
            self.poll_ms
        } else {
            1
        }
    }

    /// The dedupe time-to-live in nanoseconds, saturated at `u64::MAX`.
    pub fn seen_ttl_nanos(&self) -> (ns: u64)
        ensures
            ns == if self.seen_ttl_seconds * NANOS_PER_SECOND <= u64::MAX {
                self.seen_ttl_seconds * NANOS_PER_SECOND
            } else {
                u64::MAX as int
            },
    {
        let secs = self.seen_ttl_seconds;
        if secs > u64::MAX / NANOS_PER_SECOND {
            assert(secs * NANOS_PER_SECOND > u64::MAX) by (nonlinear_arith)
                requires
                    secs > u64::MAX / NANOS_PER_SECOND,
                    NANOS_PER_SECOND == 1_000_000_000,
            ;
            u64::MAX
        } else {
            assert(secs * NANOS_PER_SECOND <= u64::MAX) by (nonlinear_arith)
                requires
                    secs <= u64::MAX / NANOS_PER_SECOND,
                    NANOS_PER_SECOND == 1_000_000_000,
            ;
            secs * NANOS_PER_SECOND
        }
    }
}

} // verus!
