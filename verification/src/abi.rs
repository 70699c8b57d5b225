//! The plain-data types of the C interface: status codes, the state enums,
//! the configuration, statistics, flow and device records, and the helpers
//! that fill them.
use vstd::prelude::*;

use crate::addr::IpAddr;
use crate::alert::{AlertSource, Severity};
use crate::analytics::AlertQueue;
use crate::link::LinkState;
use crate::engine::{
    Counters, Engine, EngineConfig, DEFAULT_FLOW_IDLE_TIMEOUT_US, DEFAULT_MAX_FLOWS, DEFAULT_TOP_N,
};
use crate::flow::{top_spec, FlowKey, FlowStats, FlowTable};
use crate::packet::LinkType;
use crate::synth::Scenario;
use crate::text::{decimal_spec, push_decimal, push_str};
use vstd::string::StringSliceAdditionalSpecFns;
use vstd::utf8::{encode_utf8, is_char_boundary};

verus! {

broadcast use vstd::utf8::encode_utf8_valid_utf8;

pub const NC_ABI_VERSION: u32 = 1;
pub const NC_ADDR_LEN: usize = 16;
pub const NC_RULE_ID_LEN: usize = 64;
pub const NC_MESSAGE_LEN: usize = 192;
pub const NC_DEVICE_NAME_LEN: usize = 256;
pub const NC_FAMILY_IPV4: u8 = 4;
pub const NC_FAMILY_IPV6: u8 = 6;
pub const DEFAULT_SNAPLEN: u32 = 65_535;
pub const MICROS_PER_MILLI: u64 = 1_000;

/// The result of a call through the C interface.
#[derive(Debug, Clone, Copy, PartialEq, Eq, Structural)]
pub enum NcStatus {
    Success,
    NullArg,
    InvalidArg,
    State,
    Io,
    Capture,
    NoLibrary,
    Permission,
    Panic,
    Rules,
    Format,
}

impl NcStatus {
    /// The status code: 0 for success, -1 to -10 for the errors in order.
    pub open spec fn code_spec(self) -> i32 {
        match self {
            NcStatus::Success => 0i32,
            NcStatus::NullArg => -1i32,
            NcStatus::InvalidArg => -2i32,
            NcStatus::State => -3i32,
            NcStatus::Io => -4i32,
            NcStatus::Capture => -5i32,
            NcStatus::NoLibrary => -6i32,
            NcStatus::Permission => -7i32,
            NcStatus::Panic => -8i32,
            NcStatus::Rules => -9i32,
            NcStatus::Format => -10i32,
        }
    }

    pub fn code(&self) -> (c: i32)
        ensures
            c == self.code_spec(),
    {
        match self {
            NcStatus::Success => 0,
            NcStatus::NullArg => -1,
            NcStatus::InvalidArg => -2,
            NcStatus::State => -3,
            NcStatus::Io => -4,
            NcStatus::Capture => -5,
            NcStatus::NoLibrary => -6,
            NcStatus::Permission => -7,
            NcStatus::Panic => -8,
            NcStatus::Rules => -9,
            NcStatus::Format => -10,
        }
    }

    pub open spec fn name_spec(self) -> Seq<char> {
        match self {
            NcStatus::Success => "Success"@,
            NcStatus::NullArg => "NullArg"@,
            NcStatus::InvalidArg => "InvalidArg"@,
            NcStatus::State => "State"@,
            NcStatus::Io => "Io"@,
            NcStatus::Capture => "Capture"@,
            NcStatus::NoLibrary => "NoLibrary"@,
            NcStatus::Permission => "Permission"@,
            NcStatus::Panic => "Panic"@,
            NcStatus::Rules => "Rules"@,
            NcStatus::Format => "Format"@,
        }
    }

    /// The status's name.
    pub fn name(&self) -> (n: &'static str)
        ensures
            n@ == self.name_spec(),
    {
        match self {
            NcStatus::Success => "Success",
            NcStatus::NullArg => "NullArg",
            NcStatus::InvalidArg => "InvalidArg",
            NcStatus::State => "State",
            NcStatus::Io => "Io",
            NcStatus::Capture => "Capture",
            NcStatus::NoLibrary => "NoLibrary",
            NcStatus::Permission => "Permission",
            NcStatus::Panic => "Panic",
            NcStatus::Rules => "Rules",
            NcStatus::Format => "Format",
        }
    }
}

/// The status for an error code of the capture library: -1 a bad
/// argument, -2 no capture library, -4 no permission, -5 a bad state, -7
/// an I/O error, -8 a bad file format, anything else a capture error.
pub open spec fn map_status_spec(code: i32) -> NcStatus {
    if code == -1 {
        NcStatus::InvalidArg
    } else if code == -2 {
        NcStatus::NoLibrary
    } else if code == -4 {
        NcStatus::Permission
    } else if code == -5 {
        NcStatus::State
    } else if code == -7 {
        NcStatus::Io
    } else if code == -8 {
        NcStatus::Format
    } else {
        NcStatus::Capture
    }
}

pub fn map_status(code: i32) -> (s: NcStatus)
    ensures
        s == map_status_spec(code),
{
    match code {
        -1 => NcStatus::InvalidArg,
        -2 => NcStatus::NoLibrary,
        -4 => NcStatus::Permission,
        -5 => NcStatus::State,
        -7 => NcStatus::Io,
        -8 => NcStatus::Format,
        _ => NcStatus::Capture,
    }
}

pub open spec fn status_text_spec(status: i32) -> Seq<char> {
    if status == 0 {
        "ok"@
    } else if status == -1 {
        "null argument"@
    } else if status == -2 {
        "invalid argument"@
    } else if status == -3 {
        "invalid state"@
    } else if status == -4 {
        "i/o error"@
    } else if status == -5 {
        "capture error"@
    } else if status == -6 {
        "capture library (npcap/libpcap) not installed"@
    } else if status == -7 {
        "permission denied"@
    } else if status == -8 {
        "internal panic"@
    } else if status == -9 {
        "rules error"@
    } else if status == -10 {
        "bad file format"@
    } else {
        "unknown status"@
    }
}

/// A fixed description of a status code.
pub fn status_text(status: i32) -> (t: &'static str)
    ensures
        t@ == status_text_spec(status),
{
    match status {
        0 => "ok",
        -1 => "null argument",
        -2 => "invalid argument",
        -3 => "invalid state",
        -4 => "i/o error",
        -5 => "capture error",
        -6 => "capture library (npcap/libpcap) not installed",
        -7 => "permission denied",
        -8 => "internal panic",
        -9 => "rules error",
        -10 => "bad file format",
        _ => "unknown status",
    }
}

#[derive(Debug, Clone, Copy, PartialEq, Eq, Structural)]
pub enum NcAlertSource {
    Rule,
    Anomaly,
}

impl NcAlertSource {
    pub fn value(&self) -> (v: u32)
        ensures
            v == match self {
                NcAlertSource::Rule => 0u32,
                NcAlertSource::Anomaly => 1u32,
            },
    {
        match self {
            NcAlertSource::Rule => 0,
            NcAlertSource::Anomaly => 1,
        }
    }

    pub fn from_source(s: AlertSource) -> (r: Self)
        ensures
            r == match s {
                AlertSource::Rule => NcAlertSource::Rule,
                AlertSource::Anomaly => NcAlertSource::Anomaly,
            },
    {
        match s {
            AlertSource::Rule => NcAlertSource::Rule,
            AlertSource::Anomaly => NcAlertSource::Anomaly,
        }
    }
}

#[derive(Debug, Clone, Copy, PartialEq, Eq, Structural)]
pub enum NcSeverity {
    Low,
    Medium,
    High,
    Critical,
}

impl NcSeverity {
    /// 1 (low) to 4 (critical), as `Severity::value`.
    pub fn value(&self) -> (v: u32)
        ensures
            v == match self {
                NcSeverity::Low => 1u32,
                NcSeverity::Medium => 2u32,
                NcSeverity::High => 3u32,
                NcSeverity::Critical => 4u32,
            },
    {
        match self {
            NcSeverity::Low => 1,
            NcSeverity::Medium => 2,
            NcSeverity::High => 3,
            NcSeverity::Critical => 4,
        }
    }

    pub fn from_severity(s: Severity) -> (r: Self)
        ensures
            r == match s {
                Severity::Low => NcSeverity::Low,
                Severity::Medium => NcSeverity::Medium,
                Severity::High => NcSeverity::High,
                Severity::Critical => NcSeverity::Critical,
            },
    {
        match s {
            Severity::Low => NcSeverity::Low,
            Severity::Medium => NcSeverity::Medium,
            Severity::High => NcSeverity::High,
            Severity::Critical => NcSeverity::Critical,
        }
    }
}

#[derive(Debug, Clone, Copy, PartialEq, Eq, Structural)]
pub enum NcCaptureState {
    Idle,
    Running,
    Finished,
    Failed,
}

impl NcCaptureState {
    pub fn value(&self) -> (v: u32)
        ensures
            v == match self {
                NcCaptureState::Idle => 0u32,
                NcCaptureState::Running => 1u32,
                NcCaptureState::Finished => 2u32,
                NcCaptureState::Failed => 3u32,
            },
    {
        match self {
            NcCaptureState::Idle => 0,
            NcCaptureState::Running => 1,
            NcCaptureState::Finished => 2,
            NcCaptureState::Failed => 3,
        }
    }
}

/// The state of a capture: idle when not running; else running until the
/// source reports an outcome, then finished or failed.
pub fn capture_state(running: bool, finished: Option<bool>) -> (s: NcCaptureState)
    ensures
        s == if !running {
            NcCaptureState::Idle
        } else {
            match finished {
                None => NcCaptureState::Running,
                Some(true) => NcCaptureState::Finished,
                Some(false) => NcCaptureState::Failed,
            }
        },
{
    if !running {
        return NcCaptureState::Idle;
    }
    match finished {
        None => NcCaptureState::Running,
        Some(true) => NcCaptureState::Finished,
        Some(false) => NcCaptureState::Failed,
    }
}

#[derive(Debug, Clone, Copy, PartialEq, Eq, Structural)]
pub enum NcAnalyticsState {
    Off,
    Connecting,
    Connected,
}

impl NcAnalyticsState {
    pub fn value(&self) -> (v: u32)
        ensures
            v == match self {
                NcAnalyticsState::Off => 0u32,
                NcAnalyticsState::Connecting => 1u32,
                NcAnalyticsState::Connected => 2u32,
            },
    {
        match self {
            NcAnalyticsState::Off => 0,
            NcAnalyticsState::Connecting => 1,
            NcAnalyticsState::Connected => 2,
        }
    }
}

/// The scenarios a demo capture can be written with.
#[derive(Debug, Clone, Copy, PartialEq, Eq, Structural)]
pub enum NcScenario {
    Mixed,
    PortScan,
    DnsTunnel,
}

impl NcScenario {
    /// The scenario numbered `raw` (0 mixed, 1 port scan, 2 DNS tunnel).
    pub fn scenario(raw: u32) -> (s: Option<Scenario>)
        ensures
            s == if raw == 0 {
                Some(Scenario::Mixed)
            } else if raw == 1 {
                Some(Scenario::PortScan)
            } else if raw == 2 {
                Some(Scenario::DnsTunnel)
            } else {
                None::<Scenario>
            },
    {
        match raw {
            0 => Some(Scenario::Mixed),
            1 => Some(Scenario::PortScan),
            2 => Some(Scenario::DnsTunnel),
            _ => None,
        }
    }
}

/// The configuration a caller passes in; zero fields take the defaults.
#[derive(Debug, Clone, Copy, PartialEq, Eq, Structural)]
pub struct NcConfig {
    pub max_flows: u32,
    pub flow_idle_timeout_ms: u32,
    pub top_n: u32,
    pub snaplen: u32,
    pub link_type: u32,
}

impl Default for NcConfig {
    fn default() -> (c: Self)
        ensures
            c == (NcConfig { max_flows: 0, flow_idle_timeout_ms: 0, top_n: 0, snaplen: 0, link_type: 0 }),
    {
        NcConfig { max_flows: 0, flow_idle_timeout_ms: 0, top_n: 0, snaplen: 0, link_type: 0 }
    }
}

/// The snapshot length a configuration asks for (65535 when zero).
pub fn snaplen_of(cfg: &NcConfig) -> (n: u32)
    ensures
        n == if cfg.snaplen == 0 { DEFAULT_SNAPLEN } else { cfg.snaplen },
{
    if cfg.snaplen == 0 { DEFAULT_SNAPLEN } else { cfg.snaplen }
}

/// An error with its status and a message.
#[derive(Debug, Clone, PartialEq, Eq)]
pub struct CoreError {
    pub status: NcStatus,
    pub message: String,
}

impl CoreError {
    pub fn new(status: NcStatus, message: &str) -> (e: Self)
        ensures
            e.status == status,
            e.message@ == message@,
    {
        CoreError { status, message: message.to_owned() }
    }

    /// `"<Status>: <message>"`.
    pub fn describe(&self) -> (s: String)
        ensures
            s@ == self.status.name_spec() + ": "@ + self.message@,
    {
        let mut s = String::new();
        push_str(&mut s, self.status.name());
        push_str(&mut s, ": ");
        push_str(&mut s, self.message.as_str());
        s
    }
}

/// The engine configuration for a caller's configuration: each zero field
/// keeps the default; link type 0 means Ethernet, and any other number
/// must be one that `LinkType::from_raw` knows.
pub fn engine_config(cfg: &NcConfig) -> (r: Result<EngineConfig, CoreError>)
    ensures
        match r {
            Ok(c) => {
                &&& c.max_flows == if cfg.max_flows == 0 { DEFAULT_MAX_FLOWS } else { cfg.max_flows as usize }
                &&& c.flow_idle_timeout_us == if cfg.flow_idle_timeout_ms == 0 {
                    DEFAULT_FLOW_IDLE_TIMEOUT_US as int
                } else {
                    cfg.flow_idle_timeout_ms as u64 * MICROS_PER_MILLI
                }
                &&& c.top_n == if cfg.top_n == 0 { DEFAULT_TOP_N } else { cfg.top_n as usize }
                &&& cfg.link_type == 0 ==> c.link == LinkType::Ethernet
                &&& cfg.link_type != 0 ==> LinkType::from_raw_spec(cfg.link_type) == Some(c.link)
            },
            Err(e) => {
                &&& cfg.link_type != 0 && LinkType::from_raw_spec(cfg.link_type) is None
                &&& e.status == NcStatus::InvalidArg
                &&& e.message@ == "unsupported link type "@ + decimal_spec(cfg.link_type as nat)
            },
        },
{
    let max_flows = if cfg.max_flows == 0 { DEFAULT_MAX_FLOWS } else { cfg.max_flows as usize };
    let flow_idle_timeout_us = if cfg.flow_idle_timeout_ms == 0 {
        DEFAULT_FLOW_IDLE_TIMEOUT_US
    } else {
        cfg.flow_idle_timeout_ms as u64 * MICROS_PER_MILLI
    };
    let top_n = if cfg.top_n == 0 { DEFAULT_TOP_N } else { cfg.top_n as usize };
    let link = if cfg.link_type == 0 {
        LinkType::Ethernet
    } else {
        match LinkType::from_raw(cfg.link_type) {
            Some(l) => l,
            None => {
                let mut message = String::new();
                push_str(&mut message, "unsupported link type ");
                push_decimal(&mut message, cfg.link_type as u64);
                return Err(CoreError { status: NcStatus::InvalidArg, message });
            },
        }
    };
    Ok(EngineConfig { link, max_flows, flow_idle_timeout_us, top_n })
}

/// An address as 16 bytes (IPv4 in the first four, the rest zero) and its
/// family, 4 or 6.
pub open spec fn addr_bytes_spec(addr: IpAddr) -> (Seq<u8>, u8) {
    match addr {
        IpAddr::V4(b) => (
            seq![(b / 0x100_0000) as u8, (b / 0x1_0000 % 0x100) as u8, (b / 0x100 % 0x100) as u8, (b % 0x100) as u8]
                + Seq::new(12, |i: int| 0u8),
            NC_FAMILY_IPV4,
        ),
        IpAddr::V6(b) => (Seq::new(16, |i: int| ((b >> ((15 - i) * 8) as u128) % 0x100) as u8), NC_FAMILY_IPV6),
    }
}

pub fn addr_bytes(addr: IpAddr) -> (r: ([u8; 16], u8))
    ensures
        (r.0@, r.1) == addr_bytes_spec(addr),
{
    let mut out = [0u8; 16];
    match addr {
        IpAddr::V4(b) => {
            out[0] = (b / 0x100_0000) as u8;
            out[1] = (b / 0x1_0000 % 0x100) as u8;
            out[2] = (b / 0x100 % 0x100) as u8;
            out[3] = (b % 0x100) as u8;
            assert(out@ =~= addr_bytes_spec(addr).0);
            (out, NC_FAMILY_IPV4)
        },
        IpAddr::V6(b) => {
            let mut i: usize = 0;
            while i < 16
                invariant
                    i <= 16,
                    forall|j: int| 0 <= j < i ==> out@[j] == ((b >> ((15 - j) * 8) as u128) % 0x100) as u8,
                decreases 16 - i,
            {
                let shift = ((15 - i) * 8) as u128;
                out[i] = ((b >> shift) % 0x100) as u8;
                i += 1;
            }
            assert(out@ =~= addr_bytes_spec(addr).0);
            (out, NC_FAMILY_IPV6)
        },
    }
}

/// Steps back from `n` to the nearest character boundary of `b`.
pub open spec fn cut_back(b: Seq<u8>, n: int) -> int
    decreases n,
{
    if n <= 0 || is_char_boundary(b, n) {
        n
    } else {
        cut_back(b, n - 1)
    }
}

/// How many bytes of `s` fit into a buffer of `cap` bytes with room for the
/// terminating zero, cut at a character boundary.
pub open spec fn cstr_len(b: Seq<u8>, cap: nat) -> int {
    cut_back(b, if b.len() < cap - 1 { b.len() as int } else { cap - 1 })
}

/// Writes `s` into `dst` as a zero-terminated string, cut at a character
/// boundary to leave room for the zero; the rest of `dst` is zeroed. An
/// empty `dst` is left alone.
pub fn write_cstr(dst: &mut [u8], s: &str)
    ensures
        old(dst)@.len() == 0 ==> final(dst)@ == old(dst)@,
        old(dst)@.len() > 0 ==> ({
            let n = cstr_len(s.spec_bytes(), old(dst)@.len());
            &&& final(dst)@.len() == old(dst)@.len()
            &&& 0 <= n < old(dst)@.len()
            &&& forall|i: int| 0 <= i < n ==> #[trigger] final(dst)@[i] == s.spec_bytes()[i]
            &&& forall|i: int| n <= i < old(dst)@.len() ==> #[trigger] final(dst)@[i] == 0
        }),
{
    let cap = dst.len();
    if cap == 0 {
        return;
    }
    let b = s.as_bytes();
    let mut n = if b.len() < cap - 1 { b.len() } else { cap - 1 };
    let ghost n0 = n as int;
    while n > 0 && !s.is_char_boundary(n)
        invariant
            n <= n0,
            cut_back(s.spec_bytes(), n as int) == cut_back(s.spec_bytes(), n0),
        decreases n,
    {
        n = n - 1;
    }
    assert(cut_back(s.spec_bytes(), n as int) == n as int);
    let mut i: usize = 0;
    while i < cap
        invariant
            cap == dst@.len(),
            n < cap,
            n <= b@.len(),
            b@ == s.spec_bytes(),
            i <= cap,
            forall|j: int| 0 <= j < i && j < n ==> #[trigger] dst@[j] == b@[j],
            forall|j: int| n <= j < i ==> #[trigger] dst@[j] == 0,
        decreases cap - i,
    {
        if i < n {
            dst[i] = b[i];
        } else {
            dst[i] = 0;
        }
        i += 1;
    }
}

/// A device of the capture library, its name and description as
/// zero-terminated strings.
#[derive(Debug, Clone, Copy)]
pub struct NcDevice {
    pub name: [u8; 256],
    pub description: [u8; 256],
    pub flags: u32,
}

impl NcDevice {
    pub fn new(name: &str, description: &str, flags: u32) -> (d: Self)
        ensures
            d.flags == flags,
            forall|i: int| 0 <= i < cstr_len(name.spec_bytes(), 256) ==> #[trigger] d.name@[i] == name.spec_bytes()[i],
            forall|i: int| cstr_len(name.spec_bytes(), 256) <= i < 256 ==> #[trigger] d.name@[i] == 0,
            forall|i: int|
                0 <= i < cstr_len(description.spec_bytes(), 256) ==> #[trigger] d.description@[i]
                    == description.spec_bytes()[i],
            forall|i: int| cstr_len(description.spec_bytes(), 256) <= i < 256 ==> #[trigger] d.description@[i] == 0,
    {
        let mut d = NcDevice { name: [0; 256], description: [0; 256], flags };
        write_cstr(&mut d.name, name);
        write_cstr(&mut d.description, description);
        d
    }
}

/// Engine statistics for the C interface.
#[derive(Debug, Clone, Copy, PartialEq, Eq, Structural)]
pub struct NcStats {
    pub packets: u64,
    pub bytes: u64,
    pub ipv4: u64,
    pub ipv6: u64,
    pub tcp: u64,
    pub udp: u64,
    pub icmp: u64,
    pub other_l4: u64,
    pub non_ip: u64,
    pub fragments: u64,
    pub dns: u64,
    pub dns_errors: u64,
    pub parse_errors: u64,
    pub active_flows: u64,
    pub evicted_flows: u64,
    pub expired_flows: u64,
    pub last_ts_us: u64,
    pub capture_dropped: u64,
    pub alerts_total: u64,
    pub alerts_dropped: u64,
    pub capture_state: u64,
    pub rules_loaded: u64,
    pub analytics_state: u64,
    pub analytics_sent: u64,
    pub analytics_dropped: u64,
}

impl NcStats {
    /// The traffic counters, with every other field zero.
    pub fn from_counters(c: &Counters) -> (s: Self)
        ensures
            s == counters_stats(*c),
    {
        NcStats {
            packets: c.packets,
            bytes: c.bytes,
            ipv4: c.ipv4,
            ipv6: c.ipv6,
            tcp: c.tcp,
            udp: c.udp,
            icmp: c.icmp,
            other_l4: c.other_l4,
            non_ip: c.non_ip,
            fragments: c.fragments,
            dns: c.dns,
            dns_errors: c.dns_errors,
            parse_errors: c.parse_errors,
            active_flows: 0,
            evicted_flows: 0,
            expired_flows: 0,
            last_ts_us: 0,
            capture_dropped: 0,
            alerts_total: 0,
            alerts_dropped: 0,
            capture_state: 0,
            rules_loaded: 0,
            analytics_state: 0,
            analytics_sent: 0,
            analytics_dropped: 0,
        }
    }
}

/// The statistics holding the traffic counters `c`, every other field zero.
pub open spec fn counters_stats(c: Counters) -> NcStats {
    NcStats {
        packets: c.packets,
        bytes: c.bytes,
        ipv4: c.ipv4,
        ipv6: c.ipv6,
        tcp: c.tcp,
        udp: c.udp,
        icmp: c.icmp,
        other_l4: c.other_l4,
        non_ip: c.non_ip,
        fragments: c.fragments,
        dns: c.dns,
        dns_errors: c.dns_errors,
        parse_errors: c.parse_errors,
        active_flows: 0,
        evicted_flows: 0,
        expired_flows: 0,
        last_ts_us: 0,
        capture_dropped: 0,
        alerts_total: 0,
        alerts_dropped: 0,
        capture_state: 0,
        rules_loaded: 0,
        analytics_state: 0,
        analytics_sent: 0,
        analytics_dropped: 0,
    }
}

/// The statistics of a running core: the engine's counters and flow table,
/// the rules loaded, the alert queue's counts, the analytics link (state 2
/// when connected, 1 otherwise; its batches sent and dropped), and the
/// capture (frames it lost and its state), each zero when absent.
pub fn core_stats(
    engine: &Engine,
    queue: &AlertQueue,
    analytics: Option<(LinkState, u64, u64)>,
    capture: Option<(u64, NcCaptureState)>,
) -> (s: NcStats)
    requires
        engine.wf(),
    ensures
        s == (NcStats {
            rules_loaded: match engine.rule_engine() {
                Some(r) => r.specs().len() as u64,
                None => 0,
            },
            active_flows: engine.table().entries().len() as u64,
            evicted_flows: engine.table().evicted_spec(),
            expired_flows: engine.table().expired_spec(),
            last_ts_us: engine.last_ts(),
            alerts_total: queue.total_spec(),
            alerts_dropped: queue.dropped_spec(),
            analytics_state: match analytics {
                Some((st, _, _)) => if st == LinkState::Connected { 2u64 } else { 1u64 },
                None => 0,
            },
            analytics_sent: match analytics {
                Some((_, sent, _)) => sent,
                None => 0,
            },
            analytics_dropped: match analytics {
                Some((_, _, d)) => d,
                None => 0,
            },
            capture_dropped: match capture {
                Some((d, _)) => d,
                None => 0,
            },
            capture_state: match capture {
                Some((_, NcCaptureState::Idle)) => 0u64,
                Some((_, NcCaptureState::Running)) => 1u64,
                Some((_, NcCaptureState::Finished)) => 2u64,
                Some((_, NcCaptureState::Failed)) => 3u64,
                None => 0,
            },
            ..counters_stats(engine.counters_spec())
        }),
{
    let mut out = NcStats::from_counters(engine.counters());
    out.rules_loaded = match engine.rules() {
        Some(r) => r.len() as u64,
        None => 0,
    };
    let flows = engine.flows();
    proof {
        crate::engine::lemma_engine_invariants(*engine);
    }
    out.active_flows = flows.len() as u64;
    out.evicted_flows = flows.evicted();
    out.expired_flows = flows.expired();
    out.last_ts_us = engine.last_ts_us();
    out.alerts_total = queue.total();
    out.alerts_dropped = queue.dropped();
    if let Some((st, sent, dropped)) = analytics {
        out.analytics_state = if st == LinkState::Connected {
            NcAnalyticsState::Connected.value() as u64
        } else {
            NcAnalyticsState::Connecting.value() as u64
        };
        out.analytics_sent = sent;
        out.analytics_dropped = dropped;
    }
    if let Some((dropped, state)) = capture {
        out.capture_dropped = dropped;
        out.capture_state = state.value() as u64;
    }
    out
}

/// What a status code of the capture library means: `Ok` for 0, else the
/// error with its status (see `map_status`) and the library's message.
pub open spec fn code_result(code: i32, message: Seq<char>, r: Result<(), CoreError>) -> bool {
    if code == 0 {
        r is Ok
    } else {
        r matches Err(e) && e.status == map_status_spec(code) && e.message@ == message
    }
}

/// The result of a call of the capture library that reported `code`, with
/// `message` its last error.
pub fn check_code(code: i32, message: &str) -> (r: Result<(), CoreError>)
    ensures
        code_result(code, message@, r),
{
    if code == 0 {
        Ok(())
    } else {
        Err(CoreError::new(map_status(code), message))
    }
}

/// A capture source as the core keeps it: a handle of the capture library
/// and whether it was started and not stopped since. The library's calls
/// report status codes, which these methods turn into results.
pub struct Sniffer {
    running: bool,
}

impl Sniffer {
    pub closed spec fn running_spec(&self) -> bool {
        self.running
    }

    /// A source that the library opened with `code`, handing over a handle
    /// (`handle`) or not, with `message` in its error buffer: a source that
    /// is not running when the library gave a handle and reported success.
    pub fn opened(code: i32, handle: bool, message: &str) -> (r: Result<Sniffer, CoreError>)
        ensures
            handle && code == 0 ==> (r matches Ok(s) && !s.running_spec()),
            !(handle && code == 0) ==> (r matches Err(e) && e.status == map_status_spec(code) && e.message@
                == message@),
    {
        if handle && code == 0 {
            Ok(Sniffer { running: false })
        } else {
            Err(CoreError::new(map_status(code), message))
        }
    }

    pub fn is_running(&self) -> (b: bool)
        ensures
            b == self.running_spec(),
    {
        self.running
    }

    /// The library's start reported `code`: the source runs from now on if
    /// that was success.
    pub fn start(&mut self, code: i32, message: &str) -> (r: Result<(), CoreError>)
        ensures
            code_result(code, message@, r),
            final(self).running_spec() == (code == 0 || old(self).running_spec()),
    {
        let r = check_code(code, message);
        if code == 0 {
            self.running = true;
        }
        r
    }

    /// The library's stop reported `code`: the source no longer runs,
    /// whatever the code.
    pub fn stop(&mut self, code: i32, message: &str) -> (r: Result<(), CoreError>)
        ensures
            code_result(code, message@, r),
            !final(self).running_spec(),
    {
        self.running = false;
        check_code(code, message)
    }

    /// Whether a replay has finished, from what the library's poll
    /// reported: nothing while `done` is not 1, else the result of its
    /// final `status`.
    pub fn finished(done: i32, status: i32, message: &str) -> (r: Option<Result<(), CoreError>>)
        ensures
            done != 1 ==> r is None,
            done == 1 ==> (r matches Some(x) && code_result(status, message@, x)),
    {
        if done == 1 {
            Some(check_code(status, message))
        } else {
            None
        }
    }
}

/// A flow for the C interface.
#[derive(Debug, Clone, Copy, Default)]
pub struct NcFlow {
    pub a_addr: [u8; 16],
    pub b_addr: [u8; 16],
    pub a_port: u16,
    pub b_port: u16,
    pub proto: u8,
    pub family: u8,
    pub tcp_flags: u8,
    pub reserved: u8,
    pub packets_ab: u64,
    pub packets_ba: u64,
    pub bytes_ab: u64,
    pub bytes_ba: u64,
    pub first_seen_us: u64,
    pub last_seen_us: u64,
}

/// `f` is the record of the flow `key` with `stats`.
pub open spec fn flow_fields(f: NcFlow, key: FlowKey, stats: FlowStats) -> bool {
    &&& (f.a_addr@, f.family) == addr_bytes_spec(key.a.addr)
    &&& f.b_addr@ == addr_bytes_spec(key.b.addr).0
    &&& f.a_port == key.a.port
    &&& f.b_port == key.b.port
    &&& f.proto == key.proto
    &&& f.tcp_flags == stats.tcp_flags
    &&& f.reserved == 0
    &&& f.packets_ab == stats.packets[0]
    &&& f.packets_ba == stats.packets[1]
    &&& f.bytes_ab == stats.bytes[0]
    &&& f.bytes_ba == stats.bytes[1]
    &&& f.first_seen_us == stats.first_seen_us
    &&& f.last_seen_us == stats.last_seen_us
}

impl NcFlow {
    pub fn new(key: &FlowKey, stats: &FlowStats) -> (f: Self)
        ensures
            flow_fields(f, *key, *stats),
    {
        let (a_addr, family) = addr_bytes(key.a.addr);
        let (b_addr, _) = addr_bytes(key.b.addr);
        NcFlow {
            a_addr,
            b_addr,
            a_port: key.a.port,
            b_port: key.b.port,
            proto: key.proto,
            family,
            tcp_flags: stats.tcp_flags,
            reserved: 0,
            packets_ab: stats.packets[0],
            packets_ba: stats.packets[1],
            bytes_ab: stats.bytes[0],
            bytes_ba: stats.bytes[1],
            first_seen_us: stats.first_seen_us,
            last_seen_us: stats.last_seen_us,
        }
    }
}

/// Fills `out` with the flows that carried the most bytes, the most first
/// (see `FlowTable::top_by_bytes`), as many as it has room for, and returns
/// how many it wrote; the slots after those keep what they held.
pub fn top_flows(table: &FlowTable, out: &mut Vec<NcFlow>) -> (n: usize)
    requires
        table.wf(),
        forall|i: int|
            0 <= i < table.entries().len() ==> (#[trigger] table.entries()[i]).1.total_bytes_spec() <= u64::MAX,
    ensures
        final(out)@.len() == old(out)@.len(),
        exists|top: Seq<(FlowKey, FlowStats)>|
            {
                &&& #[trigger] top_spec(table.keyed(), old(out)@.len() as nat, top)
                &&& n == top.len()
                &&& forall|i: int| 0 <= i < n ==> flow_fields(#[trigger] final(out)@[i], top[i].0, top[i].1)
            },
        forall|i: int| n <= i < old(out)@.len() ==> final(out)@[i] == old(out)@[i],
{
    let top = table.top_by_bytes(out.len());
    let mut i: usize = 0;
    while i < top.len()
        invariant
            top_spec(table.keyed(), old(out)@.len() as nat, top@),
            out@.len() == old(out)@.len(),
            top@.len() <= out@.len(),
            i <= top@.len(),
            forall|j: int| 0 <= j < i ==> flow_fields(#[trigger] out@[j], top@[j].0, top@[j].1),
            forall|j: int| i <= j < out@.len() ==> out@[j] == old(out)@[j],
        decreases top.len() - i,
    {
        let f = NcFlow::new(&top[i].0, &top[i].1);
        out.set(i, f);
        i += 1;
    }
    top.len()
}

/// The link type a capture source reports (a negative number stands for
/// an unknown one).
pub fn capture_link(raw: i32) -> (r: Result<LinkType, CoreError>)
    ensures
        ({
            let v: u32 = if raw >= 0 { raw as u32 } else { u32::MAX };
            match LinkType::from_raw_spec(v) {
                Some(l) => r == Ok::<LinkType, CoreError>(l),
                None => r matches Err(e) && e.status == NcStatus::Format && e.message@ == "unsupported link type "@
                    + decimal_spec(v as nat),
            }
        }),
{
    let v: u32 = if raw >= 0 { raw as u32 } else { u32::MAX };
    match LinkType::from_raw(v) {
        Some(l) => Ok(l),
        None => {
            let mut message = String::new();
            push_str(&mut message, "unsupported link type ");
            push_decimal(&mut message, v as u64);
            Err(CoreError { status: NcStatus::Format, message })
        },
    }
}

/// The counters a capture library reports.
#[derive(Debug, Clone, Copy, PartialEq, Eq, Default)]
pub struct Stats {
    pub delivered: u64,
    pub received: u32,
    pub dropped: u32,
    pub if_dropped: u32,
}

/// What the monitor reports of a capture: the frames lost, by the library
/// or by the interface.
#[derive(Debug, Clone, Copy, PartialEq, Eq)]
pub struct CaptureStats {
    pub dropped: u64,
}

impl CaptureStats {
    pub fn from_stats(st: &Stats) -> (c: Self)
        ensures
            c.dropped == st.dropped + st.if_dropped,
    {
        CaptureStats { dropped: st.dropped as u64 + st.if_dropped as u64 }
    }
}

/// A capture device: its name, description and flags.
#[derive(Debug, Clone, PartialEq, Eq)]
pub struct DeviceInfo {
    pub name: String,
    pub description: String,
    pub flags: u32,
}

/// `buf` holds `b` as `write_cstr` writes it.
pub open spec fn cstr_holds(buf: Seq<u8>, b: Seq<u8>) -> bool {
    let n = cstr_len(b, buf.len());
    &&& 0 <= n < buf.len()
    &&& forall|i: int| 0 <= i < n ==> #[trigger] buf[i] == b[i]
    &&& forall|i: int| n <= i < buf.len() ==> #[trigger] buf[i] == 0
}

/// The fields of an alert for the C interface, all but its score.
#[derive(Debug, Clone, Copy)]
pub struct NcAlertFields {
    pub ts_us: u64,
    pub severity: u32,
    pub source: u32,
    pub src_addr: [u8; 16],
    pub family: u8,
    pub rule_id: [u8; 64],
    pub message: [u8; 192],
}

impl NcAlertFields {
    /// The alert's time, severity (1-4) and source (0 rule, 1 anomaly), its
    /// source address (zero bytes and family 0 when it has none), and its
    /// rule id and message as zero-terminated strings.
    pub fn new(alert: &crate::alert::Alert) -> (f: Self)
        ensures
            f.ts_us == alert.ts_us,
            f.severity == alert.severity.value_spec(),
            f.source == match alert.source {
                AlertSource::Rule => 0u32,
                AlertSource::Anomaly => 1u32,
            },
            match alert.src {
                Some(a) => (f.src_addr@, f.family) == addr_bytes_spec(a),
                None => f.src_addr@ == Seq::new(16, |i: int| 0u8) && f.family == 0,
            },
            cstr_holds(f.rule_id@, encode_utf8(alert.rule_id@)),
            cstr_holds(f.message@, encode_utf8(alert.message@)),
    {
        let (src_addr, family) = match alert.src {
            Some(a) => addr_bytes(a),
            None => ([0u8; 16], 0u8),
        };
        let mut f = NcAlertFields {
            ts_us: alert.ts_us,
            severity: alert.severity.value(),
            source: alert.source.value(),
            src_addr,
            family,
            rule_id: [0; 64],
            message: [0; 192],
        };
        write_cstr(&mut f.rule_id, alert.rule_id.as_str());
        write_cstr(&mut f.message, alert.message.as_str());
        assert(f.src_addr@ =~= Seq::new(16, |i: int| 0u8) || alert.src is Some);
        f
    }
}

} // verus!
