pub mod abi;
pub mod cli;
pub mod addr;
pub mod alert;
pub mod analytics;
pub mod engine;
pub mod error;
pub mod flow;
pub mod link;
pub mod lru_cache;
pub mod packet;
pub mod pcap;
pub mod replay;
pub mod rules;
pub mod synth;
pub mod text;

pub use addr::IpAddr;
pub use error::{Layer, ParseError};
pub use flow::{Direction, Endpoint, FlowKey, FlowStats, FlowTable};
pub use alert::{Alert, AlertSource, Severity};
pub use engine::{Counters, Engine, EngineConfig, Snapshot};
pub use packet::{Frame, LinkType, Packet};
