use vstd::prelude::*;

use crate::text::{decimal_spec, push_decimal, push_str};

verus! {

/// The protocol layer at which a frame failed to decode.
#[derive(Debug, Clone, Copy, PartialEq, Eq, Structural)]
pub enum Layer {
    Link,
    Ipv4,
    Ipv6,
    Tcp,
    Udp,
    Icmp,
    Dns,
}

impl Layer {
    /// Lower-case name of the layer, as used in error messages.
    pub fn name(&self) -> (s: &'static str)
        ensures
            s@ == self.name_spec(),
    {
        match self {
            Layer::Link => "link",
            Layer::Ipv4 => "ipv4",
            Layer::Ipv6 => "ipv6",
            Layer::Tcp => "tcp",
            Layer::Udp => "udp",
            Layer::Icmp => "icmp",
            Layer::Dns => "dns",
        }
    }

    pub open spec fn name_spec(&self) -> Seq<char> {
        match self {
            Layer::Link => "link"@,
            Layer::Ipv4 => "ipv4"@,
            Layer::Ipv6 => "ipv6"@,
            Layer::Tcp => "tcp"@,
            Layer::Udp => "udp"@,
            Layer::Icmp => "icmp"@,
            Layer::Dns => "dns"@,
        }
    }
}

/// Why a frame could not be decoded: either it ended before a header did,
/// or a header field holds a value that no valid packet has.
#[derive(Debug, Clone, PartialEq, Eq)]
pub enum ParseError {
    Truncated { layer: Layer, needed: usize, available: usize },
    Malformed { layer: Layer, reason: &'static str },
}

impl ParseError {
    pub open spec fn describe_spec(&self) -> Seq<char> {
        match self {
            ParseError::Truncated { layer, needed, available } => layer.name_spec() + ": truncated, need "@
                + decimal_spec(*needed as nat) + " bytes, have "@ + decimal_spec(*available as nat),
            ParseError::Malformed { layer, reason } => layer.name_spec() + ": "@ + reason@,
        }
    }

    /// The error as a sentence.
    pub fn describe(&self) -> (s: String)
        ensures
            s@ == self.describe_spec(),
    {
        let mut s = String::new();
        match self {
            ParseError::Truncated { layer, needed, available } => {
                push_str(&mut s, layer.name());
                push_str(&mut s, ": truncated, need ");
                push_decimal(&mut s, *needed as u64);
                push_str(&mut s, " bytes, have ");
                push_decimal(&mut s, *available as u64);
            },
            ParseError::Malformed { layer, reason } => {
                push_str(&mut s, layer.name());
                push_str(&mut s, ": ");
                push_str(&mut s, reason);
            },
        }
        s
    }

    pub open spec fn layer_spec(&self) -> Layer {
        match self {
            ParseError::Truncated { layer, .. } => *layer,
            ParseError::Malformed { layer, .. } => *layer,
        }
    }

    /// The layer that the error is about.
    pub fn layer(&self) -> (l: Layer)
        ensures
            l == self.layer_spec(),
    {
        match self {
            ParseError::Truncated { layer, .. } => *layer,
            ParseError::Malformed { layer, .. } => *layer,
        }
    }
}

} // verus!
