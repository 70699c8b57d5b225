use vstd::prelude::*;

use crate::addr::IpAddr;

verus! {

/// How serious an alert is, from low to critical.
#[derive(Debug, Clone, Copy, PartialEq, Eq, PartialOrd, Ord, Structural)]
pub enum Severity {
    Low,
    Medium,
    High,
    Critical,
}

impl Severity {
    /// The severity's number: 1 (low) to 4 (critical).
    pub open spec fn value_spec(self) -> u32 {
        match self {
            Severity::Low => 1,
            Severity::Medium => 2,
            Severity::High => 3,
            Severity::Critical => 4,
        }
    }

    pub fn value(&self) -> (v: u32)
        ensures
            v == self.value_spec(),
    {
        match self {
            Severity::Low => 1,
            Severity::Medium => 2,
            Severity::High => 3,
            Severity::Critical => 4,
        }
    }

    pub open spec fn name_spec(self) -> Seq<char> {
        match self {
            Severity::Low => "low"@,
            Severity::Medium => "medium"@,
            Severity::High => "high"@,
            Severity::Critical => "critical"@,
        }
    }

    /// The severity's name in lower case, as rule files write it.
    pub fn name(&self) -> (s: &'static str)
        ensures
            s@ == self.name_spec(),
    {
        match self {
            Severity::Low => "low",
            Severity::Medium => "medium",
            Severity::High => "high",
            Severity::Critical => "critical",
        }
    }
}

/// What raised an alert: a rule of the rule engine, or the anomaly model.
#[derive(Debug, Clone, Copy, PartialEq, Eq, Structural)]
pub enum AlertSource {
    Rule,
    Anomaly,
}

impl AlertSource {
    /// 0 for a rule, 1 for the anomaly model.
    pub fn value(&self) -> (v: u32)
        ensures
            v == match self {
                AlertSource::Rule => 0u32,
                AlertSource::Anomaly => 1u32,
            },
    {
        match self {
            AlertSource::Rule => 0,
            AlertSource::Anomaly => 1,
        }
    }
}

/// An alert raised by a rule. Its score is `observed / threshold`: how far
/// the observed count went past the rule's threshold.
#[derive(Debug, Clone, PartialEq, Eq)]
pub struct Alert {
    pub ts_us: u64,
    pub source: AlertSource,
    pub severity: Severity,
    pub rule_id: String,
    pub message: String,
    pub src: Option<IpAddr>,
    pub observed: u64,
    pub threshold: u32,
}

/// An alert as mathematical values.
pub struct AlertModel {
    pub ts_us: u64,
    pub source: AlertSource,
    pub severity: Severity,
    pub rule_id: Seq<char>,
    pub message: Seq<char>,
    pub src: Option<IpAddr>,
    pub observed: u64,
    pub threshold: u32,
}

impl View for Alert {
    type V = AlertModel;

    open spec fn view(&self) -> AlertModel {
        AlertModel {
            ts_us: self.ts_us,
            source: self.source,
            severity: self.severity,
            rule_id: self.rule_id@,
            message: self.message@,
            src: self.src,
            observed: self.observed,
            threshold: self.threshold,
        }
    }
}

} // verus!
