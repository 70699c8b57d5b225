use vstd::prelude::*;

use crate::alert::Severity;
use crate::text::{decimal, decimal_spec, push_str};
use vstd::string::StringSliceAdditionalSpecFns;

verus! {

/// The version of the rule file format that is understood.
pub const SUPPORTED_VERSION: u32 = 1;
pub const MAX_RULE_ID_LEN: usize = 63;
pub const DEFAULT_MIN_LABEL_LEN: usize = 30;

/// What a rule counts per source address.
#[derive(Debug, Clone, Copy, PartialEq, Eq, Structural)]
pub enum RuleKind {
    /// Distinct destination ports of TCP connection attempts (SYN without ACK).
    PortScan,
    /// Distinct destination hosts.
    HostSweep,
    /// DNS queries whose name has a long, random-looking label.
    DnsTunnel,
    /// Packets.
    PacketRate,
}

/// A detection rule. Times are in microseconds; `window_text` is the window
/// as the rule file wrote it in seconds (for alert messages), and
/// `min_entropy_bits` the bits of the `f64` entropy threshold that a DNS
/// tunnel rule compares labels against.
#[derive(Debug, Clone, PartialEq, Eq)]
pub struct RuleSpec {
    pub id: String,
    pub kind: RuleKind,
    pub severity: Severity,
    pub description: String,
    pub window_us: u64,
    pub window_text: String,
    pub threshold: u32,
    pub cooldown_us: u64,
    pub enabled: bool,
    pub min_label_len: usize,
    pub min_entropy_bits: u64,
}

/// The checks on a rule's floating-point fields, as judged where the file
/// was read: the window is a positive number, the cooldown is zero or
/// positive, the entropy threshold is zero or positive.
#[derive(Debug, Clone, Copy, PartialEq, Eq, Structural)]
pub struct FloatChecks {
    pub window_positive: bool,
    pub cooldown_non_negative: bool,
    pub entropy_non_negative: bool,
}

/// Why a rule file was refused.
#[derive(Debug, Clone, PartialEq, Eq)]
pub enum RuleError {
    /// The file could not be read (the message of the I/O error).
    Io(String),
    /// The file is not valid YAML of the rule schema (the parser's message).
    Syntax(String),
    /// A rule breaks a constraint.
    Invalid { rule: String, reason: String },
    /// The file declares a version other than `SUPPORTED_VERSION`.
    Version(u32),
}

impl RuleError {
    pub open spec fn describe_spec(&self) -> Seq<char> {
        match self {
            RuleError::Io(e) => "cannot read rules: "@ + e@,
            RuleError::Syntax(e) => "rules yaml: "@ + e@,
            RuleError::Invalid { rule, reason } => "rule '"@ + rule@ + "': "@ + reason@,
            RuleError::Version(v) => "rules version "@ + decimal_spec(*v as nat)
                + " not supported (expected 1)"@,
        }
    }

    /// The error as a sentence.
    pub fn describe(&self) -> (s: String)
        ensures
            s@ == self.describe_spec(),
    {
        let mut s = String::new();
        match self {
            RuleError::Io(e) => {
                push_str(&mut s, "cannot read rules: ");
                push_str(&mut s, e.as_str());
            },
            RuleError::Syntax(e) => {
                push_str(&mut s, "rules yaml: ");
                push_str(&mut s, e.as_str());
            },
            RuleError::Invalid { rule, reason } => {
                push_str(&mut s, "rule '");
                push_str(&mut s, rule.as_str());
                push_str(&mut s, "': ");
                push_str(&mut s, reason.as_str());
            },
            RuleError::Version(v) => {
                push_str(&mut s, "rules version ");
                let d = decimal(*v as u64);
                push_str(&mut s, d.as_str());
                push_str(&mut s, " not supported (expected 1)");
            },
        }
        assert(s@ =~= self.describe_spec());
        s
    }
}

/// Length of a string in bytes (UTF-8).
pub open spec fn byte_len(s: Seq<char>) -> int {
    vstd::utf8::encode_utf8(s).len() as int
}

/// The first constraint that a rule breaks, if any: an id of 1 to 63 bytes,
/// a positive window, a cooldown of zero or more, a threshold of at least
/// 1, and for DNS tunnel rules an entropy threshold of zero or more.
pub open spec fn rule_problem(r: RuleSpec, c: FloatChecks) -> Option<Seq<char>> {
    if byte_len(r.id@) == 0 || byte_len(r.id@) > MAX_RULE_ID_LEN {
        Some("id must be 1-63 characters"@)
    } else if !c.window_positive {
        Some("window_secs must be a positive number"@)
    } else if !c.cooldown_non_negative {
        Some("cooldown_secs must be zero or positive"@)
    } else if r.threshold == 0 {
        Some("threshold must be at least 1"@)
    } else if r.kind == RuleKind::DnsTunnel && !c.entropy_non_negative {
        Some("min_entropy must be zero or positive"@)
    } else {
        None
    }
}

/// What is wrong with the `i`th rule of a file, if anything: a broken
/// constraint, or an id that an earlier rule has.
pub open spec fn problem_at(rules: Seq<RuleSpec>, checks: Seq<FloatChecks>, i: int) -> Option<Seq<char>> {
    match rule_problem(rules[i], checks[i]) {
        Some(p) => Some(p),
        None => if exists|j: int| 0 <= j < i && (#[trigger] rules[j]).id@ == rules[i].id@ {
            Some("duplicate id"@)
        } else {
            None
        },
    }
}

/// The first broken constraint of a rule.
pub fn validate(rule: &RuleSpec, checks: &FloatChecks) -> (r: Option<&'static str>)
    ensures
        match rule_problem(*rule, *checks) {
            Some(p) => r matches Some(q) && q@ == p,
            None => r is None,
        },
{
    let id_len = rule.id.as_str().as_bytes().len();
    if id_len == 0 || id_len > MAX_RULE_ID_LEN {
        proof {
            reveal_strlit("id must be 1-63 characters");
        }
        return Some("id must be 1-63 characters");
    }
    if !checks.window_positive {
        return Some("window_secs must be a positive number");
    }
    if !checks.cooldown_non_negative {
        return Some("cooldown_secs must be zero or positive");
    }
    if rule.threshold == 0 {
        return Some("threshold must be at least 1");
    }
    if rule.kind == RuleKind::DnsTunnel && !checks.entropy_non_negative {
        return Some("min_entropy must be zero or positive");
    }
    None
}

fn string_of(s: &str) -> (r: String)
    ensures
        r@ == s@,
{
    s.to_owned()
}

/// Checks a rule file: its version, then each rule in order; the first
/// rule that breaks a constraint or repeats an earlier id is reported.
/// `checks[i]` judges the floating-point fields of `rules[i]`.
pub fn check_rules(version: u32, rules: Vec<RuleSpec>, checks: &Vec<FloatChecks>) -> (r: Result<Vec<RuleSpec>, RuleError>)
    requires
        rules@.len() == checks@.len(),
    ensures
        version != SUPPORTED_VERSION ==> r == Err::<Vec<RuleSpec>, RuleError>(RuleError::Version(version)),
        version == SUPPORTED_VERSION ==> match r {
            Ok(v) => v@ == rules@ && forall|i: int| 0 <= i < rules@.len() ==> problem_at(rules@, checks@, i) is None,
            Err(RuleError::Invalid { rule, reason }) => exists|i: int|
                0 <= i < rules@.len() && problem_at(rules@, checks@, i) == Some(reason@) && rule@
                    == rules@[i].id@ && forall|j: int| 0 <= j < i ==> problem_at(rules@, checks@, j) is None,
            Err(_) => false,
        },
{
    if version != SUPPORTED_VERSION {
        return Err(RuleError::Version(version));
    }
    let mut i: usize = 0;
    while i < rules.len()
        invariant
            version == SUPPORTED_VERSION,
            rules@.len() == checks@.len(),
            i <= rules@.len(),
            forall|j: int| 0 <= j < i ==> problem_at(rules@, checks@, j) is None,
        decreases rules@.len() - i,
    {
        if let Some(reason) = validate(&rules[i], &checks[i]) {
            let r = Err(RuleError::Invalid { rule: rules[i].id.clone(), reason: string_of(reason) });
            assert(problem_at(rules@, checks@, i as int) == Some(reason@));
            return r;
        }
        assert(rule_problem(rules@[i as int], checks@[i as int]) is None);
        let mut j: usize = 0;
        while j < i
            invariant
                version == SUPPORTED_VERSION,
                i < rules@.len(),
                rules@.len() == checks@.len(),
                rule_problem(rules@[i as int], checks@[i as int]) is None,
                forall|q: int| 0 <= q < i ==> problem_at(rules@, checks@, q) is None,
                j <= i,
                forall|q: int| 0 <= q < j ==> rules@[q].id@ != rules@[i as int].id@,
            decreases i - j,
        {
            if rules[j].id == rules[i].id {
                proof {
                    reveal_strlit("duplicate id");
                }
                let r = Err(RuleError::Invalid { rule: rules[i].id.clone(), reason: string_of("duplicate id") });
                assert(0 <= j < i && rules@[j as int].id@ == rules@[i as int].id@);
                assert(problem_at(rules@, checks@, i as int) == Some("duplicate id"@));
                return r;
            }
            j += 1;
        }
        assert(!exists|q: int| 0 <= q < i && (#[trigger] rules@[q]).id@ == rules@[i as int].id@);
        assert(problem_at(rules@, checks@, i as int) is None);
        i += 1;
    }
    Ok(rules)
}

} // verus!
