//! The command line of the monitor: `gen` writes a synthetic capture,
//! `replay` runs a capture through the engine, `help` prints the usage.
use vstd::prelude::*;

use crate::engine::{Counters, Snapshot};
use crate::flow::FlowKey;
use crate::synth::{scenario_named, Scenario};
use crate::text::{decimal_spec, ip_text_spec, push_decimal, push_ip, push_str, same_text};

verus! {

pub const DEFAULT_GEN_PACKETS: usize = 100_000;
pub const DEFAULT_SEED: u64 = 7;
pub const DEFAULT_TOP: usize = 10;

pub const USAGE: &'static str = "usage:\n  netmon gen <mixed|portscan|dnstunnel|flood> <out.pcap> [--packets N] [--seed S]\n  netmon replay <file.pcap> [--top N] [--rules rules.yaml | --no-rules]\n  netmon help";

/// Where the rules of a replay come from.
#[derive(Debug, Clone, PartialEq, Eq)]
pub enum RulesChoice {
    Builtin,
    File(String),
    Off,
}

/// What the command line asks for.
#[derive(Debug, Clone, PartialEq, Eq)]
pub enum Command {
    Gen { scenario: Scenario, out: String, packets: usize, seed: u64 },
    Replay { file: String, top: usize, rules: RulesChoice },
    Help,
}

/// Why the command line was refused.
#[derive(Debug, Clone, PartialEq, Eq)]
pub struct ArgError(pub String);

pub enum RulesModel {
    Builtin,
    File(Seq<char>),
    Off,
}

pub enum CommandModel {
    Gen { scenario: Scenario, out: Seq<char>, packets: usize, seed: u64 },
    Replay { file: Seq<char>, top: usize, rules: RulesModel },
    Help,
}

impl View for RulesChoice {
    type V = RulesModel;

    open spec fn view(&self) -> RulesModel {
        match self {
            RulesChoice::Builtin => RulesModel::Builtin,
            RulesChoice::File(p) => RulesModel::File(p@),
            RulesChoice::Off => RulesModel::Off,
        }
    }
}

impl View for Command {
    type V = CommandModel;

    open spec fn view(&self) -> CommandModel {
        match self {
            Command::Gen { scenario, out, packets, seed } => CommandModel::Gen {
                scenario: *scenario,
                out: out@,
                packets: *packets,
                seed: *seed,
            },
            Command::Replay { file, top, rules } => CommandModel::Replay { file: file@, top: *top, rules: rules@ },
            Command::Help => CommandModel::Help,
        }
    }
}

pub open spec fn is_digit(c: char) -> bool {
    '0' <= c <= '9'
}

pub open spec fn digits_value(s: Seq<char>) -> nat
    decreases s.len(),
{
    if s.len() == 0 {
        0
    } else {
        digits_value(s.drop_last()) * 10 + (s.last() as nat - 48) as nat
    }
}

/// A decimal number as std reads unsigned integers: an optional `+`, then
/// at least one digit, at most `max`.
pub open spec fn number_spec(s: Seq<char>, max: nat) -> Option<nat> {
    let d = unsigned_part(s);
    if d.len() > 0 && all_digits(d) && digits_value(d) <= max {
        Some(digits_value(d))
    } else {
        None
    }
}

/// The text after an optional leading `+`.
pub open spec fn unsigned_part(s: Seq<char>) -> Seq<char> {
    if s.len() > 0 && s[0] == '+' { s.drop_first() } else { s }
}

pub open spec fn all_digits(d: Seq<char>) -> bool {
    forall|i: int| 0 <= i < d.len() ==> is_digit(#[trigger] d[i])
}

/// Reads a decimal number of at most `max`.
pub fn read_number(s: &str, max: u64) -> (r: Option<u64>)
    ensures
        match number_spec(s@, max as nat) {
            Some(v) => r == Some(v as u64),
            None => r is None,
        },
{
    let n = s.unicode_len();
    let start: usize = if n > 0 && s.get_char(0) == '+' { 1 } else { 0 };
    let ghost d = unsigned_part(s@);
    assert(d =~= s@.subrange(start as int, n as int));
    if start == n {
        return None;
    }
    let mut value: u64 = 0;
    let mut i = start;
    while i < n
        invariant
            start <= i <= n,
            n == s@.len(),
            d == unsigned_part(s@),
            d == s@.subrange(start as int, n as int),
            forall|j: int| start <= j < i ==> is_digit(#[trigger] s@[j]),
            value == digits_value(s@.subrange(start as int, i as int)),
            value <= max,
        decreases n - i,
    {
        let c = s.get_char(i);
        if !('0' <= c && c <= '9') {
            assert(d[i - start] == c);
            assert(!is_digit(d[i - start]));
            assert(!all_digits(d));
            return None;
        }
        let digit = (c as u32 - 48) as u64;
        assert(s@.subrange(start as int, i + 1).drop_last() =~= s@.subrange(start as int, i as int));
        assert(digits_value(s@.subrange(start as int, i + 1)) == value * 10 + digit);
        if digit > max || value > (max - digit) / 10 {
            proof {
                assert(value * 10 + digit > max) by (nonlinear_arith)
                    requires
                        digit > max || value > (max - digit) / 10,
                        digit <= 9,
                ;
                if all_digits(d) {
                    lemma_digits_grow(d, i + 1 - start);
                    assert(d.take(i + 1 - start) =~= s@.subrange(start as int, i + 1));
                }
            }
            return None;
        }
        value = value * 10 + digit;
        i += 1;
    }
    assert(s@.subrange(start as int, i as int) =~= d);
    assert(all_digits(d));
    Some(value)
}

/// A longer run of digits is worth at least as much.
proof fn lemma_digits_grow(s: Seq<char>, k: int)
    requires
        0 <= k <= s.len(),
        forall|i: int| 0 <= i < s.len() ==> is_digit(#[trigger] s[i]),
    ensures
        digits_value(s.take(k)) <= digits_value(s),
    decreases s.len() - k,
{
    if k < s.len() {
        lemma_digits_grow(s, k + 1);
        assert(s.take(k + 1).drop_last() =~= s.take(k));
    } else {
        assert(s.take(k) =~= s);
    }
}

pub open spec fn quoted(s: Seq<char>) -> Seq<char> {
    "'"@ + s + "'"@
}

/// What an option's value reads as: its number, or why not.
pub open spec fn option_number(flag: Seq<char>, value: Option<Seq<char>>, max: nat) -> Result<nat, Seq<char>> {
    match value {
        None => Err(flag + ": missing value"@),
        Some(v) => match number_spec(v, max) {
            Some(n) => Ok(n),
            None => Err(flag + ": "@ + quoted(v) + " is not a valid number"@),
        },
    }
}

pub open spec fn next_arg(args: Seq<Seq<char>>, i: int) -> Option<Seq<char>> {
    if 0 <= i < args.len() { Some(args[i]) } else { None }
}

/// The options of `gen` from `args[i..]`, with the packets and seed so far.
pub open spec fn gen_options(args: Seq<Seq<char>>, i: int, packets: nat, seed: nat) -> Result<(nat, nat), Seq<char>>
    decreases args.len() - i,
{
    if i >= args.len() || i < 0 {
        Ok((packets, seed))
    } else if args[i] == "--packets"@ {
        match option_number(args[i], next_arg(args, i + 1), usize::MAX as nat) {
            Ok(n) => gen_options(args, i + 2, n, seed),
            Err(e) => Err(e),
        }
    } else if args[i] == "--seed"@ {
        match option_number(args[i], next_arg(args, i + 1), u64::MAX as nat) {
            Ok(n) => gen_options(args, i + 2, packets, n),
            Err(e) => Err(e),
        }
    } else {
        Err("gen: unknown option "@ + quoted(args[i]))
    }
}

/// The options of `replay` from `args[i..]`.
pub open spec fn replay_options(args: Seq<Seq<char>>, i: int, top: nat, rules: RulesModel) -> Result<(nat, RulesModel), Seq<char>>
    decreases args.len() - i,
{
    if i >= args.len() || i < 0 {
        Ok((top, rules))
    } else if args[i] == "--top"@ {
        match option_number(args[i], next_arg(args, i + 1), usize::MAX as nat) {
            Ok(n) => replay_options(args, i + 2, n, rules),
            Err(e) => Err(e),
        }
    } else if args[i] == "--no-rules"@ {
        replay_options(args, i + 1, top, RulesModel::Off)
    } else if args[i] == "--rules"@ {
        match next_arg(args, i + 1) {
            None => Err("--rules: missing path"@),
            Some(p) => replay_options(args, i + 2, top, RulesModel::File(p)),
        }
    } else {
        Err("replay: unknown option "@ + quoted(args[i]))
    }
}

/// What `gen` asks for, `args[0]` being `gen`.
pub open spec fn parse_gen_spec(args: Seq<Seq<char>>) -> Result<CommandModel, Seq<char>> {
    if args.len() < 2 {
        Err("gen: missing scenario"@)
    } else {
        match scenario_named(args[1]) {
            None => Err("gen: unknown scenario "@ + quoted(args[1])),
            Some(scenario) => if args.len() < 3 {
                Err("gen: missing output path"@)
            } else {
                match gen_options(args, 3, DEFAULT_GEN_PACKETS as nat, DEFAULT_SEED as nat) {
                    Ok((packets, seed)) => Ok(
                        CommandModel::Gen { scenario, out: args[2], packets: packets as usize, seed: seed as u64 },
                    ),
                    Err(e) => Err(e),
                }
            },
        }
    }
}

/// What `replay` asks for, `args[0]` being `replay`.
pub open spec fn parse_replay_spec(args: Seq<Seq<char>>) -> Result<CommandModel, Seq<char>> {
    if args.len() < 2 {
        Err("replay: missing pcap path"@)
    } else {
        match replay_options(args, 2, DEFAULT_TOP as nat, RulesModel::Builtin) {
            Ok((top, rules)) => Ok(CommandModel::Replay { file: args[1], top: top as usize, rules }),
            Err(e) => Err(e),
        }
    }
}

/// What the arguments (without the program name) ask for, or the message
/// of why they are refused.
pub open spec fn parse_spec(args: Seq<Seq<char>>) -> Result<CommandModel, Seq<char>> {
    if args.len() == 0 || args[0] == "help"@ || args[0] == "-h"@ || args[0] == "--help"@ {
        Ok(CommandModel::Help)
    } else if args[0] == "gen"@ {
        parse_gen_spec(args)
    } else if args[0] == "replay"@ {
        parse_replay_spec(args)
    } else {
        Err("unknown command "@ + quoted(args[0]))
    }
}

pub open spec fn arg_views(args: Seq<String>) -> Seq<Seq<char>> {
    args.map_values(|a: String| a@)
}

fn text2(a: &str, b: &str) -> (s: String)
    ensures
        s@ == a@ + b@,
{
    let mut s = String::new();
    push_str(&mut s, a);
    push_str(&mut s, b);
    s
}

fn text3(a: &str, b: &str, c: &str) -> (s: String)
    ensures
        s@ == a@ + b@ + c@,
{
    let mut s = String::new();
    push_str(&mut s, a);
    push_str(&mut s, b);
    push_str(&mut s, c);
    s
}

/// The number that option `flag` is given at `args[i]`.
fn number(args: &Vec<String>, i: usize, max: u64) -> (r: Result<u64, ArgError>)
    requires
        1 <= i <= args@.len(),
    ensures
        match option_number(arg_views(args@)[i - 1], next_arg(arg_views(args@), i as int), max as nat) {
            Ok(n) => r == Ok::<u64, ArgError>(n as u64),
            Err(e) => r matches Err(ArgError(m)) && m@ == e,
        },
{
    let flag = args[i - 1].as_str();
    if i >= args.len() {
        return Err(ArgError(text2(flag, ": missing value")));
    }
    let value = args[i].as_str();
    match read_number(value, max) {
        Some(n) => Ok(n),
        None => {
            let mut s = text2(flag, ": '");
            push_str(&mut s, value);
            push_str(&mut s, "' is not a valid number");
            assert(s@ =~= flag@ + ": "@ + quoted(value@) + " is not a valid number"@) by {
                reveal_strlit(": '");
                reveal_strlit(": ");
                reveal_strlit("'");
                reveal_strlit("' is not a valid number");
                reveal_strlit(" is not a valid number");
            }
            Err(ArgError(s))
        },
    }
}

/// The `gen` command from its arguments, `args[0]` being `gen`.
fn parse_gen(args: &Vec<String>) -> (r: Result<Command, ArgError>)
    requires
        args@.len() >= 1,
    ensures
        match parse_gen_spec(arg_views(args@)) {
            Ok(c) => r matches Ok(x) && x@ == c,
            Err(e) => r matches Err(ArgError(m)) && m@ == e,
        },
{
    let ghost a = arg_views(args@);
    let n = args.len();
    if n < 2 {
        return Err(ArgError("gen: missing scenario".to_owned()));
    }
    let scenario = match Scenario::from_name(args[1].as_str()) {
        Some(s) => s,
        None => {
            let s = text3("gen: unknown scenario '", args[1].as_str(), "'");
            assert(s@ =~= "gen: unknown scenario "@ + quoted(a[1])) by {
                reveal_strlit("gen: unknown scenario '");
                reveal_strlit("gen: unknown scenario ");
                reveal_strlit("'");
            }
            return Err(ArgError(s));
        },
    };
    if n < 3 {
        return Err(ArgError("gen: missing output path".to_owned()));
    }
    let mut packets: u64 = DEFAULT_GEN_PACKETS as u64;
    let mut seed: u64 = DEFAULT_SEED;
    let mut i: usize = 3;
    while i < n
        invariant
            3 <= i,
            n == args@.len(),
            a == arg_views(args@),
            a.len() == n,
            a.len() >= 3,
            parse_gen_spec(a) == match gen_options(a, 3, DEFAULT_GEN_PACKETS as nat, DEFAULT_SEED as nat) {
                Ok((p, sd)) => Ok(CommandModel::Gen { scenario, out: a[2], packets: p as usize, seed: sd as u64 }),
                Err(e) => Err(e),
            },
            packets <= usize::MAX,
            gen_options(a, i as int, packets as nat, seed as nat) == gen_options(
                a,
                3,
                DEFAULT_GEN_PACKETS as nat,
                DEFAULT_SEED as nat,
            ),
        decreases n - i,
    {
        let flag = args[i].as_str();
        assert(a[i as int] == flag@);
        if same_text(flag, "--packets") {
            match number(args, i + 1, usize::MAX as u64) {
                Ok(v) => packets = v,
                Err(e) => return Err(e),
            }
        } else if same_text(flag, "--seed") {
            match number(args, i + 1, u64::MAX) {
                Ok(v) => seed = v,
                Err(e) => return Err(e),
            }
        } else {
            let s = text3("gen: unknown option '", flag, "'");
            assert(s@ =~= "gen: unknown option "@ + quoted(a[i as int])) by {
                reveal_strlit("gen: unknown option '");
                reveal_strlit("gen: unknown option ");
                reveal_strlit("'");
            }
            return Err(ArgError(s));
        }
        i += 2;
    }
    return Ok(Command::Gen { scenario, out: args[2].clone(), packets: packets as usize, seed });
}

/// The `replay` command from its arguments, `args[0]` being `replay`.
fn parse_replay(args: &Vec<String>) -> (r: Result<Command, ArgError>)
    requires
        args@.len() >= 1,
    ensures
        match parse_replay_spec(arg_views(args@)) {
            Ok(c) => r matches Ok(x) && x@ == c,
            Err(e) => r matches Err(ArgError(m)) && m@ == e,
        },
{
    let ghost a = arg_views(args@);
    let n = args.len();
    if n < 2 {
        return Err(ArgError("replay: missing pcap path".to_owned()));
    }
    let mut top: u64 = DEFAULT_TOP as u64;
    let mut rules = RulesChoice::Builtin;
    let mut i: usize = 2;
    while i < n
        invariant
            2 <= i,
            n == args@.len(),
            a == arg_views(args@),
            a.len() == n,
            a.len() >= 2,
            parse_replay_spec(a) == match replay_options(a, 2, DEFAULT_TOP as nat, RulesModel::Builtin) {
                Ok((t, r)) => Ok(CommandModel::Replay { file: a[1], top: t as usize, rules: r }),
                Err(e) => Err(e),
            },
            top <= usize::MAX,
            replay_options(a, i as int, top as nat, rules@) == replay_options(
                a,
                2,
                DEFAULT_TOP as nat,
                RulesModel::Builtin,
            ),
        decreases n - i,
    {
        let flag = args[i].as_str();
        assert(a[i as int] == flag@);
        if same_text(flag, "--top") {
            match number(args, i + 1, usize::MAX as u64) {
                Ok(v) => top = v,
                Err(e) => return Err(e),
            }
            i += 2;
        } else if same_text(flag, "--no-rules") {
            rules = RulesChoice::Off;
            i += 1;
        } else if same_text(flag, "--rules") {
            if i + 1 >= n {
                return Err(ArgError("--rules: missing path".to_owned()));
            }
            rules = RulesChoice::File(args[i + 1].clone());
            i += 2;
        } else {
            let s = text3("replay: unknown option '", flag, "'");
            assert(s@ =~= "replay: unknown option "@ + quoted(a[i as int])) by {
                reveal_strlit("replay: unknown option '");
                reveal_strlit("replay: unknown option ");
                reveal_strlit("'");
            }
            return Err(ArgError(s));
        }
    }
    return Ok(Command::Replay { file: args[1].clone(), top: top as usize, rules });
}

/// Reads the command line (without the program name; see `parse_spec`).
pub fn parse(args: Vec<String>) -> (r: Result<Command, ArgError>)
    ensures
        match parse_spec(arg_views(args@)) {
            Ok(c) => r matches Ok(x) && x@ == c,
            Err(e) => r matches Err(ArgError(m)) && m@ == e,
        },
{
    let ghost a = arg_views(args@);
    let n = args.len();
    if n == 0 || same_text(args[0].as_str(), "help") || same_text(args[0].as_str(), "-h") || same_text(
        args[0].as_str(),
        "--help",
    ) {
        return Ok(Command::Help);
    }
    if same_text(args[0].as_str(), "gen") {
        return parse_gen(&args);
    }
    if same_text(args[0].as_str(), "replay") {
        return parse_replay(&args);
    }
    let s = text3("unknown command '", args[0].as_str(), "'");
    assert(s@ =~= "unknown command "@ + quoted(a[0])) by {
        reveal_strlit("unknown command '");
        reveal_strlit("unknown command ");
        reveal_strlit("'");
    }
    Err(ArgError(s))
}

/// `"packets     : P  bytes: B  parse errors: E"`.
pub fn packets_line(c: &Counters) -> (s: String)
    ensures
        s@ == "packets     : "@ + decimal_spec(c.packets as nat) + "  bytes: "@ + decimal_spec(c.bytes as nat)
            + "  parse errors: "@ + decimal_spec(c.parse_errors as nat),
{
    let mut s = String::new();
    push_str(&mut s, "packets     : ");
    push_decimal(&mut s, c.packets);
    push_str(&mut s, "  bytes: ");
    push_decimal(&mut s, c.bytes);
    push_str(&mut s, "  parse errors: ");
    push_decimal(&mut s, c.parse_errors);
    s
}

/// `"layers      : ipv4 A  ipv6 B  non-ip C  fragments D"`.
pub fn layers_line(c: &Counters) -> (s: String)
    ensures
        s@ == "layers      : ipv4 "@ + decimal_spec(c.ipv4 as nat) + "  ipv6 "@ + decimal_spec(c.ipv6 as nat)
            + "  non-ip "@ + decimal_spec(c.non_ip as nat) + "  fragments "@ + decimal_spec(c.fragments as nat),
{
    let mut s = String::new();
    push_str(&mut s, "layers      : ipv4 ");
    push_decimal(&mut s, c.ipv4);
    push_str(&mut s, "  ipv6 ");
    push_decimal(&mut s, c.ipv6);
    push_str(&mut s, "  non-ip ");
    push_decimal(&mut s, c.non_ip);
    push_str(&mut s, "  fragments ");
    push_decimal(&mut s, c.fragments);
    s
}

/// The decimal text of `n`.
pub open spec fn dec(n: u64) -> Seq<char> {
    decimal_spec(n as nat)
}

/// `"transport   : tcp A  udp B  icmp C  other D"`.
pub fn transport_line(c: &Counters) -> (s: String)
    ensures
        s@ == "transport   : tcp "@ + dec(c.tcp) + "  udp "@ + dec(c.udp) + "  icmp "@ + dec(c.icmp) + "  other "@ + dec(
            c.other_l4,
        ),
{
    let mut s = String::new();
    push_str(&mut s, "transport   : tcp ");
    push_decimal(&mut s, c.tcp);
    push_str(&mut s, "  udp ");
    push_decimal(&mut s, c.udp);
    push_str(&mut s, "  icmp ");
    push_decimal(&mut s, c.icmp);
    push_str(&mut s, "  other ");
    push_decimal(&mut s, c.other_l4);
    s
}

/// `"dns         : ok A  malformed B"`.
pub fn dns_line(c: &Counters) -> (s: String)
    ensures
        s@ == "dns         : ok "@ + decimal_spec(c.dns as nat) + "  malformed "@ + decimal_spec(c.dns_errors as nat),
{
    let mut s = String::new();
    push_str(&mut s, "dns         : ok ");
    push_decimal(&mut s, c.dns);
    push_str(&mut s, "  malformed ");
    push_decimal(&mut s, c.dns_errors);
    s
}

/// `"flows       : active A  evicted B  expired C"`.
pub fn flows_line(snap: &Snapshot) -> (s: String)
    ensures
        s@ == "flows       : active "@ + decimal_spec(snap.active_flows as nat) + "  evicted "@ + decimal_spec(
            snap.evicted_flows as nat,
        ) + "  expired "@ + decimal_spec(snap.expired_flows as nat),
{
    let mut s = String::new();
    push_str(&mut s, "flows       : active ");
    push_decimal(&mut s, snap.active_flows as u64);
    push_str(&mut s, "  evicted ");
    push_decimal(&mut s, snap.evicted_flows);
    push_str(&mut s, "  expired ");
    push_decimal(&mut s, snap.expired_flows);
    s
}

/// `"A:p <-> B:q"`: a flow's endpoints.
pub fn endpoints_text(key: &FlowKey) -> (s: String)
    ensures
        s@ == ip_text_spec(key.a.addr) + ":"@ + decimal_spec(key.a.port as nat) + " <-> "@ + ip_text_spec(key.b.addr)
            + ":"@ + decimal_spec(key.b.port as nat),
{
    let mut s = String::new();
    push_ip(&mut s, key.a.addr);
    push_str(&mut s, ":");
    push_decimal(&mut s, key.a.port as u64);
    push_str(&mut s, " <-> ");
    push_ip(&mut s, key.b.addr);
    push_str(&mut s, ":");
    push_decimal(&mut s, key.b.port as u64);
    s
}

/// The most alerts a report lists.
pub const MAX_PRINTED_ALERTS: usize = 10;

/// `"rules       : N active, M alert(s)"`.
pub fn rules_line(rule_count: usize, alerts: usize) -> (s: String)
    ensures
        s@ == "rules       : "@ + decimal_spec(rule_count as nat) + " active, "@ + decimal_spec(alerts as nat)
            + " alert(s)"@,
{
    let mut s = String::new();
    push_str(&mut s, "rules       : ");
    push_decimal(&mut s, rule_count as u64);
    push_str(&mut s, " active, ");
    push_decimal(&mut s, alerts as u64);
    push_str(&mut s, " alert(s)");
    s
}

/// The line after the listed alerts: how many were left out, if any.
pub fn more_alerts_line(alerts: usize) -> (s: Option<String>)
    ensures
        alerts <= MAX_PRINTED_ALERTS ==> s is None,
        alerts > MAX_PRINTED_ALERTS ==> (s matches Some(t) && t@ == "  ... "@ + decimal_spec(
            (alerts - MAX_PRINTED_ALERTS) as nat,
        ) + " more"@),
{
    if alerts <= MAX_PRINTED_ALERTS {
        return None;
    }
    let mut s = String::new();
    push_str(&mut s, "  ... ");
    push_decimal(&mut s, (alerts - MAX_PRINTED_ALERTS) as u64);
    push_str(&mut s, " more");
    Some(s)
}

} // verus!
