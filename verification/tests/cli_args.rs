use netcore_engine::cli::{parse, ArgError, Command, RulesChoice, DEFAULT_TOP};
use netcore_engine::synth::Scenario;

fn run(line: &str) -> Result<Command, ArgError> {
    parse(line.split_whitespace().map(String::from).collect())
}

#[test]
fn empty_is_help() {
    assert_eq!(run(""), Ok(Command::Help));
}

#[test]
fn gen_with_options() {
    assert_eq!(
        run("gen portscan out.pcap --packets 500 --seed 3"),
        Ok(Command::Gen { scenario: Scenario::PortScan, out: "out.pcap".to_string(), packets: 500, seed: 3 })
    );
}

#[test]
fn replay_defaults() {
    assert_eq!(
        run("replay a.pcap"),
        Ok(Command::Replay { file: "a.pcap".to_string(), top: DEFAULT_TOP, rules: RulesChoice::Builtin })
    );
}

#[test]
fn replay_rule_options() {
    let Ok(Command::Replay { rules, .. }) = run("replay a.pcap --rules r.yaml") else { panic!() };
    assert_eq!(rules, RulesChoice::File("r.yaml".to_string()));
    let Ok(Command::Replay { rules, .. }) = run("replay a.pcap --no-rules") else { panic!() };
    assert_eq!(rules, RulesChoice::Off);
    assert!(run("replay a.pcap --rules").is_err());
}

#[test]
fn rejects_bad_number() {
    assert!(run("replay a.pcap --top ten").is_err());
}

#[test]
fn rejects_unknown_scenario() {
    assert!(run("gen ddos out.pcap").is_err());
}

#[test]
fn error_messages_name_the_problem() {
    assert_eq!(run("frobnicate"), Err(ArgError("unknown command 'frobnicate'".to_string())));
    assert_eq!(run("gen"), Err(ArgError("gen: missing scenario".to_string())));
    assert_eq!(run("gen flood"), Err(ArgError("gen: missing output path".to_string())));
    assert_eq!(run("gen ddos x"), Err(ArgError("gen: unknown scenario 'ddos'".to_string())));
    assert_eq!(run("gen flood x --seed"), Err(ArgError("--seed: missing value".to_string())));
    assert_eq!(run("gen flood x --fast"), Err(ArgError("gen: unknown option '--fast'".to_string())));
    assert_eq!(run("replay"), Err(ArgError("replay: missing pcap path".to_string())));
    assert_eq!(run("replay a --top ten"), Err(ArgError("--top: 'ten' is not a valid number".to_string())));
    assert_eq!(run("replay a --top 1 --x"), Err(ArgError("replay: unknown option '--x'".to_string())));
}

#[test]
fn numbers_follow_the_unsigned_syntax() {
    assert!(matches!(run("gen flood x --seed +7"), Ok(Command::Gen { seed: 7, .. })));
    assert!(matches!(run("gen flood x --seed 18446744073709551615"), Ok(Command::Gen { seed: u64::MAX, .. })));
    assert!(run("gen flood x --seed 18446744073709551616").is_err());
    assert!(run("gen flood x --seed -1").is_err());
    assert!(run("gen flood x --seed +").is_err());
    assert!(matches!(run("help"), Ok(Command::Help)));
    assert!(matches!(run("--help"), Ok(Command::Help)));
}
