use chatwith::store::parse_config;
use chatwith::{find_entry, plan_chat, Query};

fn args(parts: &[&str]) -> Vec<String> {
    parts.iter().map(|s| String::from(*s)).collect()
}

#[test]
fn build_defaults_to_help() {
    let q = Query::build(args(&["prog"]));
    assert_eq!(q.command, "help");
    assert!(q.args.is_empty());
    let q2 = Query::build(args(&[]));
    assert_eq!(q2.command, "help");
}

#[test]
fn build_lowercases_command_and_keeps_args() {
    let q = Query::build(args(&["prog", "LiSt"]));
    assert_eq!(q.command, "list");
    assert!(q.args.is_empty());
    let q2 = Query::build(args(&["prog", "ENTRY", "Foo", "Bar"]));
    assert_eq!(q2.command, "entry");
    assert_eq!(q2.args, args(&["Foo", "Bar"]));
}

#[test]
fn plan_chat_reads_reset_flag() {
    let p = plan_chat(&args(&["-n", "hello", "world"]));
    assert!(p.reset);
    assert_eq!(p.prompt, "hello world");
    let p2 = plan_chat(&args(&["hello", "world"]));
    assert!(!p2.reset);
    assert_eq!(p2.prompt, "hello world");
    let p3 = plan_chat(&args(&[]));
    assert!(!p3.reset);
    assert_eq!(p3.prompt, "");
}

#[test]
fn find_entry_returns_first_match() {
    let lines = args(&["a m1", "b m2", "a m3"]);
    let config = parse_config(&lines).unwrap();
    assert_eq!(find_entry(&config, "a"), Some(0));
    assert_eq!(find_entry(&config, "b"), Some(1));
    assert_eq!(find_entry(&config, "zzz"), None);
}
