use chatwith::store::{
    entry, entry_text, parse_config, remove, serialize_config, Entry, LineFault, StoreError,
    UpsertOutcome,
};

fn line(s: &str) -> String {
    String::from(s)
}

#[test]
fn upsert_adds_then_updates_single_entry() {
    let mut config: Vec<Entry> = Vec::new();
    let args = vec![line("foo"), line("modelA")];
    let r = entry(&args, &mut config);
    assert!(matches!(r, Ok(UpsertOutcome::Added)));
    assert_eq!(config.len(), 1);
    assert_eq!(config[0].name, "foo");
    assert_eq!(config[0].model, "modelA");
    assert!(config[0].options.is_empty());

    let args2 = vec![line("foo"), line("modelB"), line("opt1")];
    let r2 = entry(&args2, &mut config);
    assert!(matches!(r2, Ok(UpsertOutcome::Updated { count: 1 })));
    assert_eq!(config.len(), 1);
    assert_eq!(config[0].model, "modelB");
    assert_eq!(config[0].options, vec![line("opt1")]);
}

#[test]
fn upsert_updates_all_duplicates() {
    let lines = vec![line("foo m1"), line("bar m2"), line("foo m3")];
    let mut config = parse_config(&lines).unwrap();
    let args = vec![line("foo"), line("m9")];
    let r = entry(&args, &mut config);
    assert!(matches!(r, Ok(UpsertOutcome::Updated { count: 2 })));
    assert_eq!(config[0].model, "m9");
    assert_eq!(config[1].model, "m2");
    assert_eq!(config[2].model, "m9");
}

#[test]
fn upsert_incomplete_fails() {
    let mut config: Vec<Entry> = Vec::new();
    let r = entry(&vec![line("justname")], &mut config);
    assert!(matches!(r, Err(StoreError::IncompleteEntry)));
    assert!(config.is_empty());
}

#[test]
fn reserved_name_rejected() {
    let lines = vec![line("list modelA")];
    let r = parse_config(&lines);
    assert!(matches!(
        r,
        Err(StoreError::InvalidConfigLine { line: 0, fault: LineFault::ReservedName })
    ));
}

#[test]
fn every_reserved_command_rejected() {
    for name in ["help", "entry", "remove", "show", "list"] {
        let lines = vec![format!("{} somemodel", name)];
        let r = parse_config(&lines);
        assert!(matches!(
            r,
            Err(StoreError::InvalidConfigLine { line: 0, fault: LineFault::ReservedName })
        ));
    }
}

#[test]
fn missing_model_rejected() {
    let lines = vec![line("ok modelA"), line("lonely")];
    let r = parse_config(&lines);
    assert!(matches!(
        r,
        Err(StoreError::InvalidConfigLine { line: 1, fault: LineFault::MissingModel })
    ));
}

#[test]
fn parse_config_skips_blank_lines_and_splits_tokens() {
    let lines = vec![line(""), line("  a  m1   o1  o2 "), line("   "), line("b m2")];
    let config = parse_config(&lines).unwrap();
    assert_eq!(config.len(), 2);
    assert_eq!(config[0].name, "a");
    assert_eq!(config[0].model, "m1");
    assert_eq!(config[0].options, vec![line("o1"), line("o2")]);
    assert_eq!(config[1].name, "b");
    assert_eq!(config[1].model, "m2");
    assert!(config[1].options.is_empty());
}

#[test]
fn remove_absent_name_changes_nothing() {
    let lines = vec![line("a m1"), line("b m2")];
    let config = parse_config(&lines).unwrap();
    let (kept, removed) = remove(&vec![line("zzz")], &config);
    assert_eq!(removed, 0);
    assert_eq!(kept.len(), 2);
    assert_eq!(kept[0].name, "a");
    assert_eq!(kept[1].name, "b");
}

#[test]
fn remove_drops_all_matches() {
    let lines = vec![line("a m1"), line("b m2"), line("a m3")];
    let config = parse_config(&lines).unwrap();
    let (kept, removed) = remove(&vec![line("a")], &config);
    assert_eq!(removed, 2);
    assert_eq!(kept.len(), 1);
    assert_eq!(kept[0].name, "b");
}

#[test]
fn serialize_writes_one_line_per_entry() {
    let lines = vec![line("a m1 o1"), line("b m2")];
    let config = parse_config(&lines).unwrap();
    let text = serialize_config(&config);
    assert_eq!(text, "a m1 o1\nb m2 \n");
}

#[test]
fn entry_text_matches_display_form() {
    let e = Entry { name: line("a"), model: line("m"), options: vec![line("x"), line("y")] };
    assert_eq!(entry_text(&e), "a m x y");
}

#[test]
fn serialized_config_parses_back() {
    let lines = vec![line("a m1 o1 o2"), line("b m2")];
    let config = parse_config(&lines).unwrap();
    let text = serialize_config(&config);
    let lines2 = chatwith::text::split_lines(&text);
    let config2 = parse_config(&lines2).unwrap();
    assert_eq!(config2.len(), 2);
    assert_eq!(config2[0].name, "a");
    assert_eq!(config2[0].options, vec![line("o1"), line("o2")]);
    assert_eq!(config2[1].name, "b");
}
