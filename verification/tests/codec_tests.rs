use chatwith::convo::{Conversation, Message, Role};
use chatwith::text::split_lines;
use chatwith::transcript::{encode_conversation, escape_quotes, normalize_quotes, parse_conversation};

fn conv(model: &str, turns: &[(Role, &str)]) -> Conversation {
    let mut c = Conversation::new(String::from(model));
    for (role, content) in turns {
        c.push_message(*role, String::from(*content));
    }
    c
}

fn save_transform(s: &str) -> String {
    let normed = normalize_quotes(s);
    escape_quotes(&normed)
}

#[test]
fn encode_emits_tagged_blocks() {
    let c = conv("m", &[(Role::User, "hi"), (Role::Assistant, "hello there")]);
    let text = encode_conversation(&c);
    assert_eq!(text, "<user>\nhi\n</user>\n<assistant>\nhello there\n</assistant>\n");
}

#[test]
fn round_trip_single_line_messages() {
    let c = conv(
        "m",
        &[
            (Role::User, "what is the answer"),
            (Role::Assistant, "forty-two"),
            (Role::User, "thanks"),
        ],
    );
    let text = encode_conversation(&c);
    let lines = split_lines(&text);
    let c2 = parse_conversation("m", &lines);
    assert_eq!(c2.model, "m");
    assert_eq!(c2.messages.len(), 3);
    for (a, b) in c.messages.iter().zip(c2.messages.iter()) {
        assert_eq!(a.role, b.role);
        assert_eq!(a.content, b.content);
    }
}

#[test]
fn round_trip_keeps_empty_content() {
    let c = conv("m", &[(Role::User, ""), (Role::Assistant, "ok")]);
    let text = encode_conversation(&c);
    let lines = split_lines(&text);
    let c2 = parse_conversation("m", &lines);
    assert_eq!(c2.messages.len(), 2);
    assert_eq!(c2.messages[0].content, "");
    assert_eq!(c2.messages[1].content, "ok");
}

#[test]
fn escape_transform_escapes_apostrophes() {
    assert_eq!(save_transform("it's"), "it\\\\'s");
}

#[test]
fn escape_transform_idempotent() {
    let once = save_transform("don't say 'hi'");
    let twice = save_transform(&once);
    assert_eq!(twice, once);
}

#[test]
fn escape_transform_idempotent_on_tricky_backslashes() {
    for s in ["\\'", "\\\\'", "\\\\\\'", "a\\b'c", "''", "\\n'"] {
        let once = save_transform(s);
        let twice = save_transform(&once);
        assert_eq!(twice, once, "escape accumulation on {:?}", s);
    }
}

#[test]
fn normalize_undoes_escape() {
    for s in ["it's", "''", "a\\b", "\\\\'", "plain"] {
        assert_eq!(normalize_quotes(&escape_quotes(s)), s);
    }
}

#[test]
fn adjacent_same_role_blocks_merge_on_load() {
    let lines: Vec<String> = ["<user>", "one", "</user>", "<user>", "two", "</user>"]
        .iter()
        .map(|s| String::from(*s))
        .collect();
    let c = parse_conversation("m", &lines);
    assert_eq!(c.messages.len(), 1);
    assert_eq!(c.messages[0].content, "onetwo");
}

#[test]
fn multi_line_content_folds_without_breaks() {
    let lines: Vec<String> = ["<assistant>", "line one", "line two", "</assistant>"]
        .iter()
        .map(|s| String::from(*s))
        .collect();
    let c = parse_conversation("m", &lines);
    assert_eq!(c.messages.len(), 1);
    assert_eq!(c.messages[0].role, Role::Assistant);
    assert_eq!(c.messages[0].content, "line oneline two");
}

#[test]
fn lines_outside_blocks_are_ignored() {
    let lines: Vec<String> = ["garbage", "<user>", "hi", "</user>", "more garbage"]
        .iter()
        .map(|s| String::from(*s))
        .collect();
    let c = parse_conversation("m", &lines);
    assert_eq!(c.messages.len(), 1);
    assert_eq!(c.messages[0].content, "hi");
}

#[test]
fn split_lines_matches_line_iteration() {
    assert_eq!(split_lines(""), Vec::<String>::new());
    assert_eq!(split_lines("a"), vec![String::from("a")]);
    assert_eq!(split_lines("a\n"), vec![String::from("a")]);
    assert_eq!(split_lines("a\nb"), vec![String::from("a"), String::from("b")]);
    assert_eq!(split_lines("\n"), vec![String::from("")]);
    assert_eq!(
        split_lines("a\n\nb\n"),
        vec![String::from("a"), String::from(""), String::from("b")]
    );
}

#[test]
fn message_json_is_naive() {
    let m = Message { role: Role::User, content: String::from("say \"hi\"") };
    assert_eq!(m.to_json_string(), "{\"role\":\"user\",\"content\":\"say \"hi\"\"}");
}

#[test]
fn conversation_json_request_body() {
    let c = conv("mymodel", &[(Role::User, "hi"), (Role::Assistant, "yo")]);
    assert_eq!(
        c.to_json_string(),
        "{\"model\":\"mymodel\",\"messages\":[{\"role\":\"user\",\"content\":\"hi\"},{\"role\":\"assistant\",\"content\":\"yo\"}],\"stream\":true}"
    );
}

#[test]
fn conversation_json_empty_messages_drops_bracket() {
    let c = Conversation::new(String::from("m"));
    assert_eq!(c.to_json_string(), "{\"model\":\"m\",\"messages\":],\"stream\":true}");
}
