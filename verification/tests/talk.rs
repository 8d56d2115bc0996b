use orangu::coordinator::{
    coordinator_models, coordinator_roles, coordinator_url, parse_coordinator_body,
    parse_coordinator_roles,
};
use orangu::json::Json;
use orangu::llm::{
    is_context_too_long, is_slot_out_of_range, read_arguments, write_arguments, ArgumentsError,
    ChatMessage, StreamMetrics, StreamPromptProgress, ToolCall, ToolCallFunction,
    CONTEXT_TOO_LONG_MARKER, SLOT_OUT_OF_RANGE_MARKER, TRUNCATED_NOTICE,
};
use orangu::mcp::{
    approval_default, enabled_default, inventory, rewrites, show, Action, Answer, McpConfiguration,
    McpView, Outcome, Replacement, Rewrite,
};

fn json(text: &str) -> Json {
    Json::parse(text.as_bytes()).unwrap()
}

fn words(list: &[&str]) -> Vec<String> {
    list.iter().map(|s| s.to_string()).collect()
}

#[test]
fn the_servers_context_refusal_is_the_one_clients_match() {
    let refusal = format!(
        "prompt (41843 tokens) plus one generated token needs 41844 {CONTEXT_TOO_LONG_MARKER}, \
         more than the 16384 this server has room for on its device"
    );
    assert!(is_context_too_long(&refusal));
    // Wrapped in the client's own error context, which is how a caller actually meets it.
    assert!(is_context_too_long(&format!(
        "chat completion failed (status 400 Bad Request): {refusal}"
    )));
    // And not every failure: a caller that shortened its prompt on any error would shorten it on
    // a broken server too.
    assert!(!is_context_too_long(
        "chat completion failed (status 500 Internal Server Error): model not loaded"
    ));
}

#[test]
fn the_servers_slot_refusal_is_the_one_clients_match() {
    let refusal = format!("id_slot 1 {SLOT_OUT_OF_RANGE_MARKER} 1 slots)");
    assert!(is_slot_out_of_range(&refusal));
    assert!(is_slot_out_of_range(&format!(
        "chat completion failed (status 400 Bad Request): {refusal}"
    )));
    assert!(!is_slot_out_of_range(
        "chat completion failed (status 400 Bad Request): prompt is too long"
    ));
}

#[test]
fn parse_coordinator_body_reads_and_dedupes_models() {
    let body = json(
        "{\"orangu_coordinator\": true, \"version\": \"0.11.0\", \"models\": \
         {\"all\": \"org/gemma\", \"code\": \"org/gemma\", \"explorer\": \"org/qwen\"}}",
    );
    let mut models = parse_coordinator_body(&body).expect("is a coordinator");
    models.sort_unstable();
    assert_eq!(models, vec!["org/gemma".to_string(), "org/qwen".to_string()]);
}

#[test]
fn roles_are_read_only_from_a_coordinators_own_answer() {
    let body = json(
        "{\"orangu_coordinator\": true, \
         \"models\": {\"all\": \"org/chat\", \"embeddings\": \"org/chat\"}, \
         \"roles\": [\"all\", \"code\", \"embeddings\"]}",
    );
    assert_eq!(
        parse_coordinator_roles(&body),
        Some(vec!["all".to_string(), "code".to_string(), "embeddings".to_string()])
    );

    // An older coordinator names no roles: `None`, so the caller falls back to establishing the
    // capability rather than concluding it has none.
    let older = json("{\"orangu_coordinator\": true, \"models\": {\"all\": \"org/chat\"}}");
    assert_eq!(parse_coordinator_roles(&older), None);

    // And a plain server's body is never read as a coordinator's.
    let plain = json("{\"roles\": [\"all\"]}");
    assert_eq!(parse_coordinator_roles(&plain), None);
}

#[test]
fn parse_coordinator_body_rejects_non_coordinator_responses() {
    assert_eq!(parse_coordinator_body(&json("{}")), None);
    assert_eq!(parse_coordinator_body(&json("{\"status\": \"ok\"}")), None);
    assert_eq!(parse_coordinator_body(&json("{\"orangu_coordinator\": false}")), None);
}

#[test]
fn a_failed_or_broken_reply_is_no_coordinators() {
    let body = b"{\"orangu_coordinator\": true, \"models\": {\"a\": \"m\", \"b\": 3}, \
                  \"roles\": [7, \"all\"]}";
    assert_eq!(coordinator_models(true, body), Some(words(&["m"])));
    assert_eq!(coordinator_models(false, body), None);
    assert_eq!(coordinator_models(true, b"nonsense"), None);
    assert_eq!(coordinator_roles(true, body), Some(words(&["all"])));
    assert_eq!(coordinator_roles(false, body), None);
    assert_eq!(coordinator_models(true, b"{\"orangu_coordinator\": true}"), Some(vec![]));
    assert_eq!(
        coordinator_roles(true, b"{\"orangu_coordinator\": true, \"roles\": []}"),
        None
    );
    assert_eq!(coordinator_url("http://h:1"), "http://h:1/v1/coordinator");
}

#[test]
fn a_truncated_answer_stays_truncated() {
    let mut metrics = StreamMetrics::default();
    assert!(metrics.is_empty());
    metrics.merge(StreamMetrics { truncated: true, ..StreamMetrics::default() });
    assert!(!metrics.is_empty());
    let progress = StreamPromptProgress { total: 9, cache: 1, processed: 4, time_ms: 7 };
    metrics.merge(StreamMetrics {
        prompt_progress: Some(progress),
        prompt_per_second: Some(2.5f64.to_bits()),
        ..StreamMetrics::default()
    });
    metrics.merge(StreamMetrics {
        predicted_per_second: Some(3.5f64.to_bits()),
        ..StreamMetrics::default()
    });
    assert!(metrics.truncated);
    assert_eq!(metrics.prompt_progress, Some(progress));
    assert_eq!(metrics.prompt_per_second, Some(2.5f64.to_bits()));
    assert_eq!(metrics.predicted_per_second, Some(3.5f64.to_bits()));
    assert_eq!(StreamPromptProgress::default().total, 0);
    assert!(TRUNCATED_NOTICE.starts_with("answer cut off"));
}

#[test]
fn messages_carry_their_role() {
    assert_eq!(ChatMessage::system("s").role, "system");
    assert_eq!(ChatMessage::user("u").role, "user");
    assert_eq!(ChatMessage::user("u").content, "u");
    let said = ChatMessage::assistant("a");
    assert_eq!(said.role, "assistant");
    assert!(said.tool_calls.is_none() && said.tool_call_id.is_none());
    let call = ToolCall {
        id: "1".to_string(),
        tool_type: "function".to_string(),
        function: ToolCallFunction { name: "f".to_string(), arguments: vec![] },
    };
    let calls = ChatMessage::assistant_tool_calls(vec![call]);
    assert_eq!(calls.role, "assistant");
    assert_eq!(calls.content, "");
    assert_eq!(calls.tool_calls.unwrap()[0].id, "1");
    let result = ChatMessage::tool_result("1", "done");
    assert_eq!(result.role, "tool");
    assert_eq!(result.tool_call_id.as_deref(), Some("1"));
    assert_eq!(result.content, "done");
}

fn value(text: &str) -> serde_json::Value {
    serde_json::from_str(text).unwrap()
}

#[test]
fn arguments_come_as_an_object_or_as_its_text() {
    let read = read_arguments(value("{\"b\": 2, \"a\": \"x\"}")).unwrap();
    assert_eq!(read[0].0, "a");
    assert_eq!(read[1].1, value("2"));
    let read = read_arguments(value("\"{\\\"a\\\": [1]}\"")).unwrap();
    assert_eq!(read.len(), 1);
    assert_eq!(read[0].1, value("[1]"));
    assert!(read_arguments(value("null")).unwrap().is_empty());
    assert!(matches!(read_arguments(value("\"[1]\"")), Err(ArgumentsError::NotAnObject)));
    assert!(matches!(read_arguments(value("\"{\"")), Err(ArgumentsError::NotAnObject)));
    assert!(matches!(read_arguments(value("3")), Err(ArgumentsError::Unsupported)));
    assert!(matches!(read_arguments(value("[]")), Err(ArgumentsError::Unsupported)));
}

#[test]
fn written_arguments_are_read_back() {
    let arguments = vec![
        ("path".to_string(), value("\"a \\\"b\\\"\"")),
        ("n".to_string(), value("[1, -3, {\"k\": null}]")),
    ];
    let text = write_arguments(arguments);
    assert_eq!(text, "{\"n\":[1,-3,{\"k\":null}],\"path\":\"a \\\"b\\\"\"}");
    let back = read_arguments(serde_json::Value::String(text)).unwrap();
    assert_eq!(back[0], ("n".to_string(), value("[1, -3, {\"k\": null}]")));
    assert_eq!(back[1], ("path".to_string(), value("\"a \\\"b\\\"\"")));
}

#[test]
fn an_argument_can_have_any_name() {
    let name = "$serde_json::private::RawValue".to_string();
    let text = write_arguments(vec![(name.clone(), value("\"1\""))]);
    let back = read_arguments(serde_json::Value::String(text)).unwrap();
    assert_eq!(back, vec![(name, value("\"1\""))]);
}

fn server(name: &str, endpoint: &str) -> McpConfiguration {
    McpConfiguration {
        name: name.to_string(),
        endpoint: endpoint.to_string(),
        enabled: true,
        approval_mode: "ask".to_string(),
    }
}

fn sent(name: &str, endpoint: &str) -> McpView {
    McpView {
        name: name.to_string(),
        endpoint: endpoint.to_string(),
        enabled: true,
        approval_mode: "ask".to_string(),
    }
}

#[test]
fn the_inventory_shows_what_is_configured() {
    assert!(enabled_default());
    assert!(!approval_default().is_empty());
    let configured = vec![server("a", "http://a"), server("b", "http://b")];
    let list = inventory(&configured, &Some("f.conf".to_string()), true);
    assert_eq!(list.servers, vec![sent("a", "http://a"), sent("b", "http://b")]);
    assert_eq!(list.path.as_deref(), Some("f.conf"));
    assert!(list.restart_required);
    assert_eq!(show(&configured, "b"), Some(sent("b", "http://b")));
    assert_eq!(show(&configured, "c"), None);
}

#[test]
fn only_what_changed_is_rewritten() {
    let current = vec![server("a", "http://a"), server("b", "http://b"), server("c", "http://c")];
    let wanted = vec![server("b", "http://b"), server("a", "http://z"), server("d", "http://d")];
    let list = rewrites(&current, &wanted);
    let names: Vec<&str> = list.iter().map(|r| r.name.as_str()).collect();
    assert!(names.contains(&"a") && names.contains(&"c") && names.contains(&"d"));
    assert!(!names.contains(&"b"));
    assert!(list.contains(&Rewrite { name: "c".to_string(), config: None }));
    assert!(list.contains(&Rewrite {
        name: "d".to_string(),
        config: Some(server("d", "http://d")),
    }));
}

#[test]
fn a_replacement_validates_before_it_writes() {
    let file = Some("f.conf".to_string());
    let (mut r, first) = Replacement::begin(&file, &vec![sent("a", "http://a")]);
    assert_eq!(first, Action::Validate(0));
    assert_eq!(r.advance(Outcome::Passed), Action::Load);
    assert_eq!(r.advance(Outcome::Loaded(vec![server("b", "http://b")])), Action::Write(0));
    assert_eq!(r.advance(Outcome::Passed), Action::Write(1));
    assert_eq!(r.advance(Outcome::Passed), Action::Reload);
    let held = vec![server("a", "http://a")];
    match r.advance(Outcome::Loaded(held.clone())) {
        Action::Answer(answer) => {
            assert_eq!(answer.status(), 200);
            assert_eq!(answer, Answer::Saved(held.clone(), inventory(&held, &file, true)));
        }
        other => panic!("{other:?}"),
    }
}

#[test]
fn a_refused_replacement_writes_nothing() {
    let (_, first) = Replacement::begin(&None, &vec![]);
    assert_eq!(first, Action::Answer(Answer::NoFile));
    assert_eq!(Answer::NoFile.status(), 501);
    let file = Some("f.conf".to_string());
    let (mut r, _) = Replacement::begin(&file, &vec![sent("a", "bad")]);
    assert_eq!(
        r.advance(Outcome::Refused("bad endpoint".to_string())),
        Action::Answer(Answer::BadRequest("bad endpoint".to_string()))
    );
    assert!(r.rewrites.is_empty());
    let twins = vec![sent("a", "http://a"), sent("a", "http://b")];
    let (mut r, mut action) = Replacement::begin(&file, &twins);
    while let Action::Validate(_) = action {
        action = r.advance(Outcome::Passed);
    }
    match action {
        Action::Answer(Answer::BadRequest(why)) => assert!(why.contains("'a'"), "{why}"),
        other => panic!("{other:?}"),
    }
    let (mut r, _) = Replacement::begin(&file, &vec![sent("a", "http://a")]);
    r.advance(Outcome::Passed);
    assert_eq!(
        r.advance(Outcome::Refused("unreadable".to_string())),
        Action::Answer(Answer::Failed("unreadable".to_string()))
    );
    assert_eq!(Answer::Failed(String::new()).status(), 500);
    assert_eq!(Answer::BadRequest(String::new()).status(), 400);
}
