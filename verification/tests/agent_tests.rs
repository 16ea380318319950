use ide_server::agent::{
    assistant_text, check_agent_known, dedup_strings, find_option_kind, join_markdown,
    permission_options, sort_agents_by_name, thread_list, tool_call_locations, AgentError, AssistantChunk,
    PermissionChoice, PermissionOptions, ThreadItem, ThreadTable, ToolCallState,
};
use ide_server::json::JsonValue;
use ide_server::protocol::{AgentInfo, ThreadList, ThreadSummary};

fn agent(id: &str, name: &str) -> AgentInfo {
    AgentInfo { id: id.to_string(), name: name.to_string() }
}

fn choice(id: &str, kind: u8) -> PermissionChoice<u8> {
    PermissionChoice { option_id: id.to_string(), name: format!("label {id}"), kind }
}

#[test]
fn agents_are_sorted_by_name_stably() {
    let sorted = sort_agents_by_name(vec![
        agent("c", "Beta"),
        agent("a1", "Agent"),
        agent("g", "Gamma"),
        agent("a2", "Agent"),
        agent("z", "Zed"),
        agent("b", "agent"),
    ]);
    let ids: Vec<&str> = sorted.iter().map(|a| a.id.as_str()).collect();
    assert_eq!(ids, vec!["a1", "a2", "c", "g", "z", "b"]);
    assert!(sort_agents_by_name(Vec::new()).is_empty());
}

#[test]
fn unknown_agents_are_refused_with_a_quoted_id() {
    let known = vec!["alpha".to_string(), "beta".to_string()];
    assert_eq!(check_agent_known("beta", &known), Ok(()));
    let e = check_agent_known("ga\"mma", &known).unwrap_err();
    assert_eq!(e, AgentError::UnknownAgent("ga\"mma".to_string()));
    assert_eq!(e.message(), "unknown agent \"ga\\\"mma\"");
}

#[test]
fn thread_table_opens_looks_up_and_closes() {
    let mut t: ThreadTable<u32, ()> = ThreadTable::new();
    t.open_thread("s1".to_string(), "alpha".to_string(), 11);
    assert_eq!(t.thread("s1"), Ok(&11));
    assert_eq!(t.get("s1").map(|o| o.agent_id.as_str()), Some("alpha"));
    let e = t.thread("s2").unwrap_err();
    assert_eq!(e.message(), "unknown thread s2");
    assert_eq!(t.close("s1"), Ok(()));
    assert_eq!(t.close("s1"), Err(AgentError::UnknownThread("s1".to_string())));
    assert!(t.thread("s1").is_err());
}

#[test]
fn updates_are_debounced_per_thread() {
    let mut t: ThreadTable<u32, &str> = ThreadTable::new();
    assert!(!t.should_schedule_update("s"));
    t.open_thread("s".to_string(), "a".to_string(), 1);
    assert!(t.should_schedule_update("s"));
    t.set_pending("s", "timer");
    assert!(!t.should_schedule_update("s"));
    assert_eq!(t.finish_update("s"), Some("timer"));
    assert!(t.should_schedule_update("s"));
    assert_eq!(t.finish_update("s"), None);
    assert_eq!(t.finish_update("missing"), None);
    t.set_pending("missing", "x");
    assert!(t.get("missing").is_none());
    t.forget("s");
    assert!(t.get("s").is_none());
}

#[test]
fn dropdown_options_list_allow_before_deny() {
    let flat = PermissionOptions::Flat(vec![choice("a", 1), choice("b", 2)]);
    let ids: Vec<&str> = permission_options(&flat).iter().map(|o| o.option_id.as_str()).collect();
    assert_eq!(ids, vec!["a", "b"]);
    let pairs = PermissionOptions::Dropdown(vec![(choice("y1", 1), choice("n1", 2)), (choice("y2", 3), choice("n2", 4))]);
    let ids: Vec<&str> = permission_options(&pairs).iter().map(|o| o.option_id.as_str()).collect();
    assert_eq!(ids, vec!["y1", "n1", "y2", "n2"]);
}

#[test]
fn authorizing_finds_the_waiting_option() {
    let items = vec![
        ThreadItem::Other,
        ThreadItem::ToolCall { id: "t1".to_string(), waiting: None },
        ThreadItem::ToolCall {
            id: "t2".to_string(),
            waiting: Some(PermissionOptions::Dropdown(vec![(choice("allow", 1), choice("deny", 2))])),
        },
        ThreadItem::ToolCall { id: "t2".to_string(), waiting: Some(PermissionOptions::Flat(vec![choice("later", 9)])) },
    ];
    assert_eq!(find_option_kind(&items, "t2", "deny"), Ok(2));
    assert_eq!(find_option_kind(&items, "t2", "later"), Ok(9));
    let e = find_option_kind(&items, "t1", "allow").unwrap_err();
    assert_eq!(e.message(), "tool call t1 is not waiting for option \"allow\"");
    assert!(find_option_kind(&items, "t9", "allow").is_err());
}

#[test]
fn assistant_chunks_split_into_reply_and_thoughts() {
    let (markdown, thoughts) = assistant_text(&vec![
        AssistantChunk::Thought("hmm ".to_string()),
        AssistantChunk::Message("Hello".to_string()),
        AssistantChunk::Thought("ok".to_string()),
        AssistantChunk::Message(", world".to_string()),
    ]);
    assert_eq!(markdown, "Hello, world");
    assert_eq!(thoughts, "hmm ok");
}

#[test]
fn tool_call_content_is_joined_by_blank_lines() {
    assert_eq!(join_markdown(&vec!["a".to_string(), "b".to_string(), "".to_string()]), "a\n\nb\n\n");
    assert_eq!(join_markdown(&vec!["only".to_string()]), "only");
    assert_eq!(join_markdown(&Vec::new()), "");
}

#[test]
fn tool_call_states_have_wire_names() {
    assert_eq!(ToolCallState::Pending.wire_name(), "pending");
    assert_eq!(ToolCallState::WaitingForConfirmation.wire_name(), "waiting_for_confirmation");
    assert_eq!(ToolCallState::InProgress.wire_name(), "in_progress");
    assert_eq!(ToolCallState::Completed.wire_name(), "completed");
    assert_eq!(ToolCallState::Failed.wire_name(), "failed");
    assert_eq!(ToolCallState::Rejected.wire_name(), "rejected");
    assert_eq!(ToolCallState::Canceled.wire_name(), "canceled");
}

#[test]
fn dedup_drops_repeated_neighbours_only() {
    let v: Vec<String> = ["a", "a", "b", "a", "a", "c"].iter().map(|s| s.to_string()).collect();
    assert_eq!(dedup_strings(v), vec!["a", "b", "a", "c"]);
    assert!(dedup_strings(Vec::new()).is_empty());
}

#[test]
fn locations_join_reported_and_mined_paths() {
    let input = JsonValue::Object(vec![
        ("file_path".to_string(), JsonValue::Str("src/a.rs".to_string())),
        ("other".to_string(), JsonValue::Str("src/b.rs".to_string())),
    ]);
    let locations = tool_call_locations(vec!["src/x.rs".to_string(), "src/a.rs".to_string()], Some(&input));
    assert_eq!(locations, vec!["src/x.rs", "src/a.rs", "src/b.rs"]);
    assert_eq!(tool_call_locations(vec!["p".to_string(), "p".to_string()], None), vec!["p"]);
}

#[test]
fn thread_list_without_history_is_empty() {
    let r = thread_list("a".to_string(), None);
    assert_eq!(
        r,
        ThreadList { agent_id: "a".to_string(), supports_history: false, supports_delete: false, threads: vec![] }
    );
}

#[test]
fn thread_list_with_history_keeps_the_summaries_in_order() {
    let summary = |id: &str| ThreadSummary {
        session_id: id.to_string(),
        title: None,
        updated_at: Some("2024-01-01T00:00:00Z".to_string()),
        work_dirs: vec!["/w".to_string()],
    };
    let r = thread_list("b".to_string(), Some((true, vec![summary("s2"), summary("s1")])));
    assert_eq!(r.agent_id, "b");
    assert!(r.supports_history && r.supports_delete);
    assert_eq!(r.threads, vec![summary("s2"), summary("s1")]);
    let r = thread_list("c".to_string(), Some((false, vec![])));
    assert!(r.supports_history && !r.supports_delete && r.threads.is_empty());
}
