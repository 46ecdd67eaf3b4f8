use claippy::command::{
    context_display, handle_add_workspace_contexts, handle_remove_workspace_contexts, join_from,
    CliCmd, CmdOutput,
};
use claippy::model::Conversation;
use claippy::query::{extract_chunk_text, system_prompt};

fn strings(items: &[&str]) -> Vec<String> {
    items.iter().map(|s| s.to_string()).collect()
}

#[test]
fn no_arguments_defaults_to_the_interactive_session() {
    assert_eq!(CliCmd::parse_args(vec![]), Ok(CliCmd::Repl));
}

#[test]
fn query_collects_the_rest_separated_by_spaces() {
    let cmd = CliCmd::parse_args(strings(&["query", "what", "is", "this"])).unwrap();
    assert_eq!(cmd, CliCmd::Query { query: "what is this".to_string() });
    let cmd = CliCmd::parse_args(strings(&["q", "short"])).unwrap();
    assert_eq!(cmd, CliCmd::Query { query: "short".to_string() });
}

#[test]
fn new_builds_an_identifier_from_the_descriptor() {
    let cmd = CliCmd::parse_args(strings(&["new", "my", "topic"])).unwrap();
    match cmd {
        CliCmd::NewConversation { conversation_id } => {
            assert!(conversation_id.starts_with("my-topic-"));
        }
        other => panic!("expected NewConversation, got {:?}", other),
    }
}

#[test]
fn add_and_remove_collect_their_paths() {
    assert_eq!(
        CliCmd::parse_args(strings(&["add", "a.rs", "b.rs"])).unwrap(),
        CliCmd::AddWorkspaceContext { paths: strings(&["a.rs", "b.rs"]) }
    );
    assert_eq!(
        CliCmd::parse_args(strings(&["a", "c.rs"])).unwrap(),
        CliCmd::AddWorkspaceContext { paths: strings(&["c.rs"]) }
    );
    assert_eq!(
        CliCmd::parse_args(strings(&["remove", "a.rs"])).unwrap(),
        CliCmd::RemoveWorkspaceContext { paths: strings(&["a.rs"]) }
    );
    assert_eq!(
        CliCmd::parse_args(strings(&["rm"])).unwrap(),
        CliCmd::RemoveWorkspaceContext { paths: vec![] }
    );
}

#[test]
fn bare_commands_parse_to_their_variants() {
    assert_eq!(CliCmd::parse_args(strings(&["clear"])), Ok(CliCmd::Clear));
    assert_eq!(CliCmd::parse_args(strings(&["ls"])), Ok(CliCmd::ListWorkspaceContext));
    assert_eq!(CliCmd::parse_args(strings(&["repl"])), Ok(CliCmd::Repl));
    assert_eq!(CliCmd::parse_args(strings(&["history"])), Ok(CliCmd::History));
}

#[test]
fn unknown_commands_are_rejected_with_their_name() {
    assert_eq!(
        CliCmd::parse_args(strings(&["frobnicate", "x"])),
        Err("Unknown command: frobnicate".to_string())
    );
}

#[test]
fn join_from_inserts_the_separator_between_entries() {
    let parts = strings(&["a", "b", "c"]);
    assert_eq!(join_from(&parts, 0, ", "), "a, b, c");
    assert_eq!(join_from(&parts, 1, "-"), "b-c");
    assert_eq!(join_from(&parts, 3, "-"), "");
}

#[test]
fn handle_add_reports_and_records_the_paths() {
    let mut c = Conversation::empty("t");
    let out = handle_add_workspace_contexts(&mut c, strings(&["x.rs", "y.rs"])).unwrap();
    assert_eq!(out, CmdOutput::Message("Added context:\nx.rs\ny.rs".to_string()));
    assert_eq!(c.unseen_context.len(), 2);
}

#[test]
fn handle_remove_reports_and_deletes_the_paths() {
    let mut c = Conversation::empty("t");
    handle_add_workspace_contexts(&mut c, strings(&["x.rs", "y.rs"])).unwrap();
    let out = handle_remove_workspace_contexts(&mut c, strings(&["x.rs"])).unwrap();
    assert_eq!(out, CmdOutput::Message("Removed context:\nx.rs".to_string()));
    assert_eq!(c.unseen_context.len(), 1);
}

#[test]
fn context_display_lists_seen_before_unseen() {
    let mut c = Conversation::empty("t");
    c.add_workspace_contexts(strings(&["a.rs"])).unwrap();
    c.add_user_message("q".to_string(), strings(&["BODY"])).unwrap();
    c.add_workspace_contexts(strings(&["b.rs"])).unwrap();
    assert_eq!(context_display(&c), "Current context:\na.rs\nb.rs");
}

#[test]
fn only_content_block_deltas_carry_text() {
    assert_eq!(
        extract_chunk_text("content_block_delta", Some("Hello".to_string())),
        Some("Hello".to_string())
    );
    assert_eq!(extract_chunk_text("content_block_delta", None), None);
    assert_eq!(extract_chunk_text("message_stop", Some("x".to_string())), None);
    assert_eq!(extract_chunk_text("content_block_start", Some("".to_string())), None);
    assert_eq!(
        extract_chunk_text("content_block_delta", Some("".to_string())),
        Some("".to_string())
    );
}

#[test]
fn system_prompt_describes_the_artifact_convention() {
    let p = system_prompt();
    assert!(p.contains("ClaippyArtifact"));
    assert!(p.contains("ClaippyContext"));
}
