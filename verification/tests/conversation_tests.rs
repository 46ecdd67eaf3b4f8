use claippy::model::{Conversation, CoreError, WorkspaceContext};
use claippy::segmenter::{MessageParts, Segmenter};

fn fresh() -> Conversation {
    Conversation::empty("test-conversation")
}

fn strings(items: &[&str]) -> Vec<String> {
    items.iter().map(|s| s.to_string()).collect()
}

fn in_both(c: &Conversation) -> bool {
    c.seen_context
        .iter()
        .any(|s| c.unseen_context.iter().any(|u| s == u))
}

#[test]
fn empty_conversation_has_nothing() {
    let c = fresh();
    assert_eq!(c.id, "test-conversation");
    assert!(c.unseen_context.is_empty());
    assert!(c.seen_context.is_empty());
    assert!(c.messages.is_empty());
}

#[test]
fn create_id_opens_with_descriptor_and_dash() {
    let id = Conversation::create_id("notes".to_string());
    assert!(id.starts_with("notes-"));
    assert!(id.len() > "notes-".len());
}

#[test]
fn add_classifies_urls_and_files() {
    let mut c = fresh();
    c.add_workspace_contexts(strings(&["https://example.com/a", "http://example.com/b", "src/lib.rs"]))
        .unwrap();
    assert_eq!(
        c.unseen_context,
        vec![
            WorkspaceContext::Url("https://example.com/a".to_string()),
            WorkspaceContext::Url("http://example.com/b".to_string()),
            WorkspaceContext::File("src/lib.rs".to_string()),
        ]
    );
}

#[test]
fn adding_the_same_reference_twice_changes_nothing() {
    let mut c = fresh();
    c.add_workspace_contexts(strings(&["src/main.rs"])).unwrap();
    let once = c.unseen_context.clone();
    c.add_workspace_contexts(strings(&["src/main.rs"])).unwrap();
    assert_eq!(c.unseen_context, once);
    assert!(c.seen_context.is_empty());
}

#[test]
fn adding_a_seen_reference_is_a_no_op() {
    let mut c = fresh();
    c.add_workspace_contexts(strings(&["a.txt"])).unwrap();
    c.add_user_message("hi".to_string(), strings(&["BODY"])).unwrap();
    assert!(c.unseen_context.is_empty());
    c.add_workspace_contexts(strings(&["a.txt"])).unwrap();
    assert!(c.unseen_context.is_empty());
    assert_eq!(c.seen_context, vec![WorkspaceContext::File("a.txt".to_string())]);
}

#[test]
fn seen_and_unseen_stay_disjoint() {
    let mut c = fresh();
    c.add_workspace_contexts(strings(&["a", "b"])).unwrap();
    assert!(!in_both(&c));
    c.add_user_message("q".to_string(), strings(&["A", "B"])).unwrap();
    assert!(!in_both(&c));
    c.add_workspace_contexts(strings(&["a", "c"])).unwrap();
    assert!(!in_both(&c));
    c.clear().unwrap();
    assert!(!in_both(&c));
}

#[test]
fn remove_deletes_from_either_set() {
    let mut c = fresh();
    c.add_workspace_contexts(strings(&["a", "b"])).unwrap();
    c.add_user_message("q".to_string(), strings(&["A", "B"])).unwrap();
    c.add_workspace_contexts(strings(&["c"])).unwrap();
    c.remove_workspace_contexts(&strings(&["a", "c", "missing"])).unwrap();
    assert_eq!(c.seen_context, vec![WorkspaceContext::File("b".to_string())]);
    assert!(c.unseen_context.is_empty());
}

#[test]
fn user_message_wraps_pending_context_in_envelopes() {
    let mut c = fresh();
    c.add_workspace_contexts(strings(&["a.txt"])).unwrap();
    c.add_user_message("what is this?".to_string(), strings(&["CONTENTS"])).unwrap();
    let flat = c.as_messages();
    assert_eq!(flat.len(), 1);
    assert_eq!(flat[0].role, "user");
    assert_eq!(
        flat[0].content,
        "<ClaippyContext src=\"a.txt\">CONTENTS</ClaippyContext>\nwhat is this?"
    );
    assert!(c.unseen_context.is_empty());
    assert_eq!(c.seen_context, vec![WorkspaceContext::File("a.txt".to_string())]);
}

#[test]
fn user_message_without_context_is_the_literal_input() {
    let mut c = fresh();
    c.add_user_message("plain question".to_string(), vec![]).unwrap();
    let flat = c.as_messages();
    assert_eq!(flat[0].content, "plain question");
}

#[test]
fn assistant_message_is_recorded_verbatim_and_reflattened() {
    let mut c = fresh();
    c.add_assistant_message(vec![
        MessageParts::Markdown("see ".to_string()),
        MessageParts::Artifact {
            identifier: "snippet".to_string(),
            language: Some("rust".to_string()),
            content: "let a = 1;".to_string(),
        },
    ]);
    let flat = c.as_messages();
    assert_eq!(flat.len(), 1);
    assert_eq!(flat[0].role, "assistant");
    assert_eq!(
        flat[0].content,
        "see <ClaippyArtifact identifier=\"snippet\" language=\"rust\">let a = 1;</ClaippyArtifact>"
    );
}

#[test]
fn partial_stream_failure_still_records_the_turn() {
    let mut c = fresh();
    let mut seg = Segmenter::new();
    seg.push_chunk("Hello ");
    seg.push_chunk("World");
    let r = c.complete_assistant_turn(seg, Some("stream interrupted".to_string()));
    assert_eq!(
        r,
        Err(CoreError::TransportError("stream interrupted".to_string()))
    );
    assert_eq!(c.messages.len(), 1);
    assert_eq!(c.messages[0].role, "assistant");
    assert_eq!(
        c.messages[0].parts,
        vec![MessageParts::Markdown("Hello World".to_string())]
    );
}

#[test]
fn successful_stream_completion_reports_ok() {
    let mut c = fresh();
    let mut seg = Segmenter::new();
    seg.push_chunk("all fine");
    assert_eq!(c.complete_assistant_turn(seg, None), Ok(()));
    assert_eq!(c.messages.len(), 1);
}

#[test]
fn clear_moves_seen_context_back_to_unseen() {
    let mut c = fresh();
    c.add_workspace_contexts(strings(&["a.txt"])).unwrap();
    c.add_user_message("q".to_string(), strings(&["DATA"])).unwrap();
    assert_eq!(c.seen_context.len(), 1);
    c.clear().unwrap();
    assert!(c.messages.is_empty());
    assert!(c.seen_context.is_empty());
    assert_eq!(c.unseen_context, vec![WorkspaceContext::File("a.txt".to_string())]);
}

#[test]
fn cleared_context_is_redelivered_on_the_next_turn() {
    let mut c = fresh();
    c.add_workspace_contexts(strings(&["a.txt"])).unwrap();
    c.add_user_message("first".to_string(), strings(&["V1"])).unwrap();
    c.clear().unwrap();
    c.add_user_message("second".to_string(), strings(&["V2"])).unwrap();
    let flat = c.as_messages();
    assert_eq!(flat.len(), 1);
    assert_eq!(
        flat[0].content,
        "<ClaippyContext src=\"a.txt\">V2</ClaippyContext>\nsecond"
    );
}

#[test]
fn turns_flatten_in_order_with_their_roles() {
    let mut c = fresh();
    c.add_user_message("question".to_string(), vec![]).unwrap();
    c.add_assistant_message(vec![MessageParts::Markdown("answer".to_string())]);
    let flat = c.as_messages();
    assert_eq!(flat.len(), 2);
    assert_eq!((flat[0].role.as_str(), flat[0].content.as_str()), ("user", "question"));
    assert_eq!(
        (flat[1].role.as_str(), flat[1].content.as_str()),
        ("assistant", "answer")
    );
}

#[test]
fn repair_drops_duplicates_and_prefers_seen() {
    let mut c = fresh();
    c.unseen_context = vec![
        WorkspaceContext::File("a".to_string()),
        WorkspaceContext::File("b".to_string()),
        WorkspaceContext::File("a".to_string()),
        WorkspaceContext::File("s".to_string()),
    ];
    c.seen_context = vec![
        WorkspaceContext::File("s".to_string()),
        WorkspaceContext::File("s".to_string()),
    ];
    c.repair_contexts();
    assert_eq!(c.seen_context, vec![WorkspaceContext::File("s".to_string())]);
    assert_eq!(
        c.unseen_context,
        vec![
            WorkspaceContext::File("a".to_string()),
            WorkspaceContext::File("b".to_string()),
        ]
    );
}

#[test]
fn repair_keeps_an_already_valid_partition() {
    let mut c = fresh();
    c.add_workspace_contexts(strings(&["a", "b"])).unwrap();
    c.add_user_message("q".to_string(), strings(&["A", "B"])).unwrap();
    c.add_workspace_contexts(strings(&["c"])).unwrap();
    let seen = c.seen_context.clone();
    let unseen = c.unseen_context.clone();
    c.repair_contexts();
    assert_eq!(c.seen_context, seen);
    assert_eq!(c.unseen_context, unseen);
}

#[test]
fn context_text_is_the_literal_reference() {
    let f = WorkspaceContext::File("path/to/f".to_string());
    let u = WorkspaceContext::Url("https://e.com".to_string());
    assert_eq!(f.text().as_str(), "path/to/f");
    assert_eq!(u.text().as_str(), "https://e.com");
}
