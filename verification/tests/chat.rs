use oxideterm::chat::{ai_chat_draft_action, candidate_choice, candidate_selection_needed, AiDraftAction};
use oxideterm::chat::{
    ai_conversation_turn_count, AiChatMessage, AiChatMessageMetadata, AiChatRole, AiChatState,
    AiSummaryRef,
};
use oxideterm::handoff::{
    acp_conversation_handoff_cursor, ai_message_backend_provenance,
    store_ai_message_backend_provenance, AiMessageBackendKind, AiMessageBackendProvenance,
};

fn message(id: &str, role: AiChatRole, content: &str) -> AiChatMessage {
    AiChatMessage {
        id: id.to_string(),
        role,
        content: content.to_string(),
        timestamp_ms: 0,
        model: None,
        context: None,
        thinking_content: None,
        is_streaming: false,
        tool_call_id: None,
        metadata: None,
        summary_ref: None,
    }
}

#[test]
fn conversation_turn_count_tracks_user_submissions_not_physical_rows() {
    let messages = vec![
        message("user-1", AiChatRole::User, "question"),
        message("assistant-tool", AiChatRole::Assistant, "working"),
        message("tool-1", AiChatRole::Tool, "result"),
        message("assistant-1", AiChatRole::Assistant, "answer"),
        message("user-2", AiChatRole::User, "follow-up"),
    ];

    assert_eq!(ai_conversation_turn_count(&messages), 2);
}

#[test]
fn conversation_turn_count_preserves_compacted_user_submissions() {
    let mut anchor = message("anchor", AiChatRole::System, "summary");
    anchor.metadata = Some(AiChatMessageMetadata {
        kind: "compaction-anchor".to_string(),
        original_count: Some(14),
        compacted_at_ms: Some(1),
        original_messages: None,
        original_user_count: Some(7),
    });
    let messages = vec![
        anchor,
        message("user-8", AiChatRole::User, "continue"),
        message("assistant-8", AiChatRole::Assistant, "done"),
    ];

    assert_eq!(ai_conversation_turn_count(&messages), 8);
}

#[test]
fn conversation_turn_count_preserves_manual_summary_history() {
    let mut summary = message("summary", AiChatRole::Assistant, "summary");
    summary.summary_ref = Some(AiSummaryRef {
        kind: Some("conversation".to_string()),
        original_user_count: Some(9),
    });

    assert_eq!(ai_conversation_turn_count(&[summary]), 9);
}

#[test]
fn compaction_anchor_counts_its_complete_snapshot_or_half_its_count() {
    let snapshot = vec![
        message("u1", AiChatRole::User, "a"),
        message("a1", AiChatRole::Assistant, "b"),
        message("u2", AiChatRole::User, "c"),
    ];
    let mut complete = message("anchor", AiChatRole::System, "summary");
    complete.metadata = Some(AiChatMessageMetadata {
        kind: "compaction-anchor".to_string(),
        original_count: Some(3),
        compacted_at_ms: None,
        original_messages: Some(snapshot),
        original_user_count: None,
    });
    assert_eq!(ai_conversation_turn_count(&[complete]), 2);

    let mut partial = message("anchor", AiChatRole::System, "summary");
    partial.metadata = Some(AiChatMessageMetadata {
        kind: "compaction-anchor".to_string(),
        original_count: Some(5),
        compacted_at_ms: None,
        original_messages: Some(vec![message("u1", AiChatRole::User, "a")]),
        original_user_count: None,
    });
    assert_eq!(ai_conversation_turn_count(&[partial]), 3);

    let mut other_kind = message("note", AiChatRole::User, "x");
    other_kind.metadata = Some(AiChatMessageMetadata {
        kind: "note".to_string(),
        original_count: Some(40),
        compacted_at_ms: None,
        original_messages: None,
        original_user_count: Some(20),
    });
    assert_eq!(ai_conversation_turn_count(&[other_kind]), 1);
}

#[test]
fn summary_of_another_kind_counts_as_its_role() {
    let mut summary = message("summary", AiChatRole::User, "summary");
    summary.summary_ref = Some(AiSummaryRef {
        kind: Some("tool".to_string()),
        original_user_count: Some(9),
    });
    assert_eq!(ai_conversation_turn_count(&[summary]), 1);
}

#[test]
fn created_conversation_is_first_and_active() {
    let mut state = AiChatState::default();
    state.create_conversation("older".to_string(), Some("Older".to_string()), 1, None);
    let id = state.create_conversation("c1".to_string(), Some("   ".to_string()), 10, Some("p".to_string()));
    assert_eq!(id, "c1");
    assert_eq!(state.conversations.len(), 2);
    assert_eq!(state.conversations[1].id, "older");
    let active = state.active_conversation().expect("active");
    assert_eq!(active.id, "c1");
    assert_eq!(active.title, "New Chat");
    assert_eq!(active.origin, "sidebar");
    assert_eq!(active.created_at_ms, 10);
    assert_eq!(active.updated_at_ms, 10);
    assert_eq!(active.profile_id.as_deref(), Some("p"));
    let metadata = active.session_metadata.as_ref().expect("metadata");
    assert_eq!(metadata.conversation_id.as_deref(), Some("c1"));
    assert_eq!(metadata.origin.as_deref(), Some("sidebar"));
    assert_eq!(metadata.profile_id.as_deref(), Some("p"));
    assert!(active.messages_loaded);
}

#[test]
fn ensure_conversation_keeps_the_active_one() {
    let mut state = AiChatState::default();
    let first = state.ensure_conversation("c1".to_string(), None, 1, None);
    assert_eq!(first, "c1");
    let again = state.ensure_conversation("c2".to_string(), None, 2, None);
    assert_eq!(again, "c1");
    assert_eq!(state.conversations.len(), 1);
}

#[test]
fn deleting_the_active_conversation_activates_the_first_remaining() {
    let mut state = AiChatState::default();
    state.create_conversation("a".to_string(), None, 1, None);
    state.create_conversation("b".to_string(), None, 2, None);
    state.create_conversation("c".to_string(), None, 3, None);
    state.set_active_conversation("b".to_string());
    assert_eq!(state.active_conversation_id.as_deref(), Some("b"));
    state.delete_conversation("b");
    let ids: Vec<&str> = state.conversations.iter().map(|c| c.id.as_str()).collect();
    assert_eq!(ids, vec!["c", "a"]);
    assert_eq!(state.active_conversation_id.as_deref(), Some("c"));
    state.delete_conversation("a");
    assert_eq!(state.active_conversation_id.as_deref(), Some("c"));
    state.delete_conversation("c");
    assert!(state.conversations.is_empty());
    assert_eq!(state.active_conversation_id, None);
}

#[test]
fn set_active_conversation_ignores_unknown_ids() {
    let mut state = AiChatState::default();
    state.create_conversation("a".to_string(), None, 1, None);
    state.set_active_conversation("missing".to_string());
    assert_eq!(state.active_conversation_id.as_deref(), Some("a"));
    state.clear_conversations();
    assert!(state.conversations.is_empty());
    assert!(state.active_conversation().is_none());
}

#[test]
fn rename_trims_and_ignores_blank_titles() {
    let mut state = AiChatState::default();
    state.create_conversation("a".to_string(), Some("Start".to_string()), 1, None);
    state.rename_conversation("a", "  Renamed \n".to_string(), 5);
    assert_eq!(state.conversations[0].title, "Renamed");
    assert_eq!(state.conversations[0].updated_at_ms, 5);
    state.rename_conversation("a", " \t ".to_string(), 9);
    assert_eq!(state.conversations[0].title, "Renamed");
    assert_eq!(state.conversations[0].updated_at_ms, 5);
}

#[test]
fn add_message_recounts_messages_and_turns() {
    let mut state = AiChatState::default();
    state.create_conversation("a".to_string(), None, 1, None);
    let mut question = message("u1", AiChatRole::User, "hi");
    question.timestamp_ms = 20;
    state.add_message("a", question);
    let mut answer = message("a1", AiChatRole::Assistant, "hello");
    answer.timestamp_ms = 30;
    state.add_message("a", answer);
    state.add_message("missing", message("x", AiChatRole::User, "lost"));
    let conversation = &state.conversations[0];
    assert_eq!(conversation.message_count, 2);
    assert_eq!(conversation.turn_count, 1);
    assert_eq!(conversation.updated_at_ms, 30);
}

#[test]
fn update_message_edits_only_the_named_message() {
    let mut state = AiChatState::default();
    state.create_conversation("a".to_string(), None, 1, None);
    state.add_message("a", message("m1", AiChatRole::User, "one"));
    state.add_message("a", message("m2", AiChatRole::User, "two"));
    state.update_message("a", "m2", |m| m.content = "changed".to_string());
    state.update_message("a", "missing", |m| m.content = "wrong".to_string());
    assert_eq!(state.conversations[0].messages[0].content, "one");
    assert_eq!(state.conversations[0].messages[1].content, "changed");
    if let Some(active) = state.active_conversation_mut() {
        active.title = "Edited".to_string();
    }
    assert_eq!(state.conversations[0].title, "Edited");
}

#[test]
fn handoff_cursor_points_at_the_named_message() {
    let mut state = AiChatState::default();
    state.create_conversation("a".to_string(), None, 1, None);
    let mut m = message("m1", AiChatRole::User, "one");
    m.timestamp_ms = 42;
    state.add_message("a", m);
    let conversation = &state.conversations[0];
    let cursor = acp_conversation_handoff_cursor(conversation, "m1").expect("cursor");
    assert_eq!(cursor.message_id, "m1");
    assert_eq!(cursor.timestamp_ms, 42);
    assert!(acp_conversation_handoff_cursor(conversation, "m2").is_none());
}

fn provenance(kind: AiMessageBackendKind, backend_id: &str) -> AiMessageBackendProvenance {
    AiMessageBackendProvenance {
        kind,
        backend_id: backend_id.to_string(),
        model: "model".to_string(),
    }
}

#[test]
fn message_backend_provenance_round_trips_without_message_content() {
    let mut state = AiChatState::default();
    state.create_conversation("c".to_string(), None, 1, None);
    let mut m = message("provider-user", AiChatRole::User, "private conversation text");
    m.timestamp_ms = 1;
    state.add_message("c", m);
    let conversation = &mut state.conversations[0];
    let expected = provenance(AiMessageBackendKind::Provider, "openai");

    assert!(store_ai_message_backend_provenance(
        conversation,
        "provider-user",
        expected.clone(),
    ));
    assert_eq!(
        ai_message_backend_provenance(conversation, "provider-user"),
        Some(expected)
    );
    let serialized = format!("{:?}", conversation.session_metadata);
    assert!(!serialized.contains("private conversation text"));
}

#[test]
fn provenance_is_only_stored_for_existing_messages() {
    let mut state = AiChatState::default();
    state.create_conversation("c".to_string(), None, 1, None);
    let conversation = &mut state.conversations[0];
    assert!(!store_ai_message_backend_provenance(
        conversation,
        "missing",
        provenance(AiMessageBackendKind::Acp, "codex"),
    ));
    assert_eq!(ai_message_backend_provenance(conversation, "missing"), None);
    let metadata = conversation.session_metadata.as_ref().expect("metadata");
    assert!(metadata.message_backends.is_none());
}

#[test]
fn provenance_of_removed_messages_is_pruned_past_the_slack() {
    let mut state = AiChatState::default();
    state.create_conversation("c".to_string(), None, 1, None);
    for index in 0..34 {
        state.add_message("c", message(&format!("m{index}"), AiChatRole::User, "x"));
    }
    let conversation = &mut state.conversations[0];
    for index in 0..34 {
        assert!(store_ai_message_backend_provenance(
            conversation,
            &format!("m{index}"),
            provenance(AiMessageBackendKind::Provider, "p"),
        ));
    }
    conversation.messages.truncate(1);
    let replaced = provenance(AiMessageBackendKind::Acp, "agent");
    assert!(store_ai_message_backend_provenance(conversation, "m0", replaced.clone()));
    assert_eq!(ai_message_backend_provenance(conversation, "m0"), Some(replaced));
    assert_eq!(ai_message_backend_provenance(conversation, "m1"), None);
    assert_eq!(ai_message_backend_provenance(conversation, "m33"), None);
    let backends = conversation
        .session_metadata
        .as_ref()
        .and_then(|metadata| metadata.message_backends.as_ref())
        .expect("backends");
    assert_eq!(backends.len(), 1);
}

#[test]
fn provenance_of_removed_messages_is_kept_within_the_slack() {
    let mut state = AiChatState::default();
    state.create_conversation("c".to_string(), None, 1, None);
    state.add_message("c", message("a", AiChatRole::User, "x"));
    state.add_message("c", message("b", AiChatRole::User, "y"));
    let conversation = &mut state.conversations[0];
    let first = provenance(AiMessageBackendKind::Provider, "p");
    assert!(store_ai_message_backend_provenance(conversation, "b", first.clone()));
    conversation.messages.truncate(1);
    assert!(store_ai_message_backend_provenance(
        conversation,
        "a",
        provenance(AiMessageBackendKind::Acp, "q"),
    ));
    assert_eq!(ai_message_backend_provenance(conversation, "b"), Some(first));
}

#[test]
fn chat_draft_action_trims_ignores_blank_and_respects_disabled_ai() {
    assert_eq!(ai_chat_draft_action("   \n", true), AiDraftAction::Ignore);
    assert_eq!(ai_chat_draft_action(" hi ", false), AiDraftAction::WarnDisabled);
    assert_eq!(ai_chat_draft_action("  hi there ", true), AiDraftAction::Send("hi there".to_string()));
}

#[test]
fn candidate_selection_needs_an_ambiguity_code_and_two_candidates() {
    assert!(candidate_selection_needed(Some("target_disambiguation_required"), 2));
    assert!(candidate_selection_needed(Some("resource_ambiguous"), 3));
    assert!(!candidate_selection_needed(Some("resource_ambiguous"), 1));
    assert!(!candidate_selection_needed(Some("other"), 5));
    assert!(!candidate_selection_needed(None, 5));
    assert_eq!(candidate_choice(Some(1), 2), Some(1));
    assert_eq!(candidate_choice(Some(2), 2), None);
    assert_eq!(candidate_choice(None, 2), None);
}
