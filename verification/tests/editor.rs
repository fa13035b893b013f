use bedrock_core::editor::{
    ApplyOutcome, ChangeOrigin, CoreError, EditorSnapshot, Selection, TextChange, Transaction,
};
use bedrock_core::commands::{apply_markdown_command, MarkdownCommand};

fn b(s: &str) -> Vec<u8> {
    s.as_bytes().to_vec()
}

#[test]
fn applies_multi_change_transaction() {
    let mut snapshot = EditorSnapshot::new(b("hello world"));
    snapshot.set_selection(Selection::cursor(0));
    let transaction = Transaction {
        changes: vec![TextChange::new(0, 0, b(">>")), TextChange::new(11, 11, b("<<"))],
        selection_after: Some(Selection::cursor(13)),
        origin: ChangeOrigin::Command,
        label: "wrap",
    };

    let outcome = snapshot.apply_transaction(transaction).unwrap();
    assert!(outcome.text_changed);
    assert_eq!(snapshot.text, b(">>hello world<<"));
    assert_eq!(snapshot.selection, Selection::cursor(13));
    assert_eq!(snapshot.revision, 1);
}

#[test]
fn rejects_overlapping_changes() {
    let mut snapshot = EditorSnapshot::new(b("abcdef"));
    let transaction = Transaction {
        changes: vec![TextChange::new(1, 4, b("x")), TextChange::new(3, 5, b("y"))],
        selection_after: None,
        origin: ChangeOrigin::Command,
        label: "bad",
    };
    assert!(matches!(
        snapshot.apply_transaction(transaction),
        Err(CoreError::OverlappingChanges { .. })
    ));
}

#[test]
fn wraps_selection_with_markdown() {
    let mut snapshot = EditorSnapshot::new(b("bedrock"));
    snapshot.set_selection(Selection::new(0, 7));
    let changed = apply_markdown_command(
        &mut snapshot,
        MarkdownCommand::Wrap { open: b("**"), close: b("**"), label: "bold" },
    )
    .unwrap();

    assert!(changed);
    assert_eq!(snapshot.text, b("**bedrock**"));
    assert_eq!(snapshot.selection, Selection::cursor(11));
}

#[test]
fn continues_unordered_list() {
    let mut snapshot = EditorSnapshot::new(b("- item"));
    let len = snapshot.text.len();
    snapshot.set_selection(Selection::cursor(len));
    let changed = apply_markdown_command(&mut snapshot, MarkdownCommand::ContinueBlock).unwrap();
    assert!(changed);
    assert_eq!(snapshot.text, b("- item\n- "));
}

#[test]
fn indents_and_outdents_block() {
    let mut snapshot = EditorSnapshot::new(b("a\nb"));
    let len = snapshot.text.len();
    snapshot.set_selection(Selection::new(0, len));
    apply_markdown_command(&mut snapshot, MarkdownCommand::Indent).unwrap();
    assert_eq!(snapshot.text, b("    a\n    b"));

    let len = snapshot.text.len();
    snapshot.set_selection(Selection::new(0, len));
    apply_markdown_command(&mut snapshot, MarkdownCommand::Outdent).unwrap();
    assert_eq!(snapshot.text, b("a\nb"));
}

#[test]
fn indent_outdent_round_trip_keeps_mixed_indentation() {
    let mut snapshot = EditorSnapshot::new(b("\ta\n  b"));
    let len = snapshot.text.len();
    snapshot.set_selection(Selection::new(0, len));
    apply_markdown_command(&mut snapshot, MarkdownCommand::Indent).unwrap();
    assert_eq!(snapshot.text, b("    \ta\n      b"));

    let len = snapshot.text.len();
    snapshot.set_selection(Selection::new(0, len));
    apply_markdown_command(&mut snapshot, MarkdownCommand::Outdent).unwrap();
    assert_eq!(snapshot.text, b("\ta\n  b"));
}

#[test]
fn selection_normalizes_reversed_endpoints() {
    let sel = Selection::new(5, 2);
    assert_eq!(sel.start, 2);
    assert_eq!(sel.end, 5);
}

#[test]
fn selection_clamps_to_length() {
    let sel = Selection::new(3, 99).clamp(5);
    assert_eq!(sel, Selection { start: 3, end: 5 });
    assert!(!sel.is_cursor());
    assert!(Selection::cursor(4).is_cursor());
}

#[test]
fn invalid_range_error_reports_bounds() {
    let mut snapshot = EditorSnapshot::new(b("abc"));
    let transaction = Transaction {
        changes: vec![TextChange::new(2, 9, b("x"))],
        selection_after: None,
        origin: ChangeOrigin::System,
        label: "bad",
    };
    let err = snapshot.apply_transaction(transaction).unwrap_err();
    assert_eq!(err, CoreError::InvalidRange { start: 2, end: 9, len: 3 });
    assert_eq!(snapshot.text, b("abc"));
    assert_eq!(snapshot.revision, 0);
}

#[test]
fn overlapping_changes_leave_text_unchanged() {
    let mut snapshot = EditorSnapshot::new(b("abcdef"));
    let transaction = Transaction {
        changes: vec![TextChange::new(1, 4, b("x")), TextChange::new(3, 5, b("y"))],
        selection_after: None,
        origin: ChangeOrigin::Command,
        label: "bad",
    };
    let err = snapshot.apply_transaction(transaction).unwrap_err();
    assert_eq!(
        err,
        CoreError::OverlappingChanges { first_start: 1, first_end: 4, next_start: 3, next_end: 5 }
    );
    assert_eq!(snapshot.text, b("abcdef"));
    assert_eq!(snapshot.revision, 0);
}

#[test]
fn replace_from_input_clamps_selection_and_bumps_revision() {
    let mut snapshot = EditorSnapshot::new(b("old"));
    let outcome: ApplyOutcome = snapshot.replace_from_input(b("fresh"), Selection::new(2, 99));
    assert!(outcome.text_changed);
    assert_eq!(snapshot.text, b("fresh"));
    assert_eq!(snapshot.selection, Selection { start: 2, end: 5 });
    assert_eq!(snapshot.revision, 1);

    let outcome = snapshot.replace_from_input(b("fresh"), Selection::cursor(1));
    assert!(!outcome.text_changed);
    assert_eq!(snapshot.revision, 1);
}

#[test]
fn remap_shifts_selection_after_earlier_insert() {
    let mut snapshot = EditorSnapshot::new(b("world"));
    snapshot.set_selection(Selection::cursor(5));
    let transaction = Transaction {
        changes: vec![TextChange::new(0, 0, b("hello "))],
        selection_after: None,
        origin: ChangeOrigin::Input,
        label: "greet",
    };
    snapshot.apply_transaction(transaction).unwrap();
    assert_eq!(snapshot.text, b("hello world"));
    assert_eq!(snapshot.selection, Selection::cursor(11));
}

#[test]
fn second_apply_remaps_the_already_remapped_selection() {
    let mut snapshot = EditorSnapshot::new(b("world"));
    snapshot.set_selection(Selection::cursor(5));
    let tx = || Transaction {
        changes: vec![TextChange::new(0, 0, b("x "))],
        selection_after: None,
        origin: ChangeOrigin::Input,
        label: "prepend",
    };
    snapshot.apply_transaction(tx()).unwrap();
    assert_eq!(snapshot.selection, Selection::cursor(7));
    snapshot.apply_transaction(tx()).unwrap();
    // Each remap shifts the caret by the inserted width: the second one
    // starts from the already-remapped caret.
    assert_eq!(snapshot.text, b("x x world"));
    assert_eq!(snapshot.selection, Selection::cursor(9));
}

#[test]
fn ordered_marker_beyond_counter_range_falls_back() {
    // A marker too large for the counter parses to the fallback 1, so
    // the continuation is numbered 2.
    let mut snapshot = EditorSnapshot::new(b("99999999999999999999999. x"));
    let len = snapshot.text.len();
    snapshot.set_selection(Selection::cursor(len));
    let changed = apply_markdown_command(&mut snapshot, MarkdownCommand::ContinueBlock).unwrap();
    assert!(changed);
    assert_eq!(snapshot.text, b("99999999999999999999999. x\n2. "));
}

#[test]
fn continue_ordered_list_increments_marker() {
    let mut snapshot = EditorSnapshot::new(b("3. item"));
    let len = snapshot.text.len();
    snapshot.set_selection(Selection::cursor(len));
    let changed = apply_markdown_command(&mut snapshot, MarkdownCommand::ContinueBlock).unwrap();
    assert!(changed);
    assert_eq!(snapshot.text, b("3. item\n4. "));
}

#[test]
fn continue_task_list_adds_fresh_box() {
    let mut snapshot = EditorSnapshot::new(b("- [x] done"));
    let len = snapshot.text.len();
    snapshot.set_selection(Selection::cursor(len));
    let changed = apply_markdown_command(&mut snapshot, MarkdownCommand::ContinueBlock).unwrap();
    assert!(changed);
    assert_eq!(snapshot.text, b("- [x] done\n- [ ] "));
}

#[test]
fn continue_on_empty_item_inserts_bare_newline() {
    let mut snapshot = EditorSnapshot::new(b("- "));
    snapshot.set_selection(Selection::cursor(2));
    let changed = apply_markdown_command(&mut snapshot, MarkdownCommand::ContinueBlock).unwrap();
    assert!(changed);
    assert_eq!(snapshot.text, b("- \n"));
}

#[test]
fn continue_on_plain_line_is_not_applicable() {
    let mut snapshot = EditorSnapshot::new(b("just prose"));
    let len = snapshot.text.len();
    snapshot.set_selection(Selection::cursor(len));
    let changed = apply_markdown_command(&mut snapshot, MarkdownCommand::ContinueBlock).unwrap();
    assert!(!changed);
    assert_eq!(snapshot.text, b("just prose"));
}

#[test]
fn continue_quote_repeats_marker() {
    let mut snapshot = EditorSnapshot::new(b("> words"));
    let len = snapshot.text.len();
    snapshot.set_selection(Selection::cursor(len));
    let changed = apply_markdown_command(&mut snapshot, MarkdownCommand::ContinueBlock).unwrap();
    assert!(changed);
    assert_eq!(snapshot.text, b("> words\n> "));
}

#[test]
fn outdent_without_indent_is_not_applicable() {
    let mut snapshot = EditorSnapshot::new(b("abc"));
    snapshot.set_selection(Selection::cursor(1));
    let changed = apply_markdown_command(&mut snapshot, MarkdownCommand::Outdent).unwrap();
    assert!(!changed);
    assert_eq!(snapshot.text, b("abc"));
    assert_eq!(snapshot.revision, 0);
}

#[test]
fn outdent_removes_single_tab() {
    let mut snapshot = EditorSnapshot::new(b("\tabc"));
    snapshot.set_selection(Selection::cursor(3));
    let changed = apply_markdown_command(&mut snapshot, MarkdownCommand::Outdent).unwrap();
    assert!(changed);
    assert_eq!(snapshot.text, b("abc"));
    assert_eq!(snapshot.selection, Selection::cursor(2));
}

#[test]
fn indent_at_cursor_inserts_four_spaces() {
    let mut snapshot = EditorSnapshot::new(b("ab"));
    snapshot.set_selection(Selection::cursor(1));
    let changed = apply_markdown_command(&mut snapshot, MarkdownCommand::Indent).unwrap();
    assert!(changed);
    assert_eq!(snapshot.text, b("a    b"));
    assert_eq!(snapshot.selection, Selection::cursor(5));
}

#[test]
fn prefix_line_shifts_selection() {
    let mut snapshot = EditorSnapshot::new(b("title"));
    snapshot.set_selection(Selection::cursor(2));
    let changed = apply_markdown_command(
        &mut snapshot,
        MarkdownCommand::PrefixLine { prefix: b("# "), label: "heading" },
    )
    .unwrap();
    assert!(changed);
    assert_eq!(snapshot.text, b("# title"));
    assert_eq!(snapshot.selection, Selection::cursor(4));
}

#[test]
fn autopair_wraps_cursor_between_tokens() {
    let mut snapshot = EditorSnapshot::new(b("ab"));
    snapshot.set_selection(Selection::cursor(1));
    let changed = apply_markdown_command(
        &mut snapshot,
        MarkdownCommand::AutoPair { open: b("("), close: b(")") },
    )
    .unwrap();
    assert!(changed);
    assert_eq!(snapshot.text, b("a()b"));
    assert_eq!(snapshot.selection, Selection::cursor(2));
}
