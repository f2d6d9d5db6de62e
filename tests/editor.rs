use fresh::config::Config;
use fresh::editor::{Editor, EditorError};
use fresh::state::Movement;

fn editor_with(text: &str) -> Editor {
    let mut editor = Editor::new(Config::default()).unwrap();
    editor.insert_text(text);
    editor
}

fn content(editor: &Editor) -> String {
    editor.active_text_string()
}

#[test]
fn test_editor_new() {
    let config = Config::default();
    let editor = Editor::new(config).unwrap();

    assert_eq!(editor.buffer_count(), 1);
    assert!(!editor.should_quit());
}

#[test]
fn test_new_buffer() {
    let config = Config::default();
    let mut editor = Editor::new(config).unwrap();

    let id = editor.new_buffer();
    assert_eq!(editor.buffer_count(), 2);
    assert_eq!(editor.active_buffer_id(), id);
}

#[test]
fn test_clipboard() {
    let config = Config::default();
    let mut editor = Editor::new(config).unwrap();

    editor.clipboard = "test".to_string();

    editor.paste();

    let content = editor.active_state().buffer.to_string();
    assert_eq!(content, "test");
}

#[test]
fn cut_then_paste_restores_the_text() {
    let mut editor = editor_with("hello world!");
    assert!(editor.select(5, 10));
    editor.cut_selection();
    assert_eq!(content(&editor), "hellod!");
    assert_eq!(editor.clipboard, " worl");
    assert_eq!(editor.status_message(), Some("Cut".to_string()));
    editor.paste();
    assert_eq!(content(&editor), "hello world!");
    assert_eq!(editor.status_message(), Some("Pasted".to_string()));
}

#[test]
fn cut_of_world_and_paste_at_five() {
    let mut editor = editor_with("helloworld");
    assert!(editor.select(5, 10));
    editor.cut_selection();
    assert_eq!(content(&editor), "hello");
    assert_eq!(editor.clipboard, "world");
    assert_eq!(editor.active_state().primary_cursor().position, 5);
    editor.paste();
    assert_eq!(content(&editor), "helloworld");
}

#[test]
fn copy_without_selection_keeps_clipboard() {
    let mut editor = editor_with("abc");
    editor.clipboard = "keep".to_string();
    editor.copy_selection();
    assert_eq!(editor.clipboard, "keep");
    assert_eq!(editor.status_message(), None);
}

#[test]
fn copy_takes_the_selection() {
    let mut editor = editor_with("abcdef");
    assert!(editor.select(4, 1));
    editor.copy_selection();
    assert_eq!(editor.clipboard, "bcd");
    assert_eq!(editor.status_message(), Some("Copied".to_string()));
    assert_eq!(content(&editor), "abcdef");
}

#[test]
fn select_outside_the_text_is_refused() {
    let mut editor = editor_with("abc");
    assert!(!editor.select(0, 4));
}

#[test]
fn paste_with_empty_clipboard_changes_nothing() {
    let mut editor = editor_with("abc");
    editor.paste();
    assert_eq!(content(&editor), "abc");
}

#[test]
fn undo_and_redo_walk_the_history() {
    let mut editor = editor_with("abc");
    editor.insert_text("def");
    assert_eq!(content(&editor), "abcdef");
    assert!(editor.undo());
    assert_eq!(content(&editor), "abc");
    assert!(editor.undo());
    assert_eq!(content(&editor), "");
    assert!(!editor.undo());
    assert_eq!(editor.status_message(), Some("Nothing to undo".to_string()));
    assert!(editor.redo());
    assert_eq!(content(&editor), "abc");
    assert!(editor.redo());
    assert_eq!(content(&editor), "abcdef");
    assert!(!editor.redo());
    assert_eq!(editor.status_message(), Some("Nothing to redo".to_string()));
}

#[test]
fn new_edit_after_undo_drops_redo() {
    let mut editor = editor_with("abc");
    editor.insert_text("def");
    assert!(editor.undo());
    editor.insert_text("X");
    assert_eq!(content(&editor), "abcX");
    assert!(!editor.redo());
    assert!(editor.undo());
    assert!(editor.undo());
    assert_eq!(content(&editor), "");
}

#[test]
fn undo_of_a_cut_restores_the_text() {
    let mut editor = editor_with("one two");
    assert!(editor.select(3, 7));
    editor.cut_selection();
    assert_eq!(content(&editor), "one");
    assert!(editor.undo());
    assert_eq!(content(&editor), "one two");
}

#[test]
fn backspace_deletes_before_cursor() {
    let mut editor = editor_with("abc");
    editor.delete_backward();
    assert_eq!(content(&editor), "ab");
    editor.move_cursor(Movement::LineStart);
    editor.delete_backward();
    assert_eq!(content(&editor), "ab");
}

#[test]
fn close_last_buffer_is_refused() {
    let mut editor = Editor::new(Config::default()).unwrap();
    let id = editor.active_buffer_id();
    assert_eq!(editor.close_buffer(id), Err(EditorError::LastBuffer));
    assert_eq!(editor.buffer_count(), 1);
}

#[test]
fn close_modified_buffer_is_refused() {
    let mut editor = Editor::new(Config::default()).unwrap();
    let first = editor.active_buffer_id();
    editor.insert_text("x");
    let _second = editor.new_buffer();
    assert_eq!(editor.close_buffer(first), Err(EditorError::UnsavedChanges));
    assert_eq!(editor.buffer_count(), 2);
}

#[test]
fn close_active_buffer_switches_to_first() {
    let mut editor = Editor::new(Config::default()).unwrap();
    let first = editor.active_buffer_id();
    let second = editor.new_buffer();
    assert_eq!(editor.close_buffer(second), Ok(()));
    assert_eq!(editor.buffer_count(), 1);
    assert_eq!(editor.active_buffer_id(), first);
}

#[test]
fn saving_clears_modified() {
    let mut editor = editor_with("abc");
    assert!(editor.active_state().buffer.is_modified());
    assert_eq!(editor.save(Ok(())), Ok(()));
    assert!(!editor.active_state().buffer.is_modified());
    assert_eq!(editor.status_message(), Some("Saved".to_string()));
}

#[test]
fn failed_save_keeps_modified() {
    let mut editor = editor_with("abc");
    let r = editor.save(Err("disk full".to_string()));
    assert_eq!(r, Err(EditorError::Io("disk full".to_string())));
    assert!(editor.active_state().buffer.is_modified());
}

#[test]
fn open_file_twice_reuses_the_buffer() {
    let mut editor = Editor::new(Config::default()).unwrap();
    let a = editor.open_file("a.txt", "Content 1".chars().collect()).unwrap();
    assert_eq!(content(&editor), "Content 1");
    assert_eq!(editor.status_message(), Some("Opened a.txt".to_string()));
    let b = editor.open_file("b.txt", "Content 2".chars().collect()).unwrap();
    assert_ne!(a, b);
    assert_eq!(editor.buffer_count(), 3);
    let again = editor.open_file("a.txt", Vec::new()).unwrap();
    assert_eq!(again, a);
    assert_eq!(editor.buffer_count(), 3);
    assert_eq!(content(&editor), "Content 1");
    assert_eq!(editor.find_buffer("b.txt"), Some(b));
    assert_eq!(editor.find_buffer("c.txt"), None);
}

#[test]
fn buffer_cycling() {
    let mut editor = Editor::new(Config::default()).unwrap();
    let first = editor.active_buffer_id();
    let second = editor.new_buffer();
    let third = editor.new_buffer();
    editor.next_buffer();
    assert_eq!(editor.active_buffer_id(), first);
    editor.next_buffer();
    assert_eq!(editor.active_buffer_id(), second);
    editor.prev_buffer();
    assert_eq!(editor.active_buffer_id(), first);
    editor.prev_buffer();
    assert_eq!(editor.active_buffer_id(), third);
    editor.switch_buffer(second);
    assert_eq!(editor.active_buffer_id(), second);
}

#[test]
fn quit_sets_the_flag() {
    let mut editor = Editor::new(Config::default()).unwrap();
    editor.quit();
    assert!(editor.should_quit());
}

#[test]
fn resize_reaches_every_buffer() {
    let mut editor = Editor::new(Config::default()).unwrap();
    editor.new_buffer();
    editor.resize(100, 30);
    assert_eq!(editor.active_state().viewport.width(), 100);
    editor.next_buffer();
    assert_eq!(editor.active_state().viewport.height(), 30);
}

#[test]
fn event_log_records_edits() {
    let mut editor = editor_with("ab");
    editor.insert_text("c");
    assert_eq!(editor.active_event_log().len(), 2);
    assert!(editor.active_event_log().can_undo());
    assert!(!editor.active_event_log().can_redo());
    editor.undo();
    assert!(editor.active_event_log().can_redo());
}

#[test]
fn cut_with_two_cursors_removes_both_selections() {
    let mut editor = editor_with("abcdefgh");
    assert!(editor.select(5, 7));
    let added = editor.active_state_mut().cursors.add(fresh::cursor::Cursor::with_selection(1, 3));
    assert!(added.is_some());
    editor.cut_selection();
    assert_eq!(editor.clipboard, "fg\nbc");
    assert_eq!(content(&editor), "adeh");
    let cursors = &editor.active_state().cursors;
    for i in 0..cursors.len() {
        assert!(cursors.get(i).1.selection_range().is_none());
    }
    assert!(editor.undo());
    assert!(editor.undo());
    assert_eq!(content(&editor), "abcdefgh");
}
