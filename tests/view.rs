use fresh::config::Config;
use fresh::cursor::{Cursor, CursorSet};
use fresh::editor::Editor;
use fresh::event::{Event, EventLog};
use fresh::cursor::CursorId;
use fresh::state::{EditorState, Movement};
use fresh::viewport::Viewport;

fn chars(s: &str) -> Vec<char> {
    s.chars().collect()
}

fn cursor_position(editor: &Editor) -> usize {
    editor.active_state().primary_cursor().position
}

#[test]
fn test_line_wrapping_disabled() {
    let mut config = Config::default();
    config.editor.line_wrap = false;
    let mut editor = Editor::new(config).unwrap();
    let long_text = "This is a very long line of text that will definitely exceed the terminal width and would normally wrap but should not when disabled.";
    editor.insert_text(long_text);
    assert_eq!(editor.active_text_string(), long_text);
    assert!(!editor.active_text_string().contains('\n'));
    assert!(!editor.active_state().viewport.wrap());
}

#[test]
fn test_wrapped_line_navigation_home() {
    let mut editor = Editor::new(Config::default()).unwrap();
    let long_text = "This is a very long line of text that will definitely exceed the terminal width and should wrap to multiple lines.";
    editor.insert_text(long_text);
    assert_eq!(cursor_position(&editor), long_text.len());
    editor.move_cursor(Movement::LineStart);
    assert_eq!(cursor_position(&editor), 0);
}

#[test]
fn test_wrapped_line_navigation_end() {
    let mut editor = Editor::new(Config::default()).unwrap();
    let long_text = "This is a very long line of text that will definitely exceed the terminal width and should wrap to multiple lines.";
    editor.insert_text(long_text);
    editor.move_cursor(Movement::LineStart);
    assert_eq!(cursor_position(&editor), 0);
    editor.move_cursor(Movement::LineEnd);
    assert_eq!(cursor_position(&editor), long_text.len());
}

#[test]
fn test_wrapped_line_navigation_arrows() {
    let mut editor = Editor::new(Config::default()).unwrap();
    editor.insert_text("This is a very long line of text that will definitely exceed the terminal width and should wrap to multiple lines.");
    let end_pos = cursor_position(&editor);
    for _ in 0..10 {
        editor.move_cursor(Movement::Left);
    }
    assert_eq!(cursor_position(&editor), end_pos - 10);
    for _ in 0..5 {
        editor.move_cursor(Movement::Right);
    }
    assert_eq!(cursor_position(&editor), end_pos - 5);
}

#[test]
fn test_wrapped_line_editing_middle() {
    let mut editor = Editor::new(Config::default()).unwrap();
    let long_text = "This is a very long line of text that will definitely exceed the terminal width and should wrap.";
    editor.insert_text(long_text);
    editor.move_cursor(Movement::LineStart);
    for _ in 0..20 {
        editor.move_cursor(Movement::Right);
    }
    assert_eq!(cursor_position(&editor), 20);
    editor.insert_text("[INSERTED]");
    let expected = "This is a very long [INSERTED]line of text that will definitely exceed the terminal width and should wrap.";
    assert_eq!(editor.active_text_string(), expected);
    assert_eq!(cursor_position(&editor), 30);
}

#[test]
fn test_wrapped_line_navigation_up_down() {
    let mut editor = Editor::new(Config::default()).unwrap();
    editor.insert_text("This is a very long first line that will wrap to multiple display lines in the terminal.");
    editor.insert_text("\n");
    editor.insert_text("Short second line.");
    let second_line_end = cursor_position(&editor);
    editor.move_cursor(Movement::Up);
    let first_line_pos = cursor_position(&editor);
    assert!(first_line_pos < second_line_end);
    editor.move_cursor(Movement::Down);
    assert!(cursor_position(&editor) >= second_line_end - 20);
}

#[test]
fn up_and_down_keep_the_column() {
    let mut state = EditorState::from_text(chars("abcdef\nxy\nlonger line"), None, 80, 24);
    state.move_cursor(Movement::Down);
    assert_eq!(state.primary_cursor().position, 7);
    state.move_cursor(Movement::Right);
    state.move_cursor(Movement::Right);
    state.move_cursor(Movement::Down);
    assert_eq!(state.primary_cursor().position, 12);
    state.move_cursor(Movement::Up);
    assert_eq!(state.primary_cursor().position, 9);
    state.move_cursor(Movement::Up);
    assert_eq!(state.primary_cursor().position, 2);
    state.move_cursor(Movement::Up);
    assert_eq!(state.primary_cursor().position, 2);
    assert_eq!(state.cursor_line_col(), (0, 2));
}

#[test]
fn test_wrapped_line_deletion() {
    let mut editor = Editor::new(Config::default()).unwrap();
    editor.insert_text("This is a very long line that will wrap to multiple display lines.");
    let initial_len = editor.active_text_string().len();
    for _ in 0..10 {
        editor.delete_backward();
    }
    assert_eq!(editor.active_text_string().len(), initial_len - 10);
    let content = editor.active_text_string();
    assert!(content.ends_with("disp"), "Content should end with 'disp' after deletion");
}

#[test]
fn test_wrapped_line_no_horizontal_scroll() {
    let mut editor = Editor::new(Config::default()).unwrap();
    editor.resize(60, 24);
    let long_text = "A fast, lightweight terminal text editor written in Rust. Handles files of any size with instant startup, low memory usage, and modern IDE features.";
    editor.insert_text(long_text);
    editor.move_cursor(Movement::LineStart);
    let screen_before = screen_text(&editor);
    assert!(screen_before.contains("A fast"), "Should show start of line before End key");
    assert!(screen_before.contains("lightweight"), "Should show 'lightweight' in wrapped portion");
    assert_eq!(editor.active_state().position_at(0, 0), Some(0));
    editor.move_cursor(Movement::LineEnd);
    let screen_after = screen_text(&editor);
    assert!(screen_after.contains("A fast") || screen_after.contains("lightweight"));
    let state = editor.active_state();
    assert_eq!(state.viewport.left_column(), 0);
    assert_eq!(state.position_at(0, 0), Some(0));
    assert_eq!(cursor_position(&editor), long_text.len());
    let n = long_text.chars().count();
    assert_eq!(state.cursor_screen_position(), Some((n % 60, n / 60)));
}

#[test]
fn unwrapped_end_scrolls_horizontally() {
    let text: String = std::iter::repeat('x').take(100).collect();
    let mut state = EditorState::from_text(text.chars().collect(), None, 40, 10);
    state.viewport.set_wrap(false);
    state.move_cursor(Movement::LineEnd);
    assert_eq!(state.viewport.left_column(), 61);
    assert_eq!(state.cursor_screen_position(), Some((39, 0)));
    state.move_cursor(Movement::LineStart);
    assert_eq!(state.viewport.left_column(), 0);
}

#[test]
fn screen_mapping_round_trips() {
    let text = chars("first line that wraps around\nsecond\n\nfourth line is long enough to wrap twice over");
    let mut view = Viewport::new(10, 6);
    for p in 0..=text.len() {
        if let Some((x, y)) = view.screen_position(&text, p) {
            assert_eq!(view.buffer_position(&text, x, y), Some(p));
        }
    }
    assert_eq!(view.screen_position(&text, 0), Some((0, 0)));
    assert_eq!(view.screen_position(&text, 12), Some((2, 1)));
    assert_eq!(view.screen_position(&text, 29), Some((0, 3)));
    assert_eq!(view.buffer_position(&text, 9, 4), Some(36));
    view.scroll_to(&text, text.len());
    assert!(view.screen_position(&text, text.len()).is_some());
    assert_eq!(view.top_line(), 2);
    view.set_wrap(false);
    for p in 0..=text.len() {
        if let Some((x, y)) = view.screen_position(&text, p) {
            assert_eq!(view.buffer_position(&text, x, y), Some(p));
        }
    }
}

#[test]
fn visible_range_follows_scroll() {
    let view = Viewport::new(80, 24);
    assert_eq!(view.visible_range(), 0..24);
}

#[test]
fn multi_cursor_shift() {
    let mut set = CursorSet::new();
    let c2 = set.add(Cursor::new(20)).unwrap();
    let c3 = set.add(Cursor::new(30)).unwrap();
    set.set_primary(Cursor::new(10));
    set.adjust_for_insert(5, 4);
    assert_eq!(set.get(0).1.position, 14);
    assert_eq!(set.get(1).1.position, 24);
    assert_eq!(set.get(2).1.position, 34);
    assert_eq!(set.get(1).0, c2);
    assert_eq!(set.get(2).0, c3);
    set.adjust_for_delete(20, 28);
    assert_eq!(set.get(0).1.position, 14);
    assert_eq!(set.get(1).1.position, 20);
    assert_eq!(set.get(2).1.position, 26);
}

#[test]
fn selection_range_is_ordered() {
    let c = Cursor::with_selection(9, 4);
    assert_eq!(c.selection_range(), Some(4..9));
    let mut d = Cursor::with_selection(3, 3);
    assert_eq!(d.selection_range(), None);
    d.clear_selection();
    assert_eq!(d.anchor, None);
    assert_eq!(d.position, 3);
}

#[test]
fn event_inverse_restores_state() {
    let mut state = EditorState::from_text(chars("abc\ndef"), None, 80, 24);
    let e = Event::Insert { position: 2, text: "XY\n".to_string(), cursor_id: CursorId(0) };
    state.apply(&e);
    assert_eq!(state.buffer.to_string(), "abXY\nc\ndef");
    state.apply(&e.inverse());
    assert_eq!(state.buffer.to_string(), "abc\ndef");
    let d = Event::Delete { range: 1..5, deleted_text: "bc\nd".to_string(), cursor_id: CursorId(0) };
    state.apply(&d);
    assert_eq!(state.buffer.to_string(), "aef");
    state.apply(&d.inverse());
    assert_eq!(state.buffer.to_string(), "abc\ndef");
}

#[test]
fn event_log_stacks() {
    let mut log = EventLog::new();
    assert!(log.undo().is_none());
    log.append(Event::Insert { position: 0, text: "a".to_string(), cursor_id: CursorId(0) });
    log.append(Event::Insert { position: 1, text: "b".to_string(), cursor_id: CursorId(0) });
    let e = log.undo().unwrap();
    assert!(matches!(e, Event::Insert { position: 1, .. }));
    assert!(log.can_redo());
    let r = log.redo().unwrap();
    assert!(matches!(r, Event::Insert { position: 1, .. }));
    assert_eq!(log.len(), 2);
    assert!(!log.can_redo());
}

#[test]
fn word_movements_stop_at_word_edges() {
    let mut state = EditorState::from_text(chars("foo  bar baz"), None, 80, 24);
    state.move_cursor(Movement::WordRight);
    assert_eq!(state.primary_cursor().position, 3);
    state.move_cursor(Movement::WordRight);
    assert_eq!(state.primary_cursor().position, 8);
    state.move_cursor(Movement::WordLeft);
    assert_eq!(state.primary_cursor().position, 5);
    state.move_cursor(Movement::WordLeft);
    assert_eq!(state.primary_cursor().position, 0);
    state.move_cursor(Movement::WordLeft);
    assert_eq!(state.primary_cursor().position, 0);
}

#[test]
fn visible_cells_hold_the_shown_text() {
    let text = chars("ab\ncdefg");
    let view = Viewport::new(3, 2);
    let cells = view.visible_cells(&text);
    assert_eq!(cells, vec![(0, 0, 'a'), (1, 0, 'b'), (0, 1, 'c'), (1, 1, 'd'), (2, 1, 'e')]);
}

fn screen_text(editor: &Editor) -> String {
    let state = editor.active_state();
    let text = state.contents();
    let width = state.viewport.width() as usize;
    let height = state.viewport.height() as usize;
    let mut rows = vec![vec![' '; width]; height];
    for (x, y, c) in state.viewport.visible_cells(&text) {
        rows[y][x] = c;
    }
    rows.into_iter().map(|r| r.into_iter().collect::<String>()).collect::<Vec<_>>().join("\n")
}

#[test]
fn test_line_wrapping_basic_rendering() {
    let mut editor = Editor::new(Config::default()).unwrap();
    editor.resize(60, 24);
    let long_text = "This is a very long line of text that will definitely exceed the terminal width and should wrap to multiple lines when line wrapping is enabled.";
    editor.insert_text(long_text);
    let screen = screen_text(&editor);
    assert!(
        screen.contains("line wrapping") || screen.contains("terminal") || screen.contains("multiple"),
        "Screen should contain some part of the wrapped text"
    );
    assert_eq!(editor.active_text_string(), long_text);
    assert!(!editor.active_text_string().contains('\n'));
}

#[test]
fn test_multiple_wrapped_lines() {
    let mut editor = Editor::new(Config::default()).unwrap();
    editor.resize(60, 24);
    editor.insert_text("First very long line that will wrap across multiple display lines in the terminal window.");
    editor.insert_text("\n");
    editor.insert_text("Second very long line that will also wrap and take up multiple rows in the display.");
    editor.insert_text("\n");
    editor.insert_text("Third line is shorter.");
    let buffer_content = editor.active_text_string();
    assert_eq!(buffer_content.matches('\n').count(), 2);
    assert!(buffer_content.contains("First very long line"));
    assert!(buffer_content.contains("Second very long line"));
    assert!(buffer_content.contains("Third line is shorter"));
    assert!(screen_text(&editor).contains("Third line is shorter."));
}

/// The cursor's cell on a terminal whose text area starts after a gutter.
fn screen_cursor_position(editor: &Editor, gutter: u16) -> (u16, u16) {
    let (x, y) = editor.active_state().cursor_screen_position().unwrap();
    (x as u16 + gutter, y as u16)
}

#[test]
fn test_wrapped_line_cursor_positioning() {
    const TERMINAL_WIDTH: u16 = 60;
    const GUTTER_WIDTH: u16 = 8;

    let mut editor = Editor::new(Config::default()).unwrap();
    // The text area leaves room for the gutter and a scrollbar.
    editor.resize(TERMINAL_WIDTH - GUTTER_WIDTH - 2, 24);

    let long_text = "The quick brown fox jumps over the lazy dog and runs through the forest, exploring ancient trees and mysterious pathways that wind between towering oaks.";
    editor.insert_text(long_text);
    assert_eq!(cursor_position(&editor), long_text.len());

    editor.move_cursor(Movement::LineStart);
    let (start_x, start_y) = screen_cursor_position(&editor, GUTTER_WIDTH);
    assert_eq!(cursor_position(&editor), 0, "Cursor should be at position 0 after Home");
    assert_eq!(start_x, GUTTER_WIDTH);
    let text_start = &long_text[..20.min(long_text.len())];
    assert!(screen_text(&editor).contains(text_start));

    let mut prev_y = start_y;
    let mut first_wrap_point = None;
    let mut second_wrap_point = None;
    for i in 1..=long_text.len().min(100) {
        editor.move_cursor(Movement::Right);
        let (cur_x, cur_y) = screen_cursor_position(&editor, GUTTER_WIDTH);
        assert_eq!(cursor_position(&editor), i, "Buffer position should be {}", i);
        if cur_y > prev_y {
            if first_wrap_point.is_none() {
                first_wrap_point = Some(i);
                assert_eq!(cur_x, GUTTER_WIDTH);
                assert_eq!(cur_y, start_y + 1);
            } else if second_wrap_point.is_none() {
                second_wrap_point = Some(i);
                assert_eq!(cur_x, GUTTER_WIDTH);
                assert_eq!(cur_y, start_y + 2);
                break;
            }
        }
        prev_y = cur_y;
    }
    assert!(first_wrap_point.is_some(), "Should have detected first wrap point");
    assert!(second_wrap_point.is_some(), "Should have detected second wrap point");
    assert!(screen_text(&editor).contains(text_start));

    editor.move_cursor(Movement::LineEnd);
    let (_end_x, end_y) = screen_cursor_position(&editor, GUTTER_WIDTH);
    assert_eq!(cursor_position(&editor), long_text.len(), "Cursor should be at end after End key");
    assert!(end_y > start_y);
    let screen_at_end = screen_text(&editor);
    assert!(screen_at_end.contains("The quick brown fox"));
    assert!(screen_at_end.contains("oaks") || screen_at_end.contains("tower") || screen_at_end.contains("between"));

    let mut wrapped_up = false;
    let mut prev_y = end_y;
    for _ in 1..=50 {
        editor.move_cursor(Movement::Left);
        let (cur_x, cur_y) = screen_cursor_position(&editor, GUTTER_WIDTH);
        if cur_y < prev_y {
            wrapped_up = true;
            assert!(cur_x > GUTTER_WIDTH);
            break;
        }
        prev_y = cur_y;
    }
    assert!(wrapped_up, "Cursor should have wrapped back up when moving left across wrap boundaries");

    editor.move_cursor(Movement::LineStart);
    let (final_x, final_y) = screen_cursor_position(&editor, GUTTER_WIDTH);
    assert_eq!(cursor_position(&editor), 0);
    assert_eq!(final_x, GUTTER_WIDTH);
    assert_eq!(final_y, start_y);
    assert!(screen_text(&editor).contains(text_start));
}

#[test]
fn cut_scenario_through_set_clipboard() {
    let mut editor = Editor::new(Config::default()).unwrap();
    editor.set_clipboard("world");
    editor.insert_text("Hello!");
    editor.move_cursor(Movement::LineStart);
    for _ in 0..5 {
        editor.move_cursor(Movement::Right);
    }
    editor.paste();
    assert_eq!(editor.active_text_string(), "Helloworld!");
    assert!(editor.select(5, 10));
    editor.cut_selection();
    assert_eq!(editor.active_text_string(), "Hello!");
    assert_eq!(editor.clipboard, "world");
}
