use charpad::editor::Editor;
use charpad::editor::EditorMode;
use charpad::editor::MoveAction;
use charpad::editor::SetCursor;
use charpad::editor::join_displayed;
use charpad::editor::render_run;

fn chars(s: &str) -> Vec<char> {
    s.chars().collect()
}

fn no_run() -> Result<Vec<String>, String> {
    Ok(Vec::new())
}

fn editor(code: &str) -> Editor {
    Editor::new().with_code(code.to_string())
}

#[test]
fn new_editor_is_empty_and_in_edit_mode() {
    let e = Editor::new();
    assert_eq!(e.code, chars(""));
    assert_eq!(e.cursor, 0);
    assert_eq!(e.line_offset, 0);
    assert_eq!(e.mode, EditorMode::Edit);
    // the buffer is the padded empty code: one blank cell for the cursor
    assert_eq!(e.buffer, chars(" "));
    assert_eq!(e.chars.chars.len(), 1);
}

#[test]
fn with_code_lays_out_padded_code() {
    let e = editor("2 2 +\nh");
    assert_eq!(e.code, chars("2 2 +\nh"));
    assert_eq!(e.buffer, chars("2 2 + \nh "));
    assert_eq!(e.cursor, 0);
}

#[test]
fn left_and_right_clamp_to_code_bounds() {
    let mut e = editor("ab");
    e.navigate(MoveAction::Left, no_run());
    assert_eq!(e.cursor, 0);
    e.navigate(MoveAction::Right, no_run());
    e.navigate(MoveAction::Right, no_run());
    assert_eq!(e.cursor, 2);
    e.navigate(MoveAction::Right, no_run());
    assert_eq!(e.cursor, 2);
    e.navigate(MoveAction::Left, no_run());
    assert_eq!(e.cursor, 1);
}

#[test]
fn end_to_end_down_then_toggle() {
    // the cursor starts on '2' (line 0); Down lands on 'h' (line 1, column 0)
    let mut e = editor("2 2 +\nh");
    e.navigate(MoveAction::Down, no_run());
    assert_eq!(e.cursor, 6);
    let cell = e.chars.char_at_index(e.cursor).unwrap();
    assert_eq!(cell.char, 'h');
    assert_eq!(cell.line, 1);
    assert_eq!(cell.line_index, 0);
    // the collaborator's response to running the code becomes the display
    e.navigate(MoveAction::Mode, Ok(vec!["4".to_string()]));
    assert_eq!(e.mode, EditorMode::Run);
    assert_eq!(e.code_result, chars("4"));
    assert_eq!(e.buffer, chars("4 "));
    // the authored code is untouched
    assert_eq!(e.code, chars("2 2 +\nh"));
}

#[test]
fn run_failure_is_shown_as_text() {
    let mut e = editor("2 2 !");
    e.set_mode(EditorMode::Run, Err("unknown symbol".to_string()));
    assert_eq!(e.code_result, chars("unknown symbol"));
    assert_eq!(e.buffer, chars("unknown symbol "));
}

#[test]
fn toggle_twice_restores_display_and_layout() {
    let mut e = editor("2 2 +\nh");
    let buffer_before = e.buffer.clone();
    let chars_before = e.chars.chars.clone();
    e.navigate(MoveAction::Mode, Ok(vec!["4".to_string()]));
    e.navigate(MoveAction::Mode, no_run());
    assert_eq!(e.mode, EditorMode::Edit);
    assert_eq!(e.buffer, buffer_before);
    assert_eq!(e.chars.chars, chars_before);
}

#[test]
fn up_then_down_returns_to_flat_index() {
    let mut e = editor("abc\nde");
    // cursor onto 'e': line 1, column 1
    e.set_cursor(SetCursor::Assign, 5);
    let before = e.cursor;
    e.navigate(MoveAction::Up, no_run());
    let above = e.chars.char_at_index(e.cursor).unwrap();
    assert_eq!(above.line, 0);
    assert_eq!(above.line_index, 1);
    e.navigate(MoveAction::Down, no_run());
    assert_eq!(e.cursor, before);
}

#[test]
fn up_from_line_zero_goes_home() {
    let mut e = editor("abc");
    e.set_cursor(SetCursor::Assign, 2);
    e.navigate(MoveAction::Up, no_run());
    assert_eq!(e.cursor, 0);
}

#[test]
fn down_past_last_line_goes_to_end() {
    let mut e = editor("ab");
    e.navigate(MoveAction::Down, no_run());
    assert_eq!(e.cursor, 2);
}

#[test]
fn up_clamps_to_short_line_above() {
    // line 0 holds one character, the cursor sits at column 2 of line 1
    let mut e = editor("a\ncde");
    e.set_cursor(SetCursor::Assign, 3);
    e.navigate(MoveAction::Up, no_run());
    let cell = e.chars.char_at_index(e.cursor).unwrap();
    assert_eq!(cell.line, 0);
    // clamped to the line's last cell: the padding blank after 'a'
    assert_eq!(cell.line_index, 1);
}

#[test]
fn home_and_end_move_within_line() {
    let mut e = editor("abc\nde");
    e.set_cursor(SetCursor::Assign, 2);
    e.navigate(MoveAction::Home, no_run());
    assert_eq!(e.cursor, 0);
    e.navigate(MoveAction::End, no_run());
    // the last cell of line 0 is the padding blank at flat index 3
    assert_eq!(e.cursor, 3);
    // End on the final line goes to the end of the code
    e.navigate(MoveAction::Down, no_run());
    e.navigate(MoveAction::End, no_run());
    assert_eq!(e.cursor, 6);
}

#[test]
fn write_inserts_at_cursor_and_advances() {
    let mut e = editor("ac");
    e.navigate(MoveAction::Right, no_run());
    e.write('b');
    assert_eq!(e.code, chars("abc"));
    assert_eq!(e.cursor, 2);
    assert_eq!(e.buffer, chars("abc "));
}

#[test]
fn enter_inserts_a_break() {
    let mut e = editor("ab");
    e.navigate(MoveAction::Right, no_run());
    e.navigate(MoveAction::Enter, no_run());
    assert_eq!(e.code, chars("a\nb"));
    assert_eq!(e.cursor, 2);
    assert_eq!(e.buffer, chars("a \nb "));
}

#[test]
fn delete_removes_before_cursor() {
    let mut e = editor("abc");
    e.set_cursor(SetCursor::Assign, 2);
    e.navigate(MoveAction::Delete, no_run());
    assert_eq!(e.code, chars("ac"));
    assert_eq!(e.cursor, 1);
}

#[test]
fn delete_at_start_is_a_no_op() {
    let mut e = editor("abc");
    let before = e.clone();
    e.navigate(MoveAction::Delete, no_run());
    assert_eq!(e, before);
}

#[test]
fn unrecognized_action_changes_nothing() {
    let mut e = editor("abc");
    let before = e.clone();
    e.navigate(MoveAction::Invalid, no_run());
    assert_eq!(e, before);
}

#[test]
fn viewport_follows_cursor_down_and_up() {
    // nine lines: moving to the bottom scrolls just enough, moving back to
    // the top snaps the viewport up
    let mut e = editor("a\nb\nc\nd\ne\nf\ng\nh\ni");
    assert_eq!(e.line_offset, 0);
    for _ in 0..8 {
        e.navigate(MoveAction::Down, no_run());
    }
    let cell = e.chars.char_at_index(e.cursor).unwrap();
    assert_eq!(cell.line, 8);
    assert_eq!(e.line_offset, 2);
    for _ in 0..8 {
        e.navigate(MoveAction::Up, no_run());
    }
    assert_eq!(e.line_offset, 0);
}

#[test]
fn cursor_line_stays_within_window_after_every_action() {
    let mut e = editor("a\nb\nc\nd\ne\nf\ng\nh\ni\nj\nk");
    let actions = [
        MoveAction::Down,
        MoveAction::Down,
        MoveAction::Down,
        MoveAction::Down,
        MoveAction::Down,
        MoveAction::Down,
        MoveAction::Down,
        MoveAction::Down,
        MoveAction::End,
        MoveAction::Up,
        MoveAction::Home,
        MoveAction::Up,
        MoveAction::Up,
    ];
    for a in actions {
        e.navigate(a, no_run());
        let line = match e.chars.char_at_index(e.cursor) {
            Some(c) => c.line,
            None => 0,
        };
        assert!(e.line_offset <= line);
        assert!(line < e.line_offset + 7);
    }
}

#[test]
fn chars_window_starts_at_viewport_top() {
    let mut e = editor("a\nb\nc\nd\ne\nf\ng\nh\ni");
    for _ in 0..8 {
        e.navigate(MoveAction::Down, no_run());
    }
    assert_eq!(e.line_offset, 2);
    let w = e.chars_window();
    assert_eq!(w[0].char, 'c');
    assert_eq!(w[0].line, 2);
    let full = editor("ab").chars_window();
    assert_eq!(full.len(), 3);
    assert_eq!(full[0].char, 'a');
}

#[test]
fn join_renders_results_comma_separated() {
    assert_eq!(join_displayed(&vec!["4".to_string(), "5".to_string()]), chars("4, 5"));
    assert_eq!(join_displayed(&vec!["4".to_string()]), chars("4"));
    assert_eq!(join_displayed(&Vec::new()), chars(""));
    assert_eq!(render_run(Ok(vec!["a".to_string(), "b".to_string()])), chars("a, b"));
    assert_eq!(render_run(Err("oops".to_string())), chars("oops"));
}

#[test]
fn editing_in_run_mode_keeps_showing_the_output() {
    let mut e = editor("ab");
    e.set_mode(EditorMode::Run, Ok(vec!["9".to_string()]));
    e.write('c');
    assert_eq!(e.code, chars("cab"));
    assert_eq!(e.cursor, 1);
    assert_eq!(e.buffer, chars("9 "));
}

#[test]
fn with_code_clamps_a_cursor_past_the_new_end() {
    let e = editor("abcdef");
    let mut e = e;
    e.set_cursor(SetCursor::Assign, 6);
    let e = e.with_code("ab".to_string());
    assert_eq!(e.cursor, 2);
}

#[test]
fn long_code_wraps_inside_the_editor() {
    let e = editor(&"a".repeat(20));
    // 20 letters plus the trailing blank: 15 on line 0, 6 on the wrapped line
    assert_eq!(e.chars.chars.iter().filter(|c| c.line == 0).count(), 15);
    assert_eq!(e.chars.chars.iter().filter(|c| c.line == 1).count(), 6);
    assert!(e.chars.chars.iter().filter(|c| c.line == 1).all(|c| c.wrapped));
}

#[test]
fn down_moves_through_a_wrapped_line() {
    let mut e = editor(&"a".repeat(20));
    e.navigate(MoveAction::Down, no_run());
    let cell = e.chars.char_at_index(e.cursor).unwrap();
    assert_eq!(cell.line, 1);
    assert_eq!(cell.line_index, 0);
    assert_eq!(e.cursor, 15);
}
