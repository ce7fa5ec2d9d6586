use goto::ui::{
    compute_layout, cursor_move_sequence, desired_popup_height, format_result_line, handle_key,
    header_line, initial_selection, next_selection, parse_cursor_report, previous_selection,
    truncate_for_width, window_start, Key, KeyPress, PickerAction,
};
use goto::models::ProjectType;

#[test]
fn selection_wraps_both_ways() {
    assert_eq!(initial_selection(0), None);
    assert_eq!(initial_selection(3), Some(0));
    assert_eq!(next_selection(Some(0), 3), Some(1));
    assert_eq!(next_selection(Some(2), 3), Some(0));
    assert_eq!(next_selection(None, 3), Some(0));
    assert_eq!(next_selection(Some(5), 0), Some(5));
    assert_eq!(previous_selection(Some(0), 3), Some(2));
    assert_eq!(previous_selection(Some(2), 3), Some(1));
    assert_eq!(previous_selection(None, 3), Some(0));
    assert_eq!(previous_selection(None, 0), None);
}

#[test]
fn layout_prefers_below_then_above() {
    let l = compute_layout(24, 5, 9);
    assert_eq!((l.top_row, l.height), (6, 9));
    let l = compute_layout(24, 20, 9);
    assert_eq!((l.top_row, l.height), (11, 9));
    let l = compute_layout(10, 6, 9);
    assert_eq!((l.top_row, l.height), (0, 6));
    let l = compute_layout(10, 3, 9);
    assert_eq!((l.top_row, l.height), (4, 6));
    let l = compute_layout(1, 0, 9);
    assert_eq!((l.top_row, l.height), (1, 1));
}

#[test]
fn popup_height_and_window() {
    assert_eq!(desired_popup_height(0), 2);
    assert_eq!(desired_popup_height(3), 4);
    assert_eq!(desired_popup_height(100), 9);
    assert_eq!(window_start(5, 8, Some(4)), 0);
    assert_eq!(window_start(20, 8, Some(0)), 0);
    assert_eq!(window_start(20, 8, Some(10)), 6);
    assert_eq!(window_start(20, 8, Some(19)), 12);
    assert_eq!(window_start(20, 8, None), 0);
}

#[test]
fn lines_are_cut_to_width() {
    assert_eq!(truncate_for_width("hello", 0), "");
    assert_eq!(truncate_for_width("hello", 5), "hello");
    assert_eq!(truncate_for_width("hello", 3), "...");
    assert_eq!(truncate_for_width("hello", 2), "..");
    assert_eq!(truncate_for_width("hello world", 8), "hello...");
    assert_eq!(truncate_for_width("héllo wörld", 7), "héll...");
}

#[test]
fn result_lines_and_sequences() {
    assert_eq!(format_result_line(ProjectType::Rust, "goto", "/code/goto"), "[rs] goto  /code/goto");
    assert_eq!(format_result_line(ProjectType::Unknown, "x", "/x"), "[dir] x  /x");
    assert_eq!(header_line("ab"), "goto: ab");
    assert_eq!(cursor_move_sequence(0, 9), "\x1b[10;1H");
}

#[test]
fn keys_edit_the_query_and_navigate() {
    let press = |key, ctrl| KeyPress { key, ctrl };
    let mut q = "foo bar".to_string();
    assert_eq!(handle_key(&mut q, press(Key::Char('w'), true)), PickerAction::Refresh);
    assert_eq!(q, "foo");
    assert_eq!(handle_key(&mut q, press(Key::Char('w'), true)), PickerAction::Refresh);
    assert_eq!(q, "");
    assert_eq!(handle_key(&mut q, press(Key::Char('x'), false)), PickerAction::Refresh);
    assert_eq!(handle_key(&mut q, press(Key::Char('y'), false)), PickerAction::Refresh);
    assert_eq!(q, "xy");
    assert_eq!(handle_key(&mut q, press(Key::Backspace, false)), PickerAction::Refresh);
    assert_eq!(q, "x");
    assert_eq!(handle_key(&mut q, press(Key::Char('k'), false)), PickerAction::SelectPrevious);
    assert_eq!(handle_key(&mut q, press(Key::Char('j'), true)), PickerAction::SelectNext);
    assert_eq!(handle_key(&mut q, press(Key::Char('n'), true)), PickerAction::SelectNext);
    assert_eq!(handle_key(&mut q, press(Key::Char('p'), true)), PickerAction::SelectPrevious);
    assert_eq!(handle_key(&mut q, press(Key::Up, true)), PickerAction::Ignore);
    assert_eq!(handle_key(&mut q, press(Key::Down, false)), PickerAction::SelectNext);
    assert_eq!(q, "x");
    assert_eq!(handle_key(&mut q, press(Key::Char('u'), true)), PickerAction::Refresh);
    assert_eq!(q, "");
    assert_eq!(handle_key(&mut q, press(Key::Backspace, false)), PickerAction::Refresh);
    assert_eq!(q, "");
    assert_eq!(handle_key(&mut q, press(Key::Char('c'), true)), PickerAction::Cancel);
    assert_eq!(handle_key(&mut q, press(Key::Esc, false)), PickerAction::Cancel);
    assert_eq!(handle_key(&mut q, press(Key::Enter, false)), PickerAction::Accept);
}

#[test]
fn cursor_reports_are_read() {
    assert_eq!(parse_cursor_report(b"\x1b[12;40R"), (39, 11));
    assert_eq!(parse_cursor_report(b"\x1b[1;1R"), (0, 0));
    assert_eq!(parse_cursor_report(b"\x1b[x;5R"), (4, 0));
    assert_eq!(parse_cursor_report(b"\x1b[7R"), (0, 6));
    assert_eq!(parse_cursor_report(b"\x1b[+3;70000R"), (0, 2));
    assert_eq!(parse_cursor_report(b"\x1b[0;0R"), (0, 0));
}
