use bottle::chat_window::ChatWindow;
use bottle::draw::DrawOp;
use bottle::input::{draw_typed_lines, EditAction, InputLine, Key, KeyOutcome};
use bottle::local_chat;

fn typed(s: &str, x: i32) -> InputLine {
    InputLine { active_msg: s.to_string(), x }
}

#[test]
fn characters_are_added_and_move_the_cursor() {
    let w = ChatWindow::new();
    let mut input = InputLine::new();
    assert_eq!(input, typed("", 2));
    assert_eq!(w.handle_key(&mut input, Key::Character('h')), Some(KeyOutcome::Edited));
    assert_eq!(w.handle_key(&mut input, Key::Character('é')), Some(KeyOutcome::Edited));
    assert_eq!(input, typed("hé", 4));
}

#[test]
fn control_characters_change_nothing_but_redraw() {
    let w = ChatWindow::new();
    let mut input = typed("ab", 4);
    assert_eq!(w.handle_key(&mut input, Key::Character('\u{1}')), Some(KeyOutcome::Edited));
    assert_eq!(w.handle_key(&mut input, Key::Character('\u{85}')), Some(KeyOutcome::Edited));
    assert_eq!(input, typed("ab", 4));
}

#[test]
fn every_removal_key_removes_the_last_character() {
    let w = ChatWindow::new();
    let mut input = typed("abcde", 7);
    for key in [Key::Backspace, Key::Delete, Key::Character('\u{8}'), Key::Character('\u{7f}')] {
        assert_eq!(w.handle_key(&mut input, key), Some(KeyOutcome::Edited));
    }
    assert_eq!(input, typed("a", 3));
}

#[test]
fn removing_from_an_empty_line_changes_nothing() {
    let w = ChatWindow::new();
    let mut input = typed("", 5);
    assert_eq!(w.handle_key(&mut input, Key::Backspace), Some(KeyOutcome::Edited));
    assert_eq!(input, typed("", 5));
}

#[test]
fn enter_sends_the_line() {
    let w = ChatWindow::new();
    for key in [Key::Enter, Key::Character('\n'), Key::Character('\r')] {
        let mut input = typed("hi there", 9);
        assert_eq!(
            w.handle_key(&mut input, key),
            Some(KeyOutcome::Submitted("hi there".to_string()))
        );
        assert_eq!(input, typed("", 2));
    }
}

#[test]
fn enter_on_an_empty_line_sends_nothing() {
    let w = ChatWindow::new();
    let mut input = typed("", 6);
    assert_eq!(w.handle_key(&mut input, Key::Enter), Some(KeyOutcome::Edited));
    assert_eq!(input, typed("", 6));
}

#[test]
fn other_keys_are_ignored() {
    let w = ChatWindow::new();
    let mut input = typed("x", 3);
    assert_eq!(w.handle_key(&mut input, Key::Other), Some(KeyOutcome::Ignored));
    assert_eq!(input, typed("x", 3));
}

#[test]
fn cursor_overflow_gives_none_and_keeps_the_line() {
    let w = ChatWindow::new();
    let mut input = typed("x", i32::MAX);
    assert_eq!(w.handle_key(&mut input, Key::Character('y')), None);
    assert_eq!(input, typed("x", i32::MAX));
    let mut input = typed("x", i32::MIN);
    assert_eq!(w.handle_key(&mut input, Key::Backspace), None);
    assert_eq!(input, typed("x", i32::MIN));
}

#[test]
fn push_then_pop_restores_the_line() {
    let mut input = typed("ab", 4);
    assert_eq!(input.apply(EditAction::Push('z')), Some(KeyOutcome::Edited));
    assert_eq!(input.apply(EditAction::Pop), Some(KeyOutcome::Edited));
    assert_eq!(input, typed("ab", 4));
}

#[test]
fn test_chat_ignores_the_backspace_key() {
    let mut input = typed("ab", 4);
    assert_eq!(local_chat::handle_key(&mut input, Key::Backspace), Some(KeyOutcome::Ignored));
    assert_eq!(input, typed("ab", 4));
    assert_eq!(local_chat::handle_key(&mut input, Key::Character('\u{7f}')), Some(KeyOutcome::Edited));
    assert_eq!(input, typed("a", 3));
    assert_eq!(local_chat::handle_key(&mut input, Key::Character('\u{1b}')), Some(KeyOutcome::Edited));
    assert_eq!(
        local_chat::handle_key(&mut input, Key::Character('\r')),
        Some(KeyOutcome::Submitted("a".to_string()))
    );
    assert_eq!(input, typed("", 2));
}

#[test]
fn typed_lines_are_drawn_from_the_bottom_row_up() {
    let disp = vec![
        vec!["ab".to_string()],
        vec!["cd".to_string(), "e".to_string()],
    ];
    let mut out = Vec::new();
    assert_eq!(draw_typed_lines(&disp, 18, 2, &mut out), Some(4));
    assert_eq!(
        out,
        vec![
            DrawOp::ColorSet(4),
            DrawOp::Move(18, 1),
            DrawOp::AddCh(' '),
            DrawOp::Print("cd".to_string()),
            DrawOp::Move(18, 4),
            DrawOp::AddCh(' '),
            DrawOp::Print("e".to_string()),
            DrawOp::Move(18, 6),
            DrawOp::Move(17, 1),
            DrawOp::AddCh(' '),
            DrawOp::Print("ab".to_string()),
            DrawOp::Move(17, 4),
        ]
    );
}

#[test]
fn typed_lines_stop_above_the_window() {
    let disp = vec![vec!["ab".to_string()], vec!["c".to_string()]];
    let mut out = Vec::new();
    assert_eq!(draw_typed_lines(&disp, 0, 9, &mut out), Some(1));
    assert_eq!(
        out,
        vec![
            DrawOp::ColorSet(4),
            DrawOp::Move(0, 1),
            DrawOp::AddCh(' '),
            DrawOp::Print("c".to_string()),
            DrawOp::Move(0, 3),
            DrawOp::Move(-1, 1),
        ]
    );
}
