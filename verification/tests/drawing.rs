use bottle::draw::{clear_box, draw_lines, third_of, DrawOp};

fn lines(v: &[&[&str]]) -> Vec<Vec<String>> {
    v.iter().map(|l| l.iter().map(|w| w.to_string()).collect()).collect()
}

fn print(s: &str) -> DrawOp {
    DrawOp::Print(s.to_string())
}

#[test]
fn received_message_goes_left_to_right() {
    let mut out = Vec::new();
    let r = draw_lines(&lines(&[&["hi", "you"]]), false, 10, 2, 40, &mut out);
    assert_eq!(r, Some((8, 2)));
    assert_eq!(
        out,
        vec![
            DrawOp::ColorSet(1),
            DrawOp::Move(10, 2),
            print("hi"),
            DrawOp::AddCh(' '),
            DrawOp::Move(10, 5),
            print("you"),
            DrawOp::AddCh(' '),
            DrawOp::Move(10, 9),
            DrawOp::Move(9, 2),
        ]
    );
}

#[test]
fn sent_message_goes_right_to_left() {
    let mut out = Vec::new();
    let r = draw_lines(&lines(&[&["hi", "you"]]), true, 10, 2, 20, &mut out);
    assert_eq!(r, Some((8, 18)));
    assert_eq!(
        out,
        vec![
            DrawOp::ColorSet(3),
            DrawOp::Move(10, 18),
            DrawOp::Move(10, 14),
            DrawOp::AddCh(' '),
            DrawOp::Move(10, 15),
            print("you"),
            DrawOp::Move(10, 14),
            DrawOp::Move(10, 11),
            DrawOp::AddCh(' '),
            DrawOp::Move(10, 12),
            print("hi"),
            DrawOp::Move(10, 11),
            DrawOp::Move(9, 2),
        ]
    );
}

#[test]
fn last_line_is_drawn_at_the_bottom() {
    let mut out = Vec::new();
    let r = draw_lines(&lines(&[&["a"], &["b"]]), false, 5, 2, 40, &mut out);
    assert_eq!(r, Some((2, 2)));
    assert_eq!(
        out,
        vec![
            DrawOp::ColorSet(1),
            DrawOp::Move(5, 2),
            print("b"),
            DrawOp::AddCh(' '),
            DrawOp::Move(5, 4),
            DrawOp::Move(4, 2),
            print("a"),
            DrawOp::AddCh(' '),
            DrawOp::Move(4, 4),
            DrawOp::Move(3, 2),
        ]
    );
}

#[test]
fn drawing_stops_above_the_window() {
    let mut out = Vec::new();
    let r = draw_lines(&lines(&[&["a"], &["b"]]), false, 0, 2, 40, &mut out);
    assert_eq!(r, Some((-1, 2)));
    assert_eq!(
        out,
        vec![
            DrawOp::ColorSet(1),
            DrawOp::Move(0, 2),
            print("b"),
            DrawOp::AddCh(' '),
            DrawOp::Move(0, 4),
            DrawOp::Move(-1, 2),
        ]
    );
}

#[test]
fn message_fully_visible_ends_one_blank_row_above() {
    let msg = lines(&[&["one"], &["two", "three"], &["four"]]);
    let mut out = Vec::new();
    let r = draw_lines(&msg, true, 2, 2, 30, &mut out);
    assert_eq!(r, Some((2 - 3 - 1, 28)));
}

#[test]
fn overflowing_column_gives_none() {
    let mut out = Vec::new();
    assert_eq!(draw_lines(&lines(&[&["a"]]), true, 3, 2, i32::MIN, &mut out), None);
    let mut out = Vec::new();
    assert_eq!(draw_lines(&lines(&[&["abc"]]), false, 3, i32::MAX - 2, 10, &mut out), None);
}

#[test]
fn empty_message_moves_up_one_row() {
    let mut out = Vec::new();
    let r = draw_lines(&Vec::new(), false, 7, 2, 10, &mut out);
    assert_eq!(r, Some((6, 2)));
    assert_eq!(out, vec![DrawOp::ColorSet(1), DrawOp::Move(7, 2)]);
}

#[test]
fn clear_box_clears_each_row() {
    let mut out = Vec::new();
    assert!(clear_box(1, 3, 2, 10, &mut out));
    assert_eq!(
        out,
        vec![
            DrawOp::ColorSet(2),
            DrawOp::Move(1, 2),
            DrawOp::HLine(' ', 8),
            DrawOp::Move(2, 2),
            DrawOp::HLine(' ', 8),
        ]
    );
    let mut out = Vec::new();
    assert!(clear_box(4, 4, 0, 5, &mut out));
    assert_eq!(out, vec![DrawOp::ColorSet(2)]);
    let mut out = Vec::new();
    assert!(!clear_box(0, 1, -1, i32::MAX, &mut out));
}

#[test]
fn third_rounds_toward_zero() {
    assert_eq!(third_of(80), 26);
    assert_eq!(third_of(2), 0);
    assert_eq!(third_of(-4), -1);
    assert_eq!(third_of(i32::MIN), i32::MIN / 3);
}
