use bottle::chat_window::ChatWindow;
use bottle::draw::DrawOp;
use bottle::input::{InputLine, Key};
use bottle::message::{Message, MsgMetaData, MsgType, Timestamp};

fn lines(v: &[&[&str]]) -> Vec<Vec<String>> {
    v.iter().map(|l| l.iter().map(|w| w.to_string()).collect()).collect()
}

fn meta(to: &str, from: &str, secs: i64) -> MsgMetaData {
    MsgMetaData { to: to.to_string(), from: from.to_string(), timestamp: Timestamp { secs, nanos: 0 } }
}

fn raw(text: &str, secs: i64) -> Message {
    Message::Raw { meta_data: meta("me", "you", secs), text: text.to_string(), msg_type: MsgType::Text }
}

#[test]
fn a_new_window_has_no_history() {
    let w = ChatWindow::new();
    assert!(w.load_old_msgs().is_empty());
}

#[test]
fn messages_are_a_third_of_the_window_wide() {
    let w = ChatWindow::new();
    assert_eq!(w.max_msg_width(80), 26);
    assert_eq!(w.max_msg_width(-7), -2);
}

#[test]
fn composed_messages_carry_the_text() {
    let w = ChatWindow::new();
    let t1 = Timestamp { secs: 10, nanos: 1 };
    let t2 = Timestamp { secs: 11, nanos: 2 };
    let (sent, shown) = w.send_msg(30, &"hello there".to_string(), t1, t2);
    assert_eq!(
        sent,
        Message::Raw {
            meta_data: MsgMetaData { to: "you".to_string(), from: "me".to_string(), timestamp: t1 },
            text: "hello there".to_string(),
            msg_type: MsgType::Text,
        }
    );
    assert_eq!(
        shown,
        Message::Text {
            meta_data: MsgMetaData { to: "you".to_string(), from: "me".to_string(), timestamp: t2 },
            msg_lines: lines(&[&["hello"], &["there"]]),
        }
    );
}

#[test]
fn incoming_raw_messages_are_wrapped_until_another_kind_comes() {
    let mut w = ChatWindow::new();
    w.receive(raw("one two", 1));
    w.receive(raw("three", 2));
    w.receive(Message::Image { meta_data: meta("me", "you", 3), url: "u".to_string() });
    w.receive(raw("four", 4));
    let mut old = Vec::new();
    w.take_incoming(15, &mut old);
    assert_eq!(
        old,
        vec![
            Message::Text { meta_data: meta("me", "you", 1), msg_lines: lines(&[&["one"], &["two"]]) },
            Message::Text { meta_data: meta("me", "you", 2), msg_lines: lines(&[&["three"]]) },
        ]
    );
    // The image was dropped; the last raw message waits for the next call.
    w.take_incoming(15, &mut old);
    assert_eq!(old.len(), 3);
    assert_eq!(
        old[2],
        Message::Text { meta_data: meta("me", "you", 4), msg_lines: lines(&[&["four"]]) }
    );
    w.take_incoming(15, &mut old);
    assert_eq!(old.len(), 3);
}

#[test]
fn border_is_a_line_above_the_input_box() {
    let w = ChatWindow::new();
    let mut out = Vec::new();
    assert!(w.border(24, 80, &mut out));
    assert_eq!(out, vec![DrawOp::ColorSet(5), DrawOp::Move(17, 1), DrawOp::HLine('-', 78)]);
    let mut out = Vec::new();
    assert!(!w.border(i32::MIN + 3, 80, &mut out));
}

#[test]
fn text_messages_are_drawn_on_their_side() {
    let w = ChatWindow::new();
    let mine = Message::Text { meta_data: meta("you", "me", 0), msg_lines: lines(&[&["ok"]]) };
    let theirs = Message::Text { meta_data: meta("me", "you", 0), msg_lines: lines(&[&["ok"]]) };
    let mut out = Vec::new();
    assert_eq!(w.draw_msg(20, &mine, 5, 2, &mut out), Some((3, 18)));
    assert_eq!(out[0], DrawOp::ColorSet(3));
    let mut out = Vec::new();
    assert_eq!(w.draw_msg(20, &theirs, 5, 2, &mut out), Some((3, 2)));
    assert_eq!(out[0], DrawOp::ColorSet(1));
}

#[test]
fn other_messages_draw_nothing() {
    let w = ChatWindow::new();
    let img = Message::Image { meta_data: meta("me", "you", 0), url: "x".to_string() };
    let mut out = Vec::new();
    assert_eq!(w.draw_msg(20, &img, 5, 2, &mut out), Some((5, 2)));
    assert_eq!(w.draw_msg(20, &raw("hi", 0), 5, 2, &mut out), Some((5, 2)));
    assert_eq!(w.draw_img_msg(&img, 7, 1), (7, 1));
    assert!(out.is_empty());
}

#[test]
fn conversation_is_cleared_bordered_and_stacked() {
    let w = ChatWindow::new();
    let msgs = vec![
        Message::Text { meta_data: meta("me", "you", 0), msg_lines: lines(&[&["a"]]) },
        Message::Text { meta_data: meta("me", "you", 0), msg_lines: lines(&[&["b"]]) },
    ];
    let mut out = Vec::new();
    assert!(w.draw_old_msgs(10, 20, &msgs, &mut out));
    let mut expected = vec![DrawOp::ColorSet(2)];
    for y in 1..4 {
        expected.push(DrawOp::Move(y, 2));
        expected.push(DrawOp::HLine(' ', 18));
    }
    expected.extend([DrawOp::ColorSet(5), DrawOp::Move(3, 1), DrawOp::HLine('-', 18)]);
    expected.extend([
        DrawOp::ColorSet(1),
        DrawOp::Move(2, 2),
        DrawOp::Print("b".to_string()),
        DrawOp::AddCh(' '),
        DrawOp::Move(2, 4),
        DrawOp::Move(1, 2),
        DrawOp::ColorSet(1),
        DrawOp::Move(0, 2),
        DrawOp::Print("a".to_string()),
        DrawOp::AddCh(' '),
        DrawOp::Move(0, 4),
        DrawOp::Move(-1, 2),
    ]);
    assert_eq!(out, expected);
}

#[test]
fn input_box_is_cleared_and_the_text_drawn() {
    let w = ChatWindow::new();
    let mut input = InputLine { active_msg: "ab c".to_string(), x: 3 };
    let mut out = Vec::new();
    assert!(w.draw_input(24, 80, 79, &mut input, &mut out));
    assert_eq!(input.x, 6);
    assert_eq!(input.active_msg, "ab c");
    let mut expected = vec![DrawOp::ColorSet(2)];
    for y in 18..24 {
        expected.push(DrawOp::Move(y, 2));
        expected.push(DrawOp::HLine(' ', 77));
    }
    expected.extend([
        DrawOp::ColorSet(4),
        DrawOp::Move(18, 1),
        DrawOp::AddCh(' '),
        DrawOp::Print("ab".to_string()),
        DrawOp::Move(18, 4),
        DrawOp::AddCh(' '),
        DrawOp::Print("c".to_string()),
        DrawOp::Move(18, 6),
    ]);
    assert_eq!(out, expected);
}

#[test]
fn clearing_the_input_box_spans_its_rows() {
    let w = ChatWindow::new();
    let mut out = Vec::new();
    assert!(w.clr_input_box(8, 10, &mut out));
    assert_eq!(
        out,
        vec![
            DrawOp::ColorSet(2),
            DrawOp::Move(2, 2),
            DrawOp::HLine(' ', 7),
            DrawOp::Move(3, 2),
            DrawOp::HLine(' ', 7),
            DrawOp::Move(4, 2),
            DrawOp::HLine(' ', 7),
            DrawOp::Move(5, 2),
            DrawOp::HLine(' ', 7),
            DrawOp::Move(6, 2),
            DrawOp::HLine(' ', 7),
            DrawOp::Move(7, 2),
            DrawOp::HLine(' ', 7),
        ]
    );
}

#[test]
fn waiting_raw_messages_are_all_shown_in_order() {
    let mut w = ChatWindow::new();
    w.receive(raw("first", 1));
    w.receive(raw("second one", 2));
    let mut old = vec![Message::Image { meta_data: meta("me", "you", 0), url: "x".to_string() }];
    w.take_incoming(60, &mut old);
    assert_eq!(old.len(), 3);
    assert_eq!(old[1], Message::Text { meta_data: meta("me", "you", 1), msg_lines: lines(&[&["first"]]) });
    assert_eq!(
        old[2],
        Message::Text { meta_data: meta("me", "you", 2), msg_lines: lines(&[&["second", "one"]]) }
    );
    w.take_incoming(60, &mut old);
    assert_eq!(old.len(), 3);
}

#[test]
fn a_key_press_edits_and_redraws_the_input_box() {
    let w = ChatWindow::new();
    let mut input = InputLine { active_msg: "a".to_string(), x: 3 };
    let mut history = Vec::new();
    let t = Timestamp { secs: 0, nanos: 0 };
    let mut out = Vec::new();
    let r = w.on_key(&mut input, &mut history, Key::Character('b'), 24, 80, 79, t, t, &mut out);
    assert_eq!(r, Some(None));
    assert_eq!(input, InputLine { active_msg: "ab".to_string(), x: 4 });
    assert!(history.is_empty());
    let mut expected = Vec::new();
    let mut box_input = InputLine { active_msg: "ab".to_string(), x: 4 };
    assert!(w.draw_input(24, 80, 79, &mut box_input, &mut expected));
    assert_eq!(out, expected);
    assert_eq!(input.x, box_input.x);
}

#[test]
fn an_ignored_key_draws_nothing() {
    let w = ChatWindow::new();
    let mut input = InputLine { active_msg: "a".to_string(), x: 3 };
    let mut history = Vec::new();
    let t = Timestamp { secs: 0, nanos: 0 };
    let mut out = Vec::new();
    assert_eq!(w.on_key(&mut input, &mut history, Key::Other, 24, 80, 79, t, t, &mut out), Some(None));
    assert!(out.is_empty());
    assert_eq!(input, InputLine { active_msg: "a".to_string(), x: 3 });
}

#[test]
fn a_sent_line_goes_to_the_history_and_the_server() {
    let w = ChatWindow::new();
    let mut input = InputLine { active_msg: "hi".to_string(), x: 4 };
    let mut history = vec![Message::Text { meta_data: meta("me", "you", 0), msg_lines: lines(&[&["yo"]]) }];
    let t1 = Timestamp { secs: 5, nanos: 0 };
    let t2 = Timestamp { secs: 6, nanos: 0 };
    let mut out = Vec::new();
    let r = w.on_key(&mut input, &mut history, Key::Enter, 24, 80, 79, t1, t2, &mut out);
    assert_eq!(
        r,
        Some(Some(Message::Raw {
            meta_data: MsgMetaData { to: "you".to_string(), from: "me".to_string(), timestamp: t1 },
            text: "hi".to_string(),
            msg_type: MsgType::Text,
        }))
    );
    assert_eq!(history.len(), 2);
    assert_eq!(
        history[1],
        Message::Text {
            meta_data: MsgMetaData { to: "you".to_string(), from: "me".to_string(), timestamp: t2 },
            msg_lines: lines(&[&["hi"]]),
        }
    );
    assert_eq!(input.active_msg, "");
    let mut expected = Vec::new();
    assert!(w.clr_box(1, 18, 2, 80, &mut expected));
    assert!(w.border(24, 80, &mut expected));
    assert!(w.draw_old_msgs(24, 80, &history, &mut expected));
    let mut box_input = InputLine { active_msg: String::new(), x: 2 };
    assert!(w.draw_input(24, 80, 79, &mut box_input, &mut expected));
    assert_eq!(out, expected);
}

#[test]
fn an_empty_line_is_not_sent() {
    let w = ChatWindow::new();
    let mut input = InputLine::new();
    let mut history = Vec::new();
    let t = Timestamp { secs: 0, nanos: 0 };
    let mut out = Vec::new();
    assert_eq!(w.on_key(&mut input, &mut history, Key::Enter, 24, 80, 79, t, t, &mut out), Some(None));
    assert!(history.is_empty());
}

#[test]
fn refresh_takes_the_waiting_messages_and_draws() {
    let mut w = ChatWindow::new();
    w.receive(raw("hello", 1));
    let mut history = Vec::new();
    let mut out = Vec::new();
    assert!(w.refresh(&mut history, 24, 60, &mut out));
    assert_eq!(history.len(), 1);
    let mut expected = Vec::new();
    assert!(w.draw_old_msgs(24, 60, &history, &mut expected));
    assert_eq!(out, expected);
}
