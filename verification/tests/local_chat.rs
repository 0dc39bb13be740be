use bottle::draw::DrawOp;
use bottle::input::{InputLine, Key};
use bottle::local_chat::{
    border, clr_input_box, draw_input, draw_msg, gen_test_msg, get_msg_str, load_old_msgs,
    max_msg_width, on_key, process_incoming_msg, send_msg, update_old_msgs_view, Content, DispMsg,
    Message,
};

fn lines(v: &[&[&str]]) -> Vec<Vec<String>> {
    v.iter().map(|l| l.iter().map(|w| w.to_string()).collect()).collect()
}

#[test]
fn test_message_is_from_you_to_me() {
    let m = gen_test_msg("ha");
    assert_eq!(
        m,
        Message {
            m_type: "text".to_string(),
            to: "me".to_string(),
            from: "you".to_string(),
            timestamp: "000".to_string(),
            content: Content { text: Some("ha".to_string()), url: None },
        }
    );
}

#[test]
fn incoming_message_is_always_test() {
    assert_eq!(process_incoming_msg(), Some("test".to_string()));
}

#[test]
fn stored_messages_are_wrapped_and_received() {
    let msgs = load_old_msgs(30);
    assert_eq!(msgs.len(), 5);
    assert_eq!(msgs[0].lines, lines(&[&["this", "is", "an"], &["old"], &["message"]]));
    assert_eq!(msgs[2].lines, lines(&[&["ha"]]));
    assert_eq!(msgs[3].lines, lines(&[&["hello"]]));
    assert!(msgs.iter().all(|m| !m.usr_snt));
    let words: Vec<String> = msgs[1].lines.iter().flatten().cloned().collect();
    assert_eq!(
        words.join(" "),
        "this is a really really long old message that will hopefully cause the thing to wrap a couple times"
    );
}

#[test]
fn message_without_text_has_no_lines() {
    let mut m = gen_test_msg("x");
    m.content.text = None;
    assert!(get_msg_str(30, &m).is_empty());
    assert_eq!(max_msg_width(30), 10);
}

#[test]
fn typed_message_is_shown_as_sent() {
    let m = send_msg(30, &"hello there".to_string());
    assert_eq!(m, DispMsg { lines: lines(&[&["hello"], &["there"]]), usr_snt: true });
}

#[test]
fn border_frames_the_window() {
    let mut out = Vec::new();
    assert!(border(24, 80, &mut out));
    assert_eq!(
        out,
        vec![
            DrawOp::ColorSet(5),
            DrawOp::Border('|', '|', ' ', '_', '/', '\\', '\\', '/'),
            DrawOp::Move(17, 0),
            DrawOp::HLine('-', 80),
        ]
    );
}

#[test]
fn sent_message_is_right_justified() {
    let m = DispMsg { lines: lines(&[&["ab"]]), usr_snt: true };
    let mut out = Vec::new();
    assert_eq!(draw_msg(20, &m, 4, 2, &mut out), Some((2, 18)));
    assert_eq!(
        out,
        vec![
            DrawOp::ColorSet(3),
            DrawOp::Move(4, 18),
            DrawOp::Move(4, 15),
            DrawOp::AddCh(' '),
            DrawOp::Move(4, 16),
            DrawOp::Print("ab".to_string()),
            DrawOp::Move(4, 15),
            DrawOp::Move(3, 2),
        ]
    );
}

#[test]
fn input_box_clearing_selects_the_background_first() {
    let mut out = Vec::new();
    assert!(clr_input_box(7, 10, &mut out));
    assert_eq!(out[0], DrawOp::ColorSet(2));
    assert_eq!(out[1], DrawOp::ColorSet(2));
    assert_eq!(out.len(), 2 + 2 * 6);
    assert_eq!(out[2], DrawOp::Move(1, 2));
    assert_eq!(out[3], DrawOp::HLine(' ', 7));
}

#[test]
fn conversation_view_stacks_the_messages() {
    let msgs = vec![
        DispMsg { lines: lines(&[&["a"]]), usr_snt: false },
        DispMsg { lines: lines(&[&["b"]]), usr_snt: true },
    ];
    let mut out = Vec::new();
    assert!(update_old_msgs_view(12, 20, &msgs, 12, 20, &mut out));
    let mut expected = vec![DrawOp::ColorSet(2)];
    for y in 1..6 {
        expected.push(DrawOp::Move(y, 2));
        expected.push(DrawOp::HLine(' ', 18));
    }
    expected.extend([
        DrawOp::ColorSet(5),
        DrawOp::Border('|', '|', ' ', '_', '/', '\\', '\\', '/'),
        DrawOp::Move(5, 0),
        DrawOp::HLine('-', 20),
        DrawOp::ColorSet(2),
        DrawOp::ColorSet(3),
        DrawOp::Move(4, 18),
        DrawOp::Move(4, 16),
        DrawOp::AddCh(' '),
        DrawOp::Move(4, 17),
        DrawOp::Print("b".to_string()),
        DrawOp::Move(4, 16),
        DrawOp::Move(3, 2),
        DrawOp::ColorSet(1),
        DrawOp::Move(2, 2),
        DrawOp::Print("a".to_string()),
        DrawOp::AddCh(' '),
        DrawOp::Move(2, 4),
        DrawOp::Move(1, 2),
    ]);
    assert_eq!(out, expected);
}

#[test]
fn input_box_wraps_the_typed_text() {
    let mut input = InputLine { active_msg: "abc de".to_string(), x: 8 };
    let mut out = Vec::new();
    // The box's right edge at column 10 wraps at 4 characters.
    assert!(draw_input(24, 80, 10, &mut input, &mut out));
    assert_eq!(input.x, 5);
    let typed: Vec<DrawOp> = out.iter().skip(2 + 2 * 6).cloned().collect();
    assert_eq!(
        typed,
        vec![
            DrawOp::ColorSet(4),
            DrawOp::Move(18, 1),
            DrawOp::AddCh(' '),
            DrawOp::Print("de".to_string()),
            DrawOp::Move(18, 4),
            DrawOp::Move(17, 1),
            DrawOp::AddCh(' '),
            DrawOp::Print("abc".to_string()),
            DrawOp::Move(17, 5),
        ]
    );
}

#[test]
fn test_chat_history_is_stored_then_sent() {
    let mut history = load_old_msgs(30);
    let mut input = InputLine { active_msg: "ok".to_string(), x: 4 };
    let mut out = Vec::new();
    assert!(on_key(&mut input, &mut history, Key::Character('\n'), 24, 30, 29, &mut out));
    assert_eq!(history.len(), 6);
    assert_eq!(history[5], DispMsg { lines: lines(&[&["ok"]]), usr_snt: true });
    assert_eq!(&history[..5], &load_old_msgs(30)[..]);
    let mut expected = Vec::new();
    assert!(update_old_msgs_view(24, 30, &history, 24, 30, &mut expected));
    let mut box_input = InputLine { active_msg: String::new(), x: 2 };
    assert!(draw_input(24, 30, 29, &mut box_input, &mut expected));
    assert_eq!(out, expected);
    let mut out = Vec::new();
    assert!(on_key(&mut input, &mut history, Key::Backspace, 24, 30, 29, &mut out));
    assert!(out.is_empty());
    assert_eq!(history.len(), 6);
}
