//! The test chat: a window with a few stored messages, where what is typed
//! is shown as sent and goes nowhere.
//!
//! As in the other chat window, the window's size is handed in as `max_y`
//! (rows) and `max_x` (columns), and what is to be drawn comes back as
//! commands.

use vstd::prelude::*;
use crate::draw::{
    clear_box, clear_box_ops, draw_lines, emit, in_i32, sub_i32, text_layout, third, third_of,
    DrawOp, Op, INPUT_BOX_HEIGHT, INPUT_BOX_LEFT, PAIR_BORDER, PAIR_DEFAULT,
};
use crate::input::{
    draw_typed_lines, edit_result, is_control, is_control_char, typed_layout, EditAction, InputLine,
    Key, KeyOutcome, OutcomeView,
};
use crate::wrap::{
    is_wrapping, join_lines, lemma_wrap_keeps_words, lemma_wrap_text_is_wrapping, split_spaces, wrap_text,
};

verus! {

/// What a message holds: text, or the address of something to show.
#[derive(Clone, Debug, PartialEq, Eq)]
pub struct Content {
    pub text: Option<String>,
    pub url: Option<String>,
}

/// A stored message.
#[derive(Clone, Debug, PartialEq, Eq)]
pub struct Message {
    pub m_type: String,
    pub to: String,
    pub from: String,
    pub timestamp: String,
    pub content: Content,
}

/// A message ready to be drawn: its lines of words, and whether this side
/// sent it.
#[derive(Clone, Debug, PartialEq, Eq)]
pub struct DispMsg {
    pub lines: Vec<Vec<String>>,
    pub usr_snt: bool,
}

/// A stored message, as mathematical values.
pub struct MessageView {
    pub m_type: Seq<char>,
    pub to: Seq<char>,
    pub from: Seq<char>,
    pub timestamp: Seq<char>,
    pub text: Option<Seq<char>>,
    pub url: Option<Seq<char>>,
}

/// A message ready to be drawn, as mathematical values.
pub struct DispView {
    pub lines: Seq<Seq<Seq<char>>>,
    pub usr_snt: bool,
}

impl DeepView for Message {
    type V = MessageView;

    open spec fn deep_view(&self) -> MessageView {
        MessageView {
            m_type: self.m_type@,
            to: self.to@,
            from: self.from@,
            timestamp: self.timestamp@,
            text: self.content.text.deep_view(),
            url: self.content.url.deep_view(),
        }
    }
}

impl DeepView for DispMsg {
    type V = DispView;

    open spec fn deep_view(&self) -> DispView {
        DispView { lines: self.lines.deep_view(), usr_snt: self.usr_snt }
    }
}

/// The test message with text `s`: a text message to "me" from "you", at
/// time "000".
pub open spec fn test_msg(s: Seq<char>) -> MessageView {
    MessageView {
        m_type: "text"@,
        to: "me"@,
        from: "you"@,
        timestamp: "000"@,
        text: Some(s),
        url: None,
    }
}

/// The texts of the stored messages, oldest first.
pub open spec fn old_msg_texts() -> Seq<Seq<char>> {
    seq![
        "this is an old message"@,
        "this is a really really long old message that will hopefully cause the thing to wrap a couple times"@,
        "ha"@,
        "hello"@,
        "pls stop ignoring my texts"@,
    ]
}

/// The lines of a message in a window `max_x` columns wide: its text wrapped
/// at a third of the width, or no line if it has no text.
pub open spec fn msg_lines(m: MessageView, max_x: int) -> Seq<Seq<Seq<char>>> {
    match m.text {
        Some(t) => wrap_text(third(max_x), t),
        None => Seq::empty(),
    }
}

/// The border: the window's frame, and a line of dashes across the window
/// above the input box.
pub open spec fn border_ops(max_y: int, max_x: int) -> Seq<Op> {
    seq![
        Op::ColorSet(PAIR_BORDER),
        Op::Border('|', '|', ' ', '_', '/', '\\', '\\', '/'),
        Op::Move(max_y - INPUT_BOX_HEIGHT - 1, 0),
        Op::HLine('-', max_x),
    ]
}

/// Whether the values of the border fit in an `i32`.
pub open spec fn border_fits(max_y: int) -> bool {
    in_i32(max_y - INPUT_BOX_HEIGHT) && in_i32(max_y - INPUT_BOX_HEIGHT - 1)
}

/// The row reached after drawing messages, the commands, and whether every
/// value computed fits in an `i32`.
pub struct Stack {
    pub y: int,
    pub ops: Seq<Op>,
    pub fits: bool,
}

/// Drawing the last `k` messages upwards from row `y0`, the newest first,
/// each one starting on the row where the one below it ended, at the left
/// edge of the input box.
pub open spec fn stack_msgs(msgs: Seq<DispView>, k: nat, y0: int, max_x: int) -> Stack
    decreases k,
{
    if k == 0 {
        Stack { y: y0, ops: Seq::empty(), fits: true }
    } else {
        let prev = stack_msgs(msgs, (k - 1) as nat, y0, max_x);
        let m = msgs[msgs.len() - k];
        let l = text_layout(m.usr_snt, m.lines, prev.y, INPUT_BOX_LEFT as int, max_x);
        Stack { y: l.y, ops: prev.ops + l.ops, fits: prev.fits && l.fits }
    }
}

/// The conversation in a window of `max_y` rows and `max_x` columns, the
/// messages area being `h` rows and `w` columns: that area is cleared, the
/// border drawn, the background color selected and the messages stacked
/// upwards from two rows above the border, the newest at the bottom.
pub open spec fn conversation(msgs: Seq<DispView>, max_y: int, max_x: int, h: int, w: int) -> Stack {
    let s = stack_msgs(msgs, msgs.len(), h - INPUT_BOX_HEIGHT - 2, max_x);
    Stack {
        y: s.y,
        ops: clear_box_ops(1, h - INPUT_BOX_HEIGHT, INPUT_BOX_LEFT as int, w) + border_ops(max_y, max_x)
            + seq![Op::ColorSet(PAIR_DEFAULT)] + s.ops,
        fits: in_i32(h - INPUT_BOX_HEIGHT) && in_i32(w - INPUT_BOX_LEFT) && border_fits(max_y)
            && in_i32(h - INPUT_BOX_HEIGHT - 2) && s.fits,
    }
}

/// Clearing the input box: the background color is selected, then the
/// bottom rows are cleared from the left edge of the box to the last column
/// but one.
pub open spec fn input_box_clear_ops(max_y: int, max_x: int) -> Seq<Op> {
    seq![Op::ColorSet(PAIR_DEFAULT)] + clear_box_ops(
        max_y - INPUT_BOX_HEIGHT,
        max_y,
        INPUT_BOX_LEFT as int,
        max_x - 1,
    )
}

/// Whether the values of clearing the input box fit in an `i32`.
pub open spec fn input_box_clear_fits(max_y: int, max_x: int) -> bool {
    in_i32(max_y - INPUT_BOX_HEIGHT) && in_i32(max_x - 1) && in_i32(max_x - 1 - INPUT_BOX_LEFT)
}

/// Drawing the input box, whose right edge is at column `right`: it is
/// cleared, and the typed text, wrapped, is drawn upwards from its top row.
pub open spec fn input_box(max_y: int, max_x: int, right: int, text: Seq<char>, x: int) -> crate::draw::Cursor {
    let typed = typed_layout(wrap_text(right - INPUT_BOX_LEFT - 4, text), max_y - INPUT_BOX_HEIGHT, x);
    crate::draw::Cursor {
        y: typed.y,
        x: typed.x,
        ops: input_box_clear_ops(max_y, max_x) + typed.ops,
        stopped: typed.stopped,
        fits: in_i32(right - INPUT_BOX_LEFT) && in_i32(right - INPUT_BOX_LEFT - 4) && input_box_clear_fits(
            max_y,
            max_x,
        ) && typed.fits,
    }
}

/// The input box shows the typed text wrapped at `right - INPUT_BOX_LEFT - 4`
/// columns: its commands clear the box, then draw, upwards from the box's top
/// row, lines that are a wrapping of the text at that width (every word in
/// order, no empty line, each line one word or under the width, each closed
/// only when the next word would reach the width).
pub proof fn lemma_input_box_wraps(max_y: int, max_x: int, right: int, text: Seq<char>, x: int)
    ensures
        exists|lines: Seq<Seq<Seq<char>>>|
            #[trigger] is_wrapping(right - INPUT_BOX_LEFT - 4, text, lines)
                && input_box(max_y, max_x, right, text, x).ops == input_box_clear_ops(max_y, max_x)
                + typed_layout(lines, max_y - INPUT_BOX_HEIGHT, x).ops,
{
    let w = right - INPUT_BOX_LEFT - 4;
    lemma_wrap_text_is_wrapping(w, text);
    assert(is_wrapping(w, text, wrap_text(w, text)));
}

/// What a key press does to the line being typed: the delete key, backspace
/// (U+0008) and delete (U+007F) remove the last character; the enter key, a
/// line feed and a carriage return send the line; another control character
/// does nothing, and any other character is added. Any other key, the
/// backspace key among them, is of no use.
pub open spec fn key_action(key: Key) -> EditAction {
    match key {
        Key::Delete => EditAction::Pop,
        Key::Enter => EditAction::Submit,
        Key::Character(c) => if is_control_char(c) {
            if c == '\n' || c == '\r' {
                EditAction::Submit
            } else if c == '\u{8}' || c == '\u{7f}' {
                EditAction::Pop
            } else {
                EditAction::Keep
            }
        } else {
            EditAction::Push(c)
        },
        _ => EditAction::Ignore,
    }
}

/// Checks for incoming messages: there is always the one with text "test".
pub fn process_incoming_msg() -> (r: Option<String>)
    ensures
        r matches Some(s) && s@ == "test"@,
{
    Some("test".to_string())
}

/// The test message with text `s`.
pub fn gen_test_msg(s: &str) -> (m: Message)
    ensures
        m.deep_view() == test_msg(s@),
{
    Message {
        m_type: "text".to_string(),
        to: "me".to_string(),
        from: "you".to_string(),
        timestamp: "000".to_string(),
        content: Content { text: Some(s.to_string()), url: None },
    }
}

/// The stored messages, each wrapped for a window `max_x` columns wide, none
/// of them sent from this side.
pub fn load_old_msgs(max_x: i32) -> (msgs: Vec<DispMsg>)
    ensures
        msgs@.len() == old_msg_texts().len(),
        forall|i: int|
            0 <= i < msgs@.len() ==> #[trigger] msgs@[i].deep_view() == (DispView {
                lines: wrap_text(third(max_x as int), old_msg_texts()[i]),
                usr_snt: false,
            }),
        msgs.deep_view() == stored_msgs(max_x as int),
{
    let mut old_msgs: Vec<Message> = Vec::new();
    old_msgs.push(gen_test_msg("this is an old message"));
    old_msgs.push(
        gen_test_msg(
            "this is a really really long old message that will hopefully cause the thing to wrap a couple times",
        ),
    );
    old_msgs.push(gen_test_msg("ha"));
    old_msgs.push(gen_test_msg("hello"));
    old_msgs.push(gen_test_msg("pls stop ignoring my texts"));
    assert(forall|i: int|
        0 <= i < old_msgs@.len() ==> #[trigger] old_msgs@[i].deep_view().text == Some(old_msg_texts()[i]));
    let mut res: Vec<DispMsg> = Vec::new();
    let n = old_msgs.len();
    let mut i: usize = 0;
    while i < n
        invariant
            n == old_msgs@.len(),
            n == old_msg_texts().len(),
            i <= n,
            res@.len() == i,
            forall|j: int|
                0 <= j < old_msgs@.len() ==> #[trigger] old_msgs@[j].deep_view().text == Some(
                    old_msg_texts()[j],
                ),
            forall|j: int|
                0 <= j < i ==> #[trigger] res@[j].deep_view() == (DispView {
                    lines: wrap_text(third(max_x as int), old_msg_texts()[j]),
                    usr_snt: false,
                }),
        decreases n - i,
    {
        let lines = get_msg_str(max_x, &old_msgs[i]);
        res.push(DispMsg { lines, usr_snt: false });
        i = i + 1;
    }
    assert(res.deep_view() =~= stored_msgs(max_x as int));
    res
}

/// The width at which messages are wrapped in a window `max_x` columns wide:
/// a third of it.
pub fn max_msg_width(max_x: i32) -> (w: i32)
    ensures
        w == third(max_x as int),
{
    third_of(max_x)
}

/// The lines of a message in a window `max_x` columns wide: those of
/// `msg_lines`.
pub fn get_msg_str(max_x: i32, msg: &Message) -> (lines: Vec<Vec<String>>)
    ensures
        lines.deep_view() == msg_lines(msg.deep_view(), max_x as int),
{
    let wrap_width = max_msg_width(max_x);
    if let Some(txt) = &msg.content.text {
        return crate::wrap::wrap_str(wrap_width, txt);
    } else {
        let lines: Vec<Vec<String>> = Vec::new();
        assert(lines.deep_view() =~= Seq::<Seq<Seq<char>>>::empty());
        return lines;
    }
}

/// The message that shows `txt` as sent from this side, in a window `max_x`
/// columns wide.
pub fn send_msg(max_x: i32, txt: &String) -> (m: DispMsg)
    ensures
        m.deep_view() == (DispView { lines: wrap_text(third(max_x as int), txt@), usr_snt: true }),
{
    DispMsg {
        lines: get_msg_str(
            max_x,
            &Message {
                m_type: "text".to_string(),
                to: "me".to_string(),
                from: "you".to_string(),
                timestamp: "000".to_string(),
                content: Content { text: Some(txt.clone()), url: None },
            },
        ),
        usr_snt: true,
    }
}

/// Draws the border: the commands of `border_ops`. Where a value does not fit
/// in an `i32` it returns `false`.
pub fn border(max_y: i32, max_x: i32, out: &mut Vec<DrawOp>) -> (ok: bool)
    ensures
        ok == border_fits(max_y as int),
        ok ==> final(out).deep_view() == old(out).deep_view() + border_ops(max_y as int, max_x as int),
{
    let ghost out0 = out.deep_view();
    emit(out, DrawOp::ColorSet(PAIR_BORDER));
    emit(out, DrawOp::Border('|', '|', ' ', '_', '/', '\\', '\\', '/'));
    let top = match sub_i32(max_y, INPUT_BOX_HEIGHT) {
        Some(v) => v,
        None => { return false; },
    };
    let row = match sub_i32(top, 1) {
        Some(v) => v,
        None => { return false; },
    };
    emit(out, DrawOp::Move(row, 0));
    emit(out, DrawOp::HLine('-', max_x));
    assert(out.deep_view() =~= out0 + border_ops(max_y as int, max_x as int));
    true
}

/// Draws a message upwards from row `y0` and returns where the cursor ends:
/// the commands and the cursor of `text_layout`. Where a value on the way does
/// not fit in an `i32`, it returns `None`.
pub fn draw_msg(max_x: i32, msg: &DispMsg, y0: i32, x0: i32, out: &mut Vec<DrawOp>) -> (res: Option<(i32, i32)>)
    ensures
        ({
            let l = text_layout(msg.usr_snt, msg.lines.deep_view(), y0 as int, x0 as int, max_x as int);
            &&& res is Some <==> l.fits
            &&& res matches Some(p) ==> {
                &&& final(out).deep_view() == old(out).deep_view() + l.ops
                &&& p.0 == l.y
                &&& p.1 == l.x
            }
        }),
{
    draw_lines(&msg.lines, msg.usr_snt, y0, x0, max_x, out)
}

/// Clears the box of rows `y0` to `yf` and columns `x0` to `xf`, the first
/// bounds included and the last ones excluded, as `clear_box` does.
pub fn clr_box(y0: i32, yf: i32, x0: i32, xf: i32, out: &mut Vec<DrawOp>) -> (ok: bool)
    ensures
        ok == in_i32(xf - x0),
        ok ==> final(out).deep_view() == old(out).deep_view() + clear_box_ops(
            y0 as int,
            yf as int,
            x0 as int,
            xf as int,
        ),
{
    clear_box(y0, yf, x0, xf, out)
}

/// Clears the input box: the commands of `input_box_clear_ops`. Where a value
/// does not fit in an `i32` it returns `false`.
pub fn clr_input_box(max_y: i32, max_x: i32, out: &mut Vec<DrawOp>) -> (ok: bool)
    ensures
        ok == input_box_clear_fits(max_y as int, max_x as int),
        ok ==> final(out).deep_view() == old(out).deep_view() + input_box_clear_ops(
            max_y as int,
            max_x as int,
        ),
{
    let ghost out0 = out.deep_view();
    emit(out, DrawOp::ColorSet(PAIR_DEFAULT));
    let top = match sub_i32(max_y, INPUT_BOX_HEIGHT) {
        Some(v) => v,
        None => { return false; },
    };
    let right = match sub_i32(max_x, 1) {
        Some(v) => v,
        None => { return false; },
    };
    let ok = clr_box(top, max_y, INPUT_BOX_LEFT, right, out);
    assert(ok ==> out.deep_view() =~= out0 + input_box_clear_ops(max_y as int, max_x as int));
    ok
}

/// Tells what a key press does to the line being typed, as `key_action`
/// does.
pub fn classify_key(key: Key) -> (a: EditAction)
    ensures
        a == key_action(key),
{
    match key {
        Key::Delete => EditAction::Pop,
        Key::Enter => EditAction::Submit,
        Key::Character(c) => {
            if is_control(c) {
                if c == '\n' || c == '\r' {
                    EditAction::Submit
                } else if c == '\u{8}' || c == '\u{7f}' {
                    EditAction::Pop
                } else {
                    EditAction::Keep
                }
            } else {
                EditAction::Push(c)
            }
        },
        _ => EditAction::Ignore,
    }
}

/// Typing a character that is not a control character adds it at the end of
/// the line and moves the cursor one column right; the input box is redrawn.
pub proof fn lemma_typing_adds_char(c: char, msg: Seq<char>, x: int)
    requires
        !is_control_char(c),
    ensures
        edit_result(key_action(Key::Character(c)), msg, x) == (msg.push(c), x + 1, OutcomeView::Edited),
{
}

/// Handles a key press: the edit of `key_action` applied to the line, as
/// `InputLine::apply` does.
pub fn handle_key(input: &mut InputLine, key: Key) -> (r: Option<KeyOutcome>)
    ensures
        ({
            let (msg, x, outcome) = edit_result(key_action(key), old(input).active_msg@, old(input).x as int);
            &&& r is Some <==> in_i32(x)
            &&& r matches Some(o) ==> {
                &&& o.deep_view() == outcome
                &&& final(input).active_msg@ == msg
                &&& final(input).x == x
            }
            &&& r is None ==> final(input).active_msg@ == old(input).active_msg@ && final(input).x == old(input).x
        }),
        key matches Key::Character(c) ==> (!is_control_char(c) ==> (r is Some <==> in_i32(
            old(input).x + 1,
        ))),
        key matches Key::Character(c) ==> (!is_control_char(c) && r is Some ==> r.unwrap().deep_view()
            == OutcomeView::Edited && final(input).active_msg@ == old(input).active_msg@.push(c)
            && final(input).x == old(input).x + 1),
{
    let action = classify_key(key);
    input.apply(action)
}

/// The rows that the last `k` messages take: each its lines and a blank row.
pub open spec fn rows_taken(msgs: Seq<DispView>, k: nat) -> int
    decreases k,
{
    if k == 0 {
        0
    } else {
        rows_taken(msgs, (k - 1) as nat) + msgs[msgs.len() - k].lines.len() + 1
    }
}

/// When the messages fit between row `y0` and the top of the window, they
/// are stacked one above the other, each taking its lines and a blank row,
/// and the drawing ends right above them all.
pub proof fn lemma_stack_visible(msgs: Seq<DispView>, k: nat, y0: int, max_x: int)
    requires
        k <= msgs.len(),
        y0 + 1 >= rows_taken(msgs, k),
    ensures
        stack_msgs(msgs, k, y0, max_x).y == y0 - rows_taken(msgs, k),
    decreases k,
{
    if k > 0 {
        let m = msgs[msgs.len() - k];
        lemma_stack_visible(msgs, (k - 1) as nat, y0, max_x);
        let prev = stack_msgs(msgs, (k - 1) as nat, y0, max_x);
        crate::draw::lemma_text_layout_visible(m.usr_snt, m.lines, prev.y, INPUT_BOX_LEFT as int, max_x);
    }
}

/// A later stack of messages fits only if an earlier one does.
proof fn lemma_stack_mono(msgs: Seq<DispView>, j: nat, k: nat, y0: int, max_x: int)
    requires
        j <= k,
    ensures
        stack_msgs(msgs, k, y0, max_x).fits ==> stack_msgs(msgs, j, y0, max_x).fits,
    decreases k,
{
    if j < k {
        lemma_stack_mono(msgs, j, (k - 1) as nat, y0, max_x);
    }
}

/// Draws the conversation in a window of `max_y` rows and `max_x` columns,
/// the messages area being `h` rows and `w` columns: the commands of
/// `conversation`. Where a value on the way does not fit in an `i32` it
/// returns `false`.
pub fn update_old_msgs_view(
    max_y: i32,
    max_x: i32,
    msgs: &Vec<DispMsg>,
    h: i32,
    w: i32,
    out: &mut Vec<DrawOp>,
) -> (ok: bool)
    ensures
        ok == conversation(msgs.deep_view(), max_y as int, max_x as int, h as int, w as int).fits,
        ok ==> final(out).deep_view() == old(out).deep_view() + conversation(
            msgs.deep_view(),
            max_y as int,
            max_x as int,
            h as int,
            w as int,
        ).ops,
{
    let ghost mv = msgs.deep_view();
    let ghost out0 = out.deep_view();
    let n = msgs.len();
    let top = match sub_i32(h, INPUT_BOX_HEIGHT) {
        Some(v) => v,
        None => { return false; },
    };
    if !clr_box(1, top, INPUT_BOX_LEFT, w, out) {
        return false;
    }
    if !border(max_y, max_x, out) {
        return false;
    }
    let mut curr_y = match sub_i32(top, 2) {
        Some(v) => v,
        None => { return false; },
    };
    emit(out, DrawOp::ColorSet(PAIR_DEFAULT));
    let ghost y_start = curr_y as int;
    let ghost head = clear_box_ops(1, top as int, INPUT_BOX_LEFT as int, w as int) + border_ops(
        max_y as int,
        max_x as int,
    ) + seq![Op::ColorSet(PAIR_DEFAULT)];
    assert(out.deep_view() =~= out0 + head + stack_msgs(mv, 0, y_start, max_x as int).ops);
    proof {
        lemma_stack_mono(mv, 0, n as nat, y_start, max_x as int);
    }
    let mut k: usize = 0;
    while k < n
        invariant
            n == msgs.len(),
            mv == msgs.deep_view(),
            out0 == old(out).deep_view(),
            y_start == h - INPUT_BOX_HEIGHT - 2,
            head == clear_box_ops(1, h - INPUT_BOX_HEIGHT, INPUT_BOX_LEFT as int, w as int) + border_ops(
                max_y as int,
                max_x as int,
            ) + seq![Op::ColorSet(PAIR_DEFAULT)],
            k <= n,
            ({
                let s = stack_msgs(mv, k as nat, y_start, max_x as int);
                &&& s.y == curr_y
                &&& s.fits
                &&& out.deep_view() == out0 + head + s.ops
            }),
        decreases n - k,
    {
        let msg = &msgs[n - 1 - k];
        assert(msg.deep_view() == mv[mv.len() - (k + 1)]);
        proof {
            lemma_stack_mono(mv, (k + 1) as nat, n as nat, y_start, max_x as int);
        }
        let new_coords = match draw_msg(max_x, msg, curr_y, INPUT_BOX_LEFT, out) {
            Some(p) => p,
            None => { return false; },
        };
        curr_y = new_coords.0;
        assert(out.deep_view() =~= out0 + head + stack_msgs(mv, (k + 1) as nat, y_start, max_x as int).ops);
        k = k + 1;
    }
    assert(out.deep_view() =~= old(out).deep_view() + conversation(
        mv,
        max_y as int,
        max_x as int,
        h as int,
        w as int,
    ).ops);
    true
}

/// Draws the input box whose right edge is at column `input_box_right`, with
/// the text being typed, and moves the typing cursor to where the drawing
/// ends: the commands and the column of `input_box`. Where a value on the way
/// does not fit in an `i32` it returns `false` and leaves the cursor where it
/// was.
pub fn draw_input(
    max_y: i32,
    max_x: i32,
    input_box_right: i32,
    input: &mut InputLine,
    out: &mut Vec<DrawOp>,
) -> (ok: bool)
    ensures
        ({
            let b = input_box(max_y as int, max_x as int, input_box_right as int, old(input).active_msg@, old(input).x as int);
            &&& ok == b.fits
            &&& final(input).active_msg == old(input).active_msg
            &&& ok ==> final(input).x == b.x
            &&& !ok ==> final(input).x == old(input).x
            &&& ok ==> final(out).deep_view() == old(out).deep_view() + b.ops
        }),
{
    let ghost out0 = out.deep_view();
    let inner = match sub_i32(input_box_right, INPUT_BOX_LEFT) {
        Some(v) => v,
        None => { return false; },
    };
    let width = match sub_i32(inner, 4) {
        Some(v) => v,
        None => { return false; },
    };
    let disp = crate::wrap::wrap_str(width, &input.active_msg);
    if !clr_input_box(max_y, max_x, out) {
        return false;
    }
    let y = match sub_i32(max_y, INPUT_BOX_HEIGHT) {
        Some(v) => v,
        None => { return false; },
    };
    match draw_typed_lines(&disp, y, input.x, out) {
        Some(x) => {
            input.x = x;
            assert(out.deep_view() =~= out0 + input_box(max_y as int, max_x as int, input_box_right as int, input.active_msg@, old(input).x as int).ops);
            true
        },
        None => false,
    }
}

/// The stored messages, each wrapped for a window `max_x` columns wide, none
/// of them sent from this side.
pub open spec fn stored_msgs(max_x: int) -> Seq<DispView> {
    Seq::new(
        old_msg_texts().len(),
        |i: int| DispView { lines: wrap_text(third(max_x), old_msg_texts()[i]), usr_snt: false },
    )
}

/// The message that shows `text` as sent from this side, in a window `max_x`
/// columns wide.
pub open spec fn sent_msg(text: Seq<char>, max_x: int) -> DispView {
    DispView { lines: wrap_text(third(max_x), text), usr_snt: true }
}

/// The history after a key press whose edit ended in `outcome`: a sent line
/// is appended as it is shown; otherwise the history stays as it was.
pub open spec fn next_history(hist: Seq<DispView>, outcome: OutcomeView, max_x: int) -> Seq<DispView> {
    match outcome {
        OutcomeView::Submitted(t) => hist.push(sent_msg(t, max_x)),
        _ => hist,
    }
}

/// What a key press draws, where the typing cursor ends, and whether every
/// value computed fits in an `i32`.
pub struct Turn {
    pub ops: Seq<Op>,
    pub x: int,
    pub fits: bool,
}

/// What a key press whose edit ended in `outcome` draws, `hist` being the
/// history after it and `msg`, `x` the line and cursor column after it: an
/// ignored key draws nothing; a sent line draws the whole conversation, then
/// the input box; any other key draws the input box.
pub open spec fn key_turn(
    outcome: OutcomeView,
    hist: Seq<DispView>,
    max_y: int,
    max_x: int,
    right: int,
    msg: Seq<char>,
    x: int,
) -> Turn {
    let b = input_box(max_y, max_x, right, msg, x);
    match outcome {
        OutcomeView::Ignored => Turn { ops: Seq::empty(), x: x, fits: true },
        OutcomeView::Edited => Turn { ops: b.ops, x: b.x, fits: b.fits },
        OutcomeView::Submitted(_) => {
            let c = conversation(hist, max_y, max_x, max_y, max_x);
            Turn { ops: c.ops + b.ops, x: b.x, fits: c.fits && b.fits }
        },
    }
}

/// A line typed in the test chat is shown with every word of it, in order,
/// as sent from this side.
pub proof fn lemma_sent_msg_keeps_words(text: Seq<char>, max_x: int)
    ensures
        join_lines(sent_msg(text, max_x).lines) == split_spaces(text),
        sent_msg(text, max_x).usr_snt,
{
    lemma_wrap_keeps_words(third(max_x), text);
}

/// The stored messages are shown with every word of their texts, in order,
/// as received.
pub proof fn lemma_stored_keeps_words(max_x: int)
    ensures
        stored_msgs(max_x).len() == old_msg_texts().len(),
        forall|i: int|
            0 <= i < stored_msgs(max_x).len() ==> join_lines(#[trigger] stored_msgs(max_x)[i].lines)
                == split_spaces(old_msg_texts()[i]) && !stored_msgs(max_x)[i].usr_snt,
{
    assert forall|i: int| 0 <= i < stored_msgs(max_x).len() implies join_lines(
        #[trigger] stored_msgs(max_x)[i].lines,
    ) == split_spaces(old_msg_texts()[i]) && !stored_msgs(max_x)[i].usr_snt by {
        lemma_wrap_keeps_words(third(max_x), old_msg_texts()[i]);
    }
}

/// The history only grows: a key press keeps every message of it, and adds
/// one, the line shown as sent, exactly when it sends a line that holds a
/// character.
pub proof fn lemma_history_grows(hist: Seq<DispView>, action: EditAction, msg: Seq<char>, x: int, max_x: int)
    ensures
        ({
            let (_, _, outcome) = edit_result(action, msg, x);
            let h = next_history(hist, outcome, max_x);
            &&& h.take(hist.len() as int) == hist
            &&& h.len() == hist.len() + (if action == EditAction::Submit && msg.len() > 0 { 1int } else { 0 })
            &&& action == EditAction::Submit && msg.len() > 0 ==> h.last() == sent_msg(msg, max_x)
        }),
{
    let (_, _, outcome) = edit_result(action, msg, x);
    let h = next_history(hist, outcome, max_x);
    assert(h.take(hist.len() as int) =~= hist);
}

/// The history of the test chat is the stored messages followed by the sent
/// ones: if it is so before a key press, it is so after it, the sent line, if
/// any, coming last.
pub proof fn lemma_history_stored_then_sent(
    w0: int,
    sent: Seq<DispView>,
    action: EditAction,
    msg: Seq<char>,
    x: int,
    max_x: int,
)
    requires
        forall|i: int| 0 <= i < sent.len() ==> (#[trigger] sent[i]).usr_snt,
    ensures
        ({
            let (_, _, outcome) = edit_result(action, msg, x);
            let h = next_history(stored_msgs(w0) + sent, outcome, max_x);
            let sent2 = if action == EditAction::Submit && msg.len() > 0 {
                sent.push(sent_msg(msg, max_x))
            } else {
                sent
            };
            &&& h == stored_msgs(w0) + sent2
            &&& forall|i: int| 0 <= i < sent2.len() ==> (#[trigger] sent2[i]).usr_snt
        }),
{
    let (_, _, outcome) = edit_result(action, msg, x);
    if action == EditAction::Submit && msg.len() > 0 {
        assert((stored_msgs(w0) + sent).push(sent_msg(msg, max_x)) =~= stored_msgs(w0) + sent.push(
            sent_msg(msg, max_x),
        ));
    }
}

/// One frame of the conversation per sent line, and none otherwise: a key
/// press redraws the conversation exactly when it sends a line that holds a
/// character; an ignored key draws nothing, and any other key only the input
/// box.
pub proof fn lemma_frame_per_sent_line(
    hist: Seq<DispView>,
    action: EditAction,
    msg: Seq<char>,
    x: int,
    max_y: int,
    max_x: int,
    right: int,
)
    ensures
        ({
            let (m1, x1, outcome) = edit_result(action, msg, x);
            let h = next_history(hist, outcome, max_x);
            let t = key_turn(outcome, h, max_y, max_x, right, m1, x1);
            let b = input_box(max_y, max_x, right, m1, x1);
            &&& action == EditAction::Submit && msg.len() > 0 ==> t.ops == conversation(
                h,
                max_y,
                max_x,
                max_y,
                max_x,
            ).ops + b.ops
            &&& action == EditAction::Ignore ==> t.ops == Seq::<Op>::empty()
            &&& action != EditAction::Ignore && !(action == EditAction::Submit && msg.len() > 0) ==> t.ops == b.ops
        }),
{
}

/// One key press: the edit of `key_action` is applied to the line; a sent
/// line is appended to the history as it is shown; and the commands of
/// `key_turn` are drawn. Where a value on the way does not fit in an `i32` it
/// returns `false`.
pub fn on_key(
    input: &mut InputLine,
    history: &mut Vec<DispMsg>,
    key: Key,
    max_y: i32,
    max_x: i32,
    input_box_right: i32,
    out: &mut Vec<DrawOp>,
) -> (ok: bool)
    ensures
        ({
            let (m1, x1, outcome) = edit_result(key_action(key), old(input).active_msg@, old(input).x as int);
            let h = next_history(old(history).deep_view(), outcome, max_x as int);
            let t = key_turn(outcome, h, max_y as int, max_x as int, input_box_right as int, m1, x1);
            &&& ok == (in_i32(x1) && t.fits)
            &&& ok ==> {
                &&& final(input).active_msg@ == m1
                &&& final(input).x == t.x
                &&& final(history).deep_view() == h
                &&& final(out).deep_view() == old(out).deep_view() + t.ops
            }
        }),
{
    let ghost out0 = out.deep_view();
    let ghost h0 = history.deep_view();
    let outcome = match handle_key(input, key) {
        Some(o) => o,
        None => { return false; },
    };
    match outcome {
        KeyOutcome::Ignored => {
            assert(out.deep_view() =~= out0 + Seq::<Op>::empty());
            return true;
        },
        KeyOutcome::Submitted(text) => {
            let shown = send_msg(max_x, &text);
            history.push(shown);
            assert(history.deep_view() =~= h0.push(sent_msg(text@, max_x as int)));
            if !update_old_msgs_view(max_y, max_x, history, max_y, max_x, out) {
                return false;
            }
        },
        KeyOutcome::Edited => {
            assert(out.deep_view() =~= out0 + Seq::<Op>::empty());
        },
    }
    draw_input(max_y, max_x, input_box_right, input, out)
}

} // verus!
