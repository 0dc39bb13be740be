//! The chat window that talks to the server: its queue of incoming
//! messages, the layout of the conversation and of the input box, and the
//! handling of key presses.
//!
//! The window's size is read by the caller and handed in as `max_y` (rows)
//! and `max_x` (columns); what is to be drawn comes back as commands.

use vstd::prelude::*;
use std::collections::VecDeque;
use crate::draw::{
    add_i32, clear_box, clear_box_ops, draw_lines, third, third_of, emit, in_i32, sub_i32, text_layout, Cursor,
    DrawOp, Op, INPUT_BOX_HEIGHT, INPUT_BOX_LEFT, PAIR_BORDER,
};
use crate::input::{
    draw_typed_lines, edit_result, is_control, is_control_char, typed_layout, EditAction, InputLine, Key,
    KeyOutcome, OutcomeView,
};
use crate::message::{Message, MessageView, MetaView, MsgMetaData, MsgType, Timestamp};
use crate::wrap::{
    is_wrapping, join_lines, lemma_wrap_keeps_words, lemma_wrap_text_is_wrapping, split_spaces, wrap_text,
};

verus! {

/// Whether a message was sent from this side.
pub open spec fn is_sent(meta: MetaView) -> bool {
    meta.from == "me"@
}

/// The metadata of a message from this side to the other, made at `t`.
pub open spec fn outgoing_meta(t: Timestamp) -> MetaView {
    MetaView { to: "you"@, from: "me"@, timestamp: t }
}

/// The raw message that carries `text` to the other side.
pub open spec fn outgoing_raw(text: Seq<char>, t: Timestamp) -> MessageView {
    MessageView::Raw { meta_data: outgoing_meta(t), text: text, msg_type: MsgType::Text }
}

/// The message that shows `text`, sent from this side, in a window `max_x`
/// columns wide.
pub open spec fn outgoing_text(text: Seq<char>, max_x: int, t: Timestamp) -> MessageView {
    MessageView::Text { meta_data: outgoing_meta(t), msg_lines: wrap_text(third(max_x), text) }
}

/// A raw message as it is shown, in a window `max_x` columns wide: its text
/// wrapped at a third of the width. Other messages are shown as they are.
pub open spec fn shown_message(m: MessageView, max_x: int) -> MessageView {
    match m {
        MessageView::Raw { meta_data, text, .. } => MessageView::Text {
            meta_data: meta_data,
            msg_lines: wrap_text(third(max_x), text),
        },
        _ => m,
    }
}

/// The number of raw messages at the front of a queue.
pub open spec fn raw_prefix_len(p: Seq<MessageView>) -> nat
    decreases p.len(),
{
    if p.len() == 0 || !(p[0] is Raw) {
        0
    } else {
        1 + raw_prefix_len(p.drop_first())
    }
}

/// Drawing one message upwards from row `y0`: a text message is drawn as its
/// lines, on the right if it was sent from this side; any other message
/// draws nothing and leaves the cursor at (`y0`, `x0`).
pub open spec fn msg_layout(m: MessageView, y0: int, x0: int, max_x: int) -> Cursor {
    match m {
        MessageView::Text { meta_data, msg_lines } => text_layout(
            is_sent(meta_data),
            msg_lines,
            y0,
            x0,
            max_x,
        ),
        _ => Cursor { y: y0, x: x0, ops: Seq::empty(), stopped: false, fits: true },
    }
}

/// The row reached after drawing messages, the commands, and whether every
/// value computed fits in an `i32`.
pub struct Stack {
    pub y: int,
    pub ops: Seq<Op>,
    pub fits: bool,
}

/// Drawing the last `k` messages upwards from row `y0`, the newest first,
/// each one starting on the row where the one below it ended.
pub open spec fn stack_msgs(msgs: Seq<MessageView>, k: nat, y0: int, max_x: int) -> Stack
    decreases k,
{
    if k == 0 {
        Stack { y: y0, ops: Seq::empty(), fits: true }
    } else {
        let prev = stack_msgs(msgs, (k - 1) as nat, y0, max_x);
        let l = msg_layout(msgs[msgs.len() - k], prev.y, INPUT_BOX_LEFT as int, max_x);
        Stack { y: l.y, ops: prev.ops + l.ops, fits: prev.fits && l.fits }
    }
}

/// The border: a line of dashes above the input box.
pub open spec fn border_ops(max_y: int, max_x: int) -> Seq<Op> {
    seq![
        Op::ColorSet(PAIR_BORDER),
        Op::Move(max_y - INPUT_BOX_HEIGHT - 1, INPUT_BOX_LEFT - 1),
        Op::HLine('-', max_x - 2),
    ]
}

/// Whether the values of the border fit in an `i32`.
pub open spec fn border_fits(max_y: int, max_x: int) -> bool {
    in_i32(max_y - INPUT_BOX_HEIGHT) && in_i32(max_y - INPUT_BOX_HEIGHT - 1) && in_i32(max_x - 2)
}

/// The conversation: the area above the input box is cleared, the border
/// drawn, and the messages stacked upwards from two rows above the border,
/// the newest at the bottom.
pub open spec fn conversation(msgs: Seq<MessageView>, max_y: int, max_x: int) -> Stack {
    let top = max_y - INPUT_BOX_HEIGHT;
    let s = stack_msgs(msgs, msgs.len(), top - 2, max_x);
    Stack {
        y: s.y,
        ops: clear_box_ops(1, top, INPUT_BOX_LEFT as int, max_x) + border_ops(max_y, max_x) + s.ops,
        fits: in_i32(top) && in_i32(max_x - INPUT_BOX_LEFT) && border_fits(max_y, max_x)
            && in_i32(top - 2) && s.fits,
    }
}

/// Clearing the input box: the bottom rows, from the left edge of the box to
/// the last column but one.
pub open spec fn input_box_clear_ops(max_y: int, max_x: int) -> Seq<Op> {
    clear_box_ops(max_y - INPUT_BOX_HEIGHT, max_y, INPUT_BOX_LEFT as int, max_x - 1)
}

/// Whether the values of clearing the input box fit in an `i32`.
pub open spec fn input_box_clear_fits(max_y: int, max_x: int) -> bool {
    in_i32(max_y - INPUT_BOX_HEIGHT) && in_i32(max_x - 1) && in_i32(max_x - 1 - INPUT_BOX_LEFT)
}

/// The width at which the typed text is wrapped, for an input box whose
/// right edge is at column `right`.
pub open spec fn typing_width(right: int) -> int {
    right - INPUT_BOX_LEFT - 4
}

/// Drawing the input box: it is cleared, and the typed text, wrapped, is
/// drawn upwards from its top row. The cursor column ends where `typed_layout`
/// leaves it.
pub open spec fn input_box(max_y: int, max_x: int, right: int, text: Seq<char>, x: int) -> Cursor {
    let typed = typed_layout(wrap_text(typing_width(right), text), max_y - INPUT_BOX_HEIGHT, x);
    Cursor {
        y: typed.y,
        x: typed.x,
        ops: input_box_clear_ops(max_y, max_x) + typed.ops,
        stopped: typed.stopped,
        fits: in_i32(right - INPUT_BOX_LEFT) && in_i32(typing_width(right)) && input_box_clear_fits(
            max_y,
            max_x,
        ) && typed.fits,
    }
}

/// The input box shows the typed text wrapped at `right - INPUT_BOX_LEFT - 4`
/// columns: its commands clear the box, then draw, upwards from the box's top
/// row, lines that are a wrapping of the text at that width (every word in
/// order, no empty line, each line one word or under the width, each closed
/// only when the next word would reach the width).
pub proof fn lemma_input_box_wraps(max_y: int, max_x: int, right: int, text: Seq<char>, x: int)
    ensures
        exists|lines: Seq<Seq<Seq<char>>>|
            #[trigger] is_wrapping(right - INPUT_BOX_LEFT - 4, text, lines)
                && input_box(max_y, max_x, right, text, x).ops == input_box_clear_ops(max_y, max_x)
                + typed_layout(lines, max_y - INPUT_BOX_HEIGHT, x).ops,
{
    let w = right - INPUT_BOX_LEFT - 4;
    lemma_wrap_text_is_wrapping(w, text);
    assert(is_wrapping(w, text, wrap_text(w, text)));
}

/// What a key press does to the line being typed: the delete key, the
/// backspace key, backspace (U+0008) and delete (U+007F) remove the last
/// character; the enter key, a line feed and a carriage return send the line;
/// another control character does nothing, and any other character is added.
/// Any other key is of no use.
pub open spec fn key_action(key: Key) -> EditAction {
    match key {
        Key::Delete => EditAction::Pop,
        Key::Enter => EditAction::Submit,
        Key::Backspace => EditAction::Pop,
        Key::Character(c) => if c == '\n' || c == '\r' {
            EditAction::Submit
        } else if c == '\u{8}' || c == '\u{7f}' {
            EditAction::Pop
        } else if is_control_char(c) {
            EditAction::Keep
        } else {
            EditAction::Push(c)
        },
        Key::Other => EditAction::Ignore,
    }
}

/// Tells what a key press does to the line being typed, as `key_action`
/// does.
pub fn classify_key(key: Key) -> (a: EditAction)
    ensures
        a == key_action(key),
{
    match key {
        Key::Delete => EditAction::Pop,
        Key::Enter => EditAction::Submit,
        Key::Backspace => EditAction::Pop,
        Key::Character(c) => {
            if c == '\n' || c == '\r' {
                EditAction::Submit
            } else if c == '\u{8}' || c == '\u{7f}' {
                EditAction::Pop
            } else if is_control(c) {
                EditAction::Keep
            } else {
                EditAction::Push(c)
            }
        },
        Key::Other => EditAction::Ignore,
    }
}

/// The history after a key press whose edit ended in `outcome`: a sent line
/// is appended as it is shown, stamped `shown_at`; otherwise the history
/// stays as it was.
pub open spec fn next_history(
    hist: Seq<MessageView>,
    outcome: OutcomeView,
    max_x: int,
    shown_at: Timestamp,
) -> Seq<MessageView> {
    match outcome {
        OutcomeView::Submitted(t) => hist.push(outgoing_text(t, max_x, shown_at)),
        _ => hist,
    }
}

/// The frame drawn once a line is sent: the area above the input box is
/// cleared, the border drawn, and then the whole conversation.
pub open spec fn sent_frame(hist: Seq<MessageView>, max_y: int, max_x: int) -> Stack {
    let c = conversation(hist, max_y, max_x);
    Stack {
        y: c.y,
        ops: clear_box_ops(1, max_y - INPUT_BOX_HEIGHT, INPUT_BOX_LEFT as int, max_x) + border_ops(
            max_y,
            max_x,
        ) + c.ops,
        fits: in_i32(max_y - INPUT_BOX_HEIGHT) && in_i32(max_x - INPUT_BOX_LEFT) && border_fits(
            max_y,
            max_x,
        ) && c.fits,
    }
}

/// What a key press draws, where the typing cursor ends, and whether every
/// value computed fits in an `i32`.
pub struct Turn {
    pub ops: Seq<Op>,
    pub x: int,
    pub fits: bool,
}

/// What a key press whose edit ended in `outcome` draws, `hist` being the
/// history after it and `msg`, `x` the line and cursor column after it: an
/// ignored key draws nothing; a sent line draws the frame of the whole
/// conversation, then the input box; any other key draws the input box.
pub open spec fn key_turn(
    outcome: OutcomeView,
    hist: Seq<MessageView>,
    max_y: int,
    max_x: int,
    right: int,
    msg: Seq<char>,
    x: int,
) -> Turn {
    let b = input_box(max_y, max_x, right, msg, x);
    match outcome {
        OutcomeView::Ignored => Turn { ops: Seq::empty(), x: x, fits: true },
        OutcomeView::Edited => Turn { ops: b.ops, x: b.x, fits: b.fits },
        OutcomeView::Submitted(_) => {
            let f = sent_frame(hist, max_y, max_x);
            Turn { ops: f.ops + b.ops, x: b.x, fits: f.fits && b.fits }
        },
    }
}

/// The history only grows: a key press keeps every message of it, and adds
/// one, the line shown as sent from this side, exactly when it sends a line
/// that holds a character.
pub proof fn lemma_history_grows(
    hist: Seq<MessageView>,
    action: EditAction,
    msg: Seq<char>,
    x: int,
    max_x: int,
    shown_at: Timestamp,
)
    ensures
        ({
            let (_, _, outcome) = edit_result(action, msg, x);
            let h = next_history(hist, outcome, max_x, shown_at);
            &&& h.take(hist.len() as int) == hist
            &&& h.len() == hist.len() + (if action == EditAction::Submit && msg.len() > 0 { 1int } else { 0 })
            &&& action == EditAction::Submit && msg.len() > 0 ==> h.last() == outgoing_text(msg, max_x, shown_at)
        }),
{
    let (_, _, outcome) = edit_result(action, msg, x);
    let h = next_history(hist, outcome, max_x, shown_at);
    assert(h.take(hist.len() as int) =~= hist);
}

/// One frame of the conversation per sent line, and none otherwise: a key
/// press redraws the conversation exactly when it sends a line that holds a
/// character; an ignored key draws nothing, and any other key only the input
/// box.
pub proof fn lemma_frame_per_sent_line(
    hist: Seq<MessageView>,
    action: EditAction,
    msg: Seq<char>,
    x: int,
    max_y: int,
    max_x: int,
    right: int,
    shown_at: Timestamp,
)
    ensures
        ({
            let (m1, x1, outcome) = edit_result(action, msg, x);
            let h = next_history(hist, outcome, max_x, shown_at);
            let t = key_turn(outcome, h, max_y, max_x, right, m1, x1);
            let b = input_box(max_y, max_x, right, m1, x1);
            &&& action == EditAction::Submit && msg.len() > 0 ==> t.ops == sent_frame(h, max_y, max_x).ops + b.ops
            &&& action == EditAction::Ignore ==> t.ops == Seq::<Op>::empty()
            &&& action != EditAction::Ignore && !(action == EditAction::Submit && msg.len() > 0) ==> t.ops == b.ops
        }),
{
}

/// Typing a character that is not a control character adds it at the end of
/// the line and moves the cursor one column right; the input box is redrawn.
pub proof fn lemma_typing_adds_char(c: char, msg: Seq<char>, x: int)
    requires
        !is_control_char(c),
    ensures
        edit_result(key_action(Key::Character(c)), msg, x) == (msg.push(c), x + 1, OutcomeView::Edited),
{
}

/// A raw message taken in is shown with every word of its text, in order,
/// and with its metadata unchanged: the words of the shown lines, read line
/// after line, are the pieces of the received text between single spaces.
pub proof fn lemma_shown_keeps_words(m: MessageView, max_x: int)
    requires
        m is Raw,
    ensures
        shown_message(m, max_x) matches MessageView::Text { meta_data, msg_lines } && m matches MessageView::Raw {
            meta_data: m_meta,
            text,
            ..
        } && meta_data == m_meta && join_lines(msg_lines) == split_spaces(text),
{
    if let MessageView::Raw { meta_data, text, .. } = m {
        lemma_wrap_keeps_words(third(max_x), text);
    }
}

/// Sending a line sends its text unchanged, from "me" to "you", stamped
/// `sent_at`; and shows every word of it, in order, as sent from "me".
pub proof fn lemma_outgoing_carries_text(text: Seq<char>, max_x: int, sent_at: Timestamp, shown_at: Timestamp)
    ensures
        outgoing_raw(text, sent_at) matches MessageView::Raw { meta_data, text: sent_text, msg_type }
            && sent_text == text && sent_text.len() == text.len() && meta_data.to == "you"@
            && meta_data.from == "me"@ && meta_data.timestamp == sent_at && msg_type == MsgType::Text,
        outgoing_text(text, max_x, shown_at) matches MessageView::Text { meta_data, msg_lines }
            && join_lines(msg_lines) == split_spaces(text) && meta_data.from == "me"@
            && meta_data.to == "you"@ && meta_data.timestamp == shown_at,
{
    lemma_wrap_keeps_words(third(max_x), text);
}

/// The messages counted by `raw_prefix_len` are raw, and there are no more
/// of them than messages.
proof fn lemma_raw_prefix_is_raw(p: Seq<MessageView>)
    ensures
        raw_prefix_len(p) <= p.len(),
        forall|j: int| 0 <= j < raw_prefix_len(p) ==> #[trigger] p[j] is Raw,
    decreases p.len(),
{
    if p.len() > 0 && p[0] is Raw {
        let q = p.drop_first();
        lemma_raw_prefix_is_raw(q);
        assert forall|j: int| 0 <= j < raw_prefix_len(p) implies #[trigger] p[j] is Raw by {
            if j > 0 {
                assert(p[j] == q[j - 1]);
            }
        }
    }
}

/// `raw_prefix_len` is the index of the first message that is not raw, or
/// the length of the queue if they all are.
proof fn lemma_raw_prefix_len(p: Seq<MessageView>, i: int)
    requires
        0 <= i <= p.len(),
        forall|j: int| 0 <= j < i ==> #[trigger] p[j] is Raw,
        i == p.len() || !(p[i] is Raw),
    ensures
        raw_prefix_len(p) == i,
    decreases i,
{
    if i > 0 {
        let q = p.drop_first();
        assert forall|j: int| 0 <= j < i - 1 implies #[trigger] q[j] is Raw by {
            assert(q[j] == p[j + 1]);
        }
        if i < p.len() {
            assert(q[i - 1] == p[i]);
        }
        lemma_raw_prefix_len(q, i - 1);
    }
}

/// The rows that the last `k` messages take: each text message its lines and
/// a blank row; other messages none.
pub open spec fn rows_taken(msgs: Seq<MessageView>, k: nat) -> int
    decreases k,
{
    if k == 0 {
        0
    } else {
        rows_taken(msgs, (k - 1) as nat) + match msgs[msgs.len() - k] {
            MessageView::Text { msg_lines, .. } => msg_lines.len() + 1,
            _ => 0,
        }
    }
}

/// When the messages fit between row `y0` and the top of the window, they
/// are stacked one above the other, each text message taking its lines and a
/// blank row, and the drawing ends right above them all.
pub proof fn lemma_stack_visible(msgs: Seq<MessageView>, k: nat, y0: int, max_x: int)
    requires
        k <= msgs.len(),
        y0 + 1 >= rows_taken(msgs, k),
    ensures
        stack_msgs(msgs, k, y0, max_x).y == y0 - rows_taken(msgs, k),
    decreases k,
{
    if k > 0 {
        let m = msgs[msgs.len() - k];
        lemma_stack_visible(msgs, (k - 1) as nat, y0, max_x);
        let prev = stack_msgs(msgs, (k - 1) as nat, y0, max_x);
        if let MessageView::Text { meta_data, msg_lines } = m {
            crate::draw::lemma_text_layout_visible(is_sent(meta_data), msg_lines, prev.y, INPUT_BOX_LEFT as int, max_x);
        }
    }
}

/// When only raw messages wait in a queue, they all are: taking the incoming
/// messages then shows every one of them, in order, and empties the queue.
pub proof fn lemma_all_raw_taken(p: Seq<MessageView>)
    requires
        forall|j: int| 0 <= j < p.len() ==> #[trigger] p[j] is Raw,
    ensures
        raw_prefix_len(p) == p.len(),
        p.skip(p.len() as int) == Seq::<MessageView>::empty(),
        p.take(p.len() as int) == p,
{
    lemma_raw_prefix_len(p, p.len() as int);
    assert(p.skip(p.len() as int) =~= Seq::<MessageView>::empty());
    assert(p.take(p.len() as int) =~= p);
}

/// A later stack of messages fits only if an earlier one does.
proof fn lemma_stack_mono(msgs: Seq<MessageView>, j: nat, k: nat, y0: int, max_x: int)
    requires
        j <= k,
    ensures
        stack_msgs(msgs, k, y0, max_x).fits ==> stack_msgs(msgs, j, y0, max_x).fits,
    decreases k,
{
    if j < k {
        lemma_stack_mono(msgs, j, (k - 1) as nat, y0, max_x);
    }
}

/// The chat window: the messages received from the server and not yet shown.
pub struct ChatWindow {
    pending_msgs: VecDeque<Message>,
}

impl ChatWindow {
    /// The messages received and not yet shown, oldest first.
    pub closed spec fn pending_view(&self) -> Seq<MessageView> {
        self.pending_msgs.deep_view()
    }

    /// A window with no message waiting.
    pub fn new() -> (w: ChatWindow)
        ensures
            w.pending_view() == Seq::<MessageView>::empty(),
    {
        let w = ChatWindow { pending_msgs: VecDeque::new() };
        assert(w.pending_view() =~= Seq::<MessageView>::empty());
        w
    }

    /// The history of the conversation: there is none yet.
    pub fn load_old_msgs(&self) -> (msgs: Vec<Message>)
        ensures
            msgs@.len() == 0,
    {
        let old_msgs: Vec<Message> = Vec::new();
        old_msgs
    }

    /// The width at which messages are wrapped in a window `max_x` columns
    /// wide: a third of it.
    pub fn max_msg_width(&self, max_x: i32) -> (w: i32)
        ensures
            w == third(max_x as int),
    {
        third_of(max_x)
    }

    /// Wraps `txt` at `wrap_width` characters, as `wrap_str` does.
    pub fn wrap_str(&self, wrap_width: i32, txt: &String) -> (lines: Vec<Vec<String>>)
        ensures
            lines.deep_view() == wrap_text(wrap_width as int, txt@),
    {
        crate::wrap::wrap_str(wrap_width, txt)
    }

    /// Sends `txt`: the two messages that sending it makes, stamped at
    /// `sent_at` and `shown_at` (the caller reads the clock): the raw message
    /// that goes to the server, and the message that shows the text on this
    /// side.
    pub fn send_msg(&self, max_x: i32, txt: &String, sent_at: Timestamp, shown_at: Timestamp) -> (res: (
        Message,
        Message,
    ))
        ensures
            res.0.deep_view() == outgoing_raw(txt@, sent_at),
            res.1.deep_view() == outgoing_text(txt@, max_x as int, shown_at),
            res.0 matches Message::Raw { text, .. } && text@ == txt@,
            res.1.deep_view() matches MessageView::Text { msg_lines, .. } && join_lines(msg_lines)
                == split_spaces(txt@),
    {
        proof {
            lemma_wrap_keeps_words(third(max_x as int), txt@);
        }
        let raw = Message::Raw {
            meta_data: MsgMetaData {
                to: "you".to_string(),
                from: "me".to_string(),
                timestamp: sent_at,
            },
            msg_type: MsgType::Text,
            text: txt.clone(),
        };
        let lines = self.wrap_str(self.max_msg_width(max_x), txt);
        let shown = Message::Text {
            meta_data: MsgMetaData {
                to: "you".to_string(),
                from: "me".to_string(),
                timestamp: shown_at,
            },
            msg_lines: lines,
        };
        (raw, shown)
    }

    /// Draws the border above the input box: the commands of `border_ops`.
    /// Where a value does not fit in an `i32` it returns `false`.
    pub fn border(&self, max_y: i32, max_x: i32, out: &mut Vec<DrawOp>) -> (ok: bool)
        ensures
            ok == border_fits(max_y as int, max_x as int),
            ok ==> final(out).deep_view() == old(out).deep_view() + border_ops(max_y as int, max_x as int),
    {
        let ghost out0 = out.deep_view();
        emit(out, DrawOp::ColorSet(PAIR_BORDER));
        let top = match sub_i32(max_y, INPUT_BOX_HEIGHT) {
            Some(v) => v,
            None => { return false; },
        };
        let row = match sub_i32(top, 1) {
            Some(v) => v,
            None => { return false; },
        };
        let len = match sub_i32(max_x, 2) {
            Some(v) => v,
            None => { return false; },
        };
        emit(out, DrawOp::Move(row, INPUT_BOX_LEFT - 1));
        emit(out, DrawOp::HLine('-', len));
        assert(out.deep_view() =~= out0 + border_ops(max_y as int, max_x as int));
        true
    }

    /// Draws a message upwards from row `y0` and returns where the cursor
    /// ends: the commands and the cursor of `msg_layout`. Where a value on the
    /// way does not fit in an `i32`, it returns `None`.
    pub fn draw_msg(&self, max_x: i32, msg: &Message, y0: i32, x0: i32, out: &mut Vec<DrawOp>) -> (res: Option<(i32, i32)>)
        ensures
            ({
                let l = msg_layout(msg.deep_view(), y0 as int, x0 as int, max_x as int);
                &&& res is Some <==> l.fits
                &&& res matches Some(p) ==> {
                    &&& final(out).deep_view() == old(out).deep_view() + l.ops
                    &&& p.0 == l.y
                    &&& p.1 == l.x
                }
            }),
    {
        match msg {
            Message::Text { .. } => self.draw_text_msg(max_x, msg, y0, x0, out),
            Message::Image { .. } => {
                assert(out.deep_view() =~= old(out).deep_view() + Seq::<Op>::empty());
                Some(self.draw_img_msg(msg, y0, x0))
            },
            _ => {
                assert(out.deep_view() =~= old(out).deep_view() + Seq::<Op>::empty());
                Some((y0, x0))
            },
        }
    }

    /// An image message draws nothing: the cursor stays at (`y0`, `x0`).
    pub fn draw_img_msg(&self, msg: &Message, y0: i32, x0: i32) -> (res: (i32, i32))
        ensures
            res == (y0, x0),
    {
        (y0, x0)
    }

    /// Draws a text message upwards from row `y0`, on the right if it was
    /// sent from this side, and returns where the cursor ends: the commands
    /// and the cursor of `msg_layout`. Where a value on the way does not fit
    /// in an `i32`, it returns `None`.
    pub fn draw_text_msg(&self, max_x: i32, msg: &Message, y0: i32, x0: i32, out: &mut Vec<DrawOp>) -> (res: Option<(i32, i32)>)
        ensures
            ({
                let l = msg_layout(msg.deep_view(), y0 as int, x0 as int, max_x as int);
                &&& res is Some <==> l.fits
                &&& res matches Some(p) ==> {
                    &&& final(out).deep_view() == old(out).deep_view() + l.ops
                    &&& p.0 == l.y
                    &&& p.1 == l.x
                }
            }),
    {
        if let Message::Text { meta_data, msg_lines } = msg {
            let sent = meta_data.from == "me".to_string();
            draw_lines(msg_lines, sent, y0, x0, max_x, out)
        } else {
            assert(out.deep_view() =~= old(out).deep_view() + Seq::<Op>::empty());
            Some((y0, x0))
        }
    }

    /// Clears the box of rows `y0` to `yf` and columns `x0` to `xf`, the first
    /// bounds included and the last ones excluded, as `clear_box` does.
    pub fn clr_box(&self, y0: i32, yf: i32, x0: i32, xf: i32, out: &mut Vec<DrawOp>) -> (ok: bool)
        ensures
            ok == in_i32(xf - x0),
            ok ==> final(out).deep_view() == old(out).deep_view() + clear_box_ops(
                y0 as int,
                yf as int,
                x0 as int,
                xf as int,
            ),
    {
        clear_box(y0, yf, x0, xf, out)
    }

    /// Clears the input box: the commands of `input_box_clear_ops`. Where a
    /// value does not fit in an `i32` it returns `false`.
    pub fn clr_input_box(&self, max_y: i32, max_x: i32, out: &mut Vec<DrawOp>) -> (ok: bool)
        ensures
            ok == input_box_clear_fits(max_y as int, max_x as int),
            ok ==> final(out).deep_view() == old(out).deep_view() + input_box_clear_ops(
                max_y as int,
                max_x as int,
            ),
    {
        let top = match sub_i32(max_y, INPUT_BOX_HEIGHT) {
            Some(v) => v,
            None => { return false; },
        };
        let right = match sub_i32(max_x, 1) {
            Some(v) => v,
            None => { return false; },
        };
        self.clr_box(top, max_y, INPUT_BOX_LEFT, right, out)
    }

    /// Draws the conversation: the commands of `conversation`. Where a value
    /// on the way does not fit in an `i32` it returns `false`.
    pub fn draw_old_msgs(&self, max_y: i32, max_x: i32, old_msgs: &Vec<Message>, out: &mut Vec<DrawOp>) -> (ok: bool)
        ensures
            ok == conversation(old_msgs.deep_view(), max_y as int, max_x as int).fits,
            ok ==> final(out).deep_view() == old(out).deep_view() + conversation(
                old_msgs.deep_view(),
                max_y as int,
                max_x as int,
            ).ops,
    {
        let ghost mv = old_msgs.deep_view();
        let ghost out0 = out.deep_view();
        let n = old_msgs.len();
        let top = match sub_i32(max_y, INPUT_BOX_HEIGHT) {
            Some(v) => v,
            None => { return false; },
        };
        if !self.clr_box(1, top, INPUT_BOX_LEFT, max_x, out) {
            return false;
        }
        if !self.border(max_y, max_x, out) {
            return false;
        }
        let mut curr_y = match sub_i32(top, 2) {
            Some(v) => v,
            None => { return false; },
        };
        let ghost y_start = curr_y as int;
        let ghost head = clear_box_ops(1, top as int, INPUT_BOX_LEFT as int, max_x as int) + border_ops(
            max_y as int,
            max_x as int,
        );
        assert(out.deep_view() =~= out0 + head + stack_msgs(mv, 0, y_start, max_x as int).ops);
        proof {
            lemma_stack_mono(mv, 0, n as nat, y_start, max_x as int);
        }
        let mut k: usize = 0;
        while k < n
            invariant
                n == old_msgs.len(),
                mv == old_msgs.deep_view(),
                out0 == old(out).deep_view(),
                y_start == max_y - INPUT_BOX_HEIGHT - 2,
                head == clear_box_ops(1, max_y - INPUT_BOX_HEIGHT, INPUT_BOX_LEFT as int, max_x as int)
                    + border_ops(max_y as int, max_x as int),
                k <= n,
                ({
                    let s = stack_msgs(mv, k as nat, y_start, max_x as int);
                    &&& s.y == curr_y
                    &&& s.fits
                    &&& out.deep_view() == out0 + head + s.ops
                }),
            decreases n - k,
        {
            let ghost prev_ops = out.deep_view();
            let msg = &old_msgs[n - 1 - k];
            assert(msg.deep_view() == mv[mv.len() - (k + 1)]);
            proof {
                lemma_stack_mono(mv, (k + 1) as nat, n as nat, y_start, max_x as int);
            }
            let new_coords = match self.draw_msg(max_x, msg, curr_y, INPUT_BOX_LEFT, out) {
                Some(p) => p,
                None => { return false; },
            };
            curr_y = new_coords.0;
            assert(out.deep_view() =~= out0 + head + stack_msgs(mv, (k + 1) as nat, y_start, max_x as int).ops);
            k = k + 1;
        }
        assert(out.deep_view() =~= old(out).deep_view() + conversation(mv, max_y as int, max_x as int).ops);
        true
    }

    /// Queues a message received from the server.
    pub fn receive(&mut self, msg: Message)
        ensures
            final(self).pending_view() == old(self).pending_view().push(msg.deep_view()),
    {
        let ghost before = self.pending_view();
        let ghost v = msg.deep_view();
        self.pending_msgs.push_back(msg);
        assert(self.pending_view() =~= before.push(v));
    }

    /// Takes the raw messages at the front of the queue and appends them to
    /// `old_msgs` as they are shown, their text wrapped at a third of the
    /// window's width. The first message that is not raw ends this, and is
    /// dropped.
    pub fn take_incoming(&mut self, max_x: i32, old_msgs: &mut Vec<Message>)
        ensures
            ({
                let p = old(self).pending_view();
                let k = raw_prefix_len(p);
                &&& final(self).pending_view() == p.skip(if k < p.len() { k + 1int } else { k as int })
                &&& final(old_msgs).deep_view() == old(old_msgs).deep_view() + p.take(k as int).map_values(
                    |m: MessageView| shown_message(m, max_x as int),
                )
                &&& forall|j: int|
                    old(old_msgs)@.len() <= j < old(old_msgs)@.len() + k ==> (
                    #[trigger] final(old_msgs).deep_view()[j] matches MessageView::Text { meta_data, msg_lines }
                        && p[j - old(old_msgs)@.len()] matches MessageView::Raw { meta_data: m_meta, text, .. }
                        && meta_data == m_meta && join_lines(msg_lines) == split_spaces(text))
            }),
    {
        let ghost p = self.pending_view();
        let ghost o = old_msgs.deep_view();
        let ghost mut i: int = 0;
        proof {
            assert(p.skip(0) =~= p);
            assert(o + p.take(0).map_values(|m: MessageView| shown_message(m, max_x as int)) =~= o);
        }
        loop
            invariant_except_break
                0 <= i <= p.len(),
                forall|j: int| 0 <= j < i ==> #[trigger] p[j] is Raw,
                self.pending_view() == p.skip(i),
                old_msgs.deep_view() == o + p.take(i).map_values(|m: MessageView| shown_message(m, max_x as int)),
            invariant
                p == old(self).pending_view(),
                o == old(old_msgs).deep_view(),
            ensures
                ({
                    let k = raw_prefix_len(p);
                    &&& self.pending_view() == p.skip(if k < p.len() { k + 1int } else { k as int })
                    &&& old_msgs.deep_view() == o + p.take(k as int).map_values(
                        |m: MessageView| shown_message(m, max_x as int),
                    )
                }),
            decreases p.len() - i,
        {
            let ghost before = self.pending_msgs@;
            let ghost pv = self.pending_view();
            assert(pv.len() == before.len());
            assert(before.len() > 0 ==> pv[0] == before[0].deep_view() && pv[0] == p[i]);
            let front = self.pending_msgs.pop_front();
            proof {
                if before.len() > 0 {
                    assert forall|j: int| 0 <= j < self.pending_view().len() implies self.pending_view()[j]
                        == p.skip(i + 1)[j] by {
                        assert(self.pending_msgs@[j] == before[j + 1]);
                        assert(pv[j + 1] == before[j + 1].deep_view());
                    }
                    assert(self.pending_view() =~= p.skip(i + 1));
                }
            }
            match front {
                Some(Message::Raw { meta_data, msg_type, text }) => {
                    let lines = crate::wrap::wrap_str(self.max_msg_width(max_x), &text);
                    let ghost prev = old_msgs.deep_view();
                    let shown = Message::Text { meta_data, msg_lines: lines };
                    assert(shown.deep_view() == shown_message(p[i], max_x as int));
                    old_msgs.push(shown);
                    proof {
                        assert(old_msgs.deep_view() =~= prev.push(shown_message(p[i], max_x as int)));
                        assert(p.take(i + 1).map_values(|m: MessageView| shown_message(m, max_x as int))
                            =~= p.take(i).map_values(|m: MessageView| shown_message(m, max_x as int)).push(
                            shown_message(p[i], max_x as int),
                        ));
                        i = i + 1;
                    }
                },
                Some(other) => {
                    proof {
                        lemma_raw_prefix_len(p, i);
                    }
                    break;
                },
                None => {
                    proof {
                        lemma_raw_prefix_len(p, i);
                    }
                    break;
                },
            }
        }
        proof {
            let k = raw_prefix_len(p);
            let n0 = o.len();
            assert(p.len() >= k) by {
                lemma_raw_prefix_is_raw(p);
            }
            assert forall|j: int| n0 <= j < n0 + k implies (
            #[trigger] old_msgs.deep_view()[j] matches MessageView::Text { meta_data, msg_lines }
                && p[j - n0] matches MessageView::Raw { meta_data: m_meta, text, .. } && meta_data
                == m_meta && join_lines(msg_lines) == split_spaces(text)) by {
                lemma_raw_prefix_is_raw(p);
                assert(old_msgs.deep_view()[j] == shown_message(p[j - n0], max_x as int));
                lemma_shown_keeps_words(p[j - n0], max_x as int);
            }
        }
    }

    /// Draws the input box whose right edge is at column `input_box_right`,
    /// with the text being typed, and moves the typing cursor to where the
    /// drawing ends: the commands and the column of `input_box`. Where a
    /// value on the way does not fit in an `i32` it returns `false` and leaves
    /// the cursor where it was.
    pub fn draw_input(
        &self,
        max_y: i32,
        max_x: i32,
        input_box_right: i32,
        input: &mut InputLine,
        out: &mut Vec<DrawOp>,
    ) -> (ok: bool)
        ensures
            ({
                let b = input_box(max_y as int, max_x as int, input_box_right as int, old(input).active_msg@, old(input).x as int);
                &&& ok == b.fits
                &&& final(input).active_msg == old(input).active_msg
                &&& ok ==> final(input).x == b.x
                &&& !ok ==> final(input).x == old(input).x
                &&& ok ==> final(out).deep_view() == old(out).deep_view() + b.ops
            }),
    {
        let ghost out0 = out.deep_view();
        let inner = match sub_i32(input_box_right, INPUT_BOX_LEFT) {
            Some(v) => v,
            None => { return false; },
        };
        let width = match sub_i32(inner, 4) {
            Some(v) => v,
            None => { return false; },
        };
        let disp = self.wrap_str(width, &input.active_msg);
        if !self.clr_input_box(max_y, max_x, out) {
            return false;
        }
        let y = match sub_i32(max_y, INPUT_BOX_HEIGHT) {
            Some(v) => v,
            None => { return false; },
        };
        match draw_typed_lines(&disp, y, input.x, out) {
            Some(x) => {
                input.x = x;
                assert(out.deep_view() =~= out0 + input_box(max_y as int, max_x as int, input_box_right as int, input.active_msg@, old(input).x as int).ops);
                true
            },
            None => false,
        }
    }

    /// Handles a key press: the edit of `key_action` applied to the line, as
    /// `InputLine::apply` does.
    pub fn handle_key(&self, input: &mut InputLine, key: Key) -> (r: Option<crate::input::KeyOutcome>)
        ensures
            ({
                let (msg, x, outcome) = crate::input::edit_result(key_action(key), old(input).active_msg@, old(input).x as int);
                &&& r is Some <==> in_i32(x)
                &&& r matches Some(o) ==> {
                    &&& o.deep_view() == outcome
                    &&& final(input).active_msg@ == msg
                    &&& final(input).x == x
                }
                &&& r is None ==> final(input).active_msg@ == old(input).active_msg@ && final(input).x == old(input).x
            }),
            key matches Key::Character(c) ==> (!is_control_char(c) ==> (r is Some <==> in_i32(
                old(input).x + 1,
            ))),
            key matches Key::Character(c) ==> (!is_control_char(c) && r is Some ==> r.unwrap().deep_view()
                == OutcomeView::Edited && final(input).active_msg@ == old(input).active_msg@.push(c)
                && final(input).x == old(input).x + 1),
    {
        let action = classify_key(key);
        input.apply(action)
    }

    /// One turn before a key is read: the raw messages waiting are taken
    /// into the history, as `take_incoming` does, and the conversation is
    /// drawn, as `draw_old_msgs` does. Where a value on the way does not fit
    /// in an `i32` it returns `false`.
    pub fn refresh(&mut self, history: &mut Vec<Message>, max_y: i32, max_x: i32, out: &mut Vec<DrawOp>) -> (ok: bool)
        ensures
            ({
                let p = old(self).pending_view();
                let k = raw_prefix_len(p);
                let h = old(history).deep_view() + p.take(k as int).map_values(
                    |m: MessageView| shown_message(m, max_x as int),
                );
                &&& final(self).pending_view() == p.skip(if k < p.len() { k + 1int } else { k as int })
                &&& final(history).deep_view() == h
                &&& ok == conversation(h, max_y as int, max_x as int).fits
                &&& ok ==> final(out).deep_view() == old(out).deep_view() + conversation(
                    h,
                    max_y as int,
                    max_x as int,
                ).ops
            }),
    {
        self.take_incoming(max_x, history);
        self.draw_old_msgs(max_y, max_x, history, out)
    }

    /// One key press: the edit of `key_action` is applied to the line; a
    /// sent line is appended to the history as it is shown, stamped
    /// `shown_at`, and the raw message that carries it, stamped `sent_at`, is
    /// returned for the server; and the commands of `key_turn` are drawn. Where
    /// a value on the way does not fit in an `i32` it returns `None`.
    pub fn on_key(
        &self,
        input: &mut InputLine,
        history: &mut Vec<Message>,
        key: Key,
        max_y: i32,
        max_x: i32,
        input_box_right: i32,
        sent_at: Timestamp,
        shown_at: Timestamp,
        out: &mut Vec<DrawOp>,
    ) -> (r: Option<Option<Message>>)
        ensures
            ({
                let (m1, x1, outcome) = edit_result(key_action(key), old(input).active_msg@, old(input).x as int);
                let h = next_history(old(history).deep_view(), outcome, max_x as int, shown_at);
                let t = key_turn(outcome, h, max_y as int, max_x as int, input_box_right as int, m1, x1);
                &&& r is Some <==> in_i32(x1) && t.fits
                &&& r matches Some(sent) ==> {
                    &&& final(input).active_msg@ == m1
                    &&& final(input).x == t.x
                    &&& final(history).deep_view() == h
                    &&& final(out).deep_view() == old(out).deep_view() + t.ops
                    &&& sent.deep_view() == match outcome {
                        OutcomeView::Submitted(text) => Some(outgoing_raw(text, sent_at)),
                        _ => None,
                    }
                }
            }),
    {
        let ghost out0 = out.deep_view();
        let ghost h0 = history.deep_view();
        let outcome = match self.handle_key(input, key) {
            Some(o) => o,
            None => { return None; },
        };
        let sent = match outcome {
            KeyOutcome::Ignored => {
                assert(out.deep_view() =~= out0 + Seq::<Op>::empty());
                return Some(None);
            },
            KeyOutcome::Submitted(text) => {
                let (raw, shown) = self.send_msg(max_x, &text, sent_at, shown_at);
                history.push(shown);
                assert(history.deep_view() =~= h0.push(outgoing_text(text@, max_x as int, shown_at)));
                let top = match sub_i32(max_y, INPUT_BOX_HEIGHT) {
                    Some(v) => v,
                    None => { return None; },
                };
                if !self.clr_box(1, top, INPUT_BOX_LEFT, max_x, out) {
                    return None;
                }
                if !self.border(max_y, max_x, out) {
                    return None;
                }
                if !self.draw_old_msgs(max_y, max_x, history, out) {
                    return None;
                }
                assert(out.deep_view() =~= out0 + sent_frame(history.deep_view(), max_y as int, max_x as int).ops);
                Some(raw)
            },
            KeyOutcome::Edited => {
                assert(out.deep_view() =~= out0 + Seq::<Op>::empty());
                None
            },
        };
        if !self.draw_input(max_y, max_x, input_box_right, input, out) {
            return None;
        }
        Some(sent)
    }
}

} // verus!
