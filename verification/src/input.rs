//! The line being typed: what a key press does to it, and how it is drawn in
//! the input box.

use vstd::prelude::*;
use crate::wrap::push_char;
use crate::draw::{
    add_i32, char_count_i32, emit, final_row, in_i32, lemma_lines_on_rows_front, lemma_printed_concat,
    lemma_printed_one, line_on_row, lines_on_rows, printed, sub_i32, Cursor, DrawOp, Op, INPUT_BOX_LEFT,
    PAIR_TYPING,
};

verus! {

/// A key press, as the chat windows tell them apart.
#[derive(Clone, Copy, PartialEq, Eq, Structural, Debug)]
pub enum Key {
    /// The delete-character key.
    Delete,
    /// The enter key of the keypad.
    Enter,
    /// The backspace key.
    Backspace,
    /// A character.
    Character(char),
    /// Any other key, or no key at all.
    Other,
}

/// What a key press does to the line being typed.
#[derive(Clone, Copy, PartialEq, Eq, Structural, Debug)]
pub enum EditAction {
    /// Nothing, and the screen is not redrawn.
    Ignore,
    /// Nothing, but the input box is redrawn.
    Keep,
    /// The last character is removed, if there is one.
    Pop,
    /// A character is added at the end.
    Push(char),
    /// The line is sent, if it holds a character, and emptied.
    Submit,
}

/// What became of a key press.
#[derive(Clone, Debug, PartialEq, Eq)]
pub enum KeyOutcome {
    /// The key is of no use: the screen stays as it is.
    Ignored,
    /// The line may have changed: the input box is redrawn.
    Edited,
    /// The line was sent: here it is. The line is now empty.
    Submitted(String),
}

/// A key outcome, as a mathematical value.
pub enum OutcomeView {
    Ignored,
    Edited,
    Submitted(Seq<char>),
}

impl DeepView for KeyOutcome {
    type V = OutcomeView;

    open spec fn deep_view(&self) -> OutcomeView {
        match self {
            KeyOutcome::Ignored => OutcomeView::Ignored,
            KeyOutcome::Edited => OutcomeView::Edited,
            KeyOutcome::Submitted(s) => OutcomeView::Submitted(s@),
        }
    }
}

/// The line being typed, and the column of the cursor.
#[derive(Clone, Debug, PartialEq, Eq)]
pub struct InputLine {
    pub active_msg: String,
    pub x: i32,
}

/// Whether `c` is a control character: one of the general category Cc of
/// Unicode, U+0000 to U+001F and U+007F to U+009F.
pub open spec fn is_control_char(c: char) -> bool {
    (c as u32) <= 0x1f || (0x7f <= (c as u32) && (c as u32) <= 0x9f)
}

/// `char::is_control`, which tells whether `c` is in the general category
/// Cc (control codes). That category is U+0000 to U+001F and U+007F to
/// U+009F, and Unicode keeps it fixed; the contract states this range.
#[verifier::external_body]
pub(crate) fn is_control(c: char) -> (r: bool)
    ensures
        r == is_control_char(c),
{
    c.is_control()
}

/// `String::pop`, which removes the last character of the string and returns
/// it, or returns `None` when the string is empty; the contract states this.
#[verifier::external_body]
fn pop_char(s: &mut String) -> (r: Option<char>)
    ensures
        match r {
            Some(c) => old(s)@.len() > 0 && final(s)@ == old(s)@.drop_last() && c == old(s)@.last(),
            None => old(s)@.len() == 0 && final(s)@ == old(s)@,
        },
{
    s.pop()
}

/// The line, the cursor column and the outcome after an edit.
pub open spec fn edit_result(action: EditAction, msg: Seq<char>, x: int) -> (Seq<char>, int, OutcomeView) {
    match action {
        EditAction::Ignore => (msg, x, OutcomeView::Ignored),
        EditAction::Keep => (msg, x, OutcomeView::Edited),
        EditAction::Pop => if msg.len() > 0 {
            (msg.drop_last(), x - 1, OutcomeView::Edited)
        } else {
            (msg, x, OutcomeView::Edited)
        },
        EditAction::Push(c) => (msg.push(c), x + 1, OutcomeView::Edited),
        EditAction::Submit => if msg.len() > 0 {
            (Seq::empty(), INPUT_BOX_LEFT as int, OutcomeView::Submitted(msg))
        } else {
            (msg, x, OutcomeView::Edited)
        },
    }
}

/// Removing the last character undoes adding one: the line and the cursor
/// column are back as they were.
pub proof fn lemma_push_then_pop(c: char, msg: Seq<char>, x: int)
    ensures
        ({
            let (m1, x1, _) = edit_result(EditAction::Push(c), msg, x);
            edit_result(EditAction::Pop, m1, x1) == (msg, x, OutcomeView::Edited)
        }),
{
    assert(msg.push(c).drop_last() =~= msg);
}

/// An empty line is never sent: a sent line holds at least one character,
/// and afterwards the line is empty and the cursor back at the left edge of
/// the input box.
pub proof fn lemma_submit_nonempty(action: EditAction, msg: Seq<char>, x: int)
    ensures
        ({
            let (m1, x1, outcome) = edit_result(action, msg, x);
            outcome matches OutcomeView::Submitted(t) ==> t == msg && t.len() > 0 && m1.len() == 0
                && x1 == INPUT_BOX_LEFT
        }),
{
}

impl InputLine {
    /// An empty line, with the cursor at the left edge of the input box.
    pub fn new() -> (r: InputLine)
        ensures
            r.active_msg@ == Seq::<char>::empty(),
            r.x == INPUT_BOX_LEFT,
    {
        InputLine { active_msg: String::new(), x: INPUT_BOX_LEFT }
    }

    /// Applies an edit: the line, the cursor column and the outcome of
    /// `edit_result`. Where the new column does not fit in an `i32` it
    /// returns `None` and leaves the line as it was.
    pub fn apply(&mut self, action: EditAction) -> (r: Option<KeyOutcome>)
        ensures
            ({
                let (msg, x, outcome) = edit_result(action, old(self).active_msg@, old(self).x as int);
                &&& r is Some <==> in_i32(x)
                &&& r matches Some(o) ==> {
                    &&& o.deep_view() == outcome
                    &&& final(self).active_msg@ == msg
                    &&& final(self).x == x
                }
                &&& r is None ==> final(self).active_msg@ == old(self).active_msg@ && final(self).x == old(self).x
            }),
    {
        match action {
            EditAction::Ignore => Some(KeyOutcome::Ignored),
            EditAction::Keep => Some(KeyOutcome::Edited),
            EditAction::Pop => {
                if self.active_msg.as_str().is_empty() {
                    Some(KeyOutcome::Edited)
                } else {
                    let x = match sub_i32(self.x, 1) {
                        Some(v) => v,
                        None => { return None; },
                    };
                    let _ = pop_char(&mut self.active_msg);
                    self.x = x;
                    Some(KeyOutcome::Edited)
                }
            },
            EditAction::Push(c) => {
                let x = match add_i32(self.x, 1) {
                    Some(v) => v,
                    None => { return None; },
                };
                push_char(&mut self.active_msg, c);
                self.x = x;
                Some(KeyOutcome::Edited)
            },
            EditAction::Submit => {
                if self.active_msg.as_str().is_empty() {
                    Some(KeyOutcome::Edited)
                } else {
                    let mut sent = String::new();
                    std::mem::swap(&mut sent, &mut self.active_msg);
                    self.x = INPUT_BOX_LEFT;
                    Some(KeyOutcome::Submitted(sent))
                }
            },
        }
    }
}

/// Draws one word of the typed text: a space, the word, and the cursor moves
/// past them. Nothing is drawn once the row is above the window: the drawing
/// stops there.
pub open spec fn typed_word(c: Cursor, s: Seq<char>) -> Cursor {
    if c.stopped {
        c
    } else if c.y < 0 {
        Cursor { y: c.y, x: c.x, ops: c.ops, stopped: true, fits: c.fits }
    } else {
        let x1 = c.x + 1;
        let x2 = x1 + s.len();
        Cursor {
            y: c.y,
            x: x2,
            ops: c.ops + seq![Op::AddCh(' '), Op::Print(s), Op::Move(c.y, x2)],
            stopped: false,
            fits: c.fits && in_i32(s.len() as int) && in_i32(x1) && in_i32(x2),
        }
    }
}

/// The cursor after the first `k` words of a typed line.
pub open spec fn typed_words(c: Cursor, line: Seq<Seq<char>>, k: nat) -> Cursor
    decreases k,
{
    if k == 0 {
        c
    } else {
        typed_word(typed_words(c, line, (k - 1) as nat), line[k - 1])
    }
}

/// A typed line: the cursor goes to the column left of the input box, the
/// words follow, and the next line goes one row up.
pub open spec fn typed_line(c: Cursor, line: Seq<Seq<char>>) -> Cursor {
    if c.stopped {
        c
    } else {
        let start = Cursor {
            y: c.y,
            x: INPUT_BOX_LEFT - 1,
            ops: c.ops.push(Op::Move(c.y, INPUT_BOX_LEFT - 1)),
            stopped: false,
            fits: c.fits,
        };
        let w = typed_words(start, line, line.len());
        if w.stopped {
            w
        } else {
            Cursor { y: w.y - 1, x: w.x, ops: w.ops, stopped: false, fits: w.fits && in_i32(w.y - 1) }
        }
    }
}

/// The cursor after the last `k` typed lines, from the bottom one up.
pub open spec fn typed_lines(c: Cursor, lines: Seq<Seq<Seq<char>>>, k: nat) -> Cursor
    decreases k,
{
    if k == 0 {
        c
    } else {
        typed_line(typed_lines(c, lines, (k - 1) as nat), lines[lines.len() - k])
    }
}

/// Drawing the typed text, wrapped into `lines`, upwards from row `y0` in
/// the color of typing; `x` is the cursor column before.
pub open spec fn typed_layout(lines: Seq<Seq<Seq<char>>>, y0: int, x: int) -> Cursor {
    typed_lines(
        Cursor { y: y0, x: x, ops: seq![Op::ColorSet(PAIR_TYPING)], stopped: false, fits: true },
        lines,
        lines.len(),
    )
}

proof fn lemma_typed_words_mono(c: Cursor, line: Seq<Seq<char>>, j: nat, k: nat)
    requires
        j <= k,
    ensures
        typed_words(c, line, k).fits ==> typed_words(c, line, j).fits,
        typed_words(c, line, j).stopped ==> typed_words(c, line, k) == typed_words(c, line, j),
    decreases k,
{
    if j < k {
        lemma_typed_words_mono(c, line, j, (k - 1) as nat);
    }
}

proof fn lemma_typed_lines_mono(c: Cursor, lines: Seq<Seq<Seq<char>>>, j: nat, k: nat)
    requires
        j <= k,
    ensures
        typed_lines(c, lines, k).fits ==> typed_lines(c, lines, j).fits,
        typed_lines(c, lines, j).stopped ==> typed_lines(c, lines, k) == typed_lines(c, lines, j),
    decreases k,
{
    if j < k {
        lemma_typed_lines_mono(c, lines, j, (k - 1) as nat);
        let prev = typed_lines(c, lines, (k - 1) as nat);
        let line = lines[lines.len() - k];
        if !prev.stopped {
            let start = Cursor {
                y: prev.y,
                x: INPUT_BOX_LEFT - 1,
                ops: prev.ops.push(Op::Move(prev.y, INPUT_BOX_LEFT - 1)),
                stopped: false,
                fits: prev.fits,
            };
            lemma_typed_words_mono(start, line, 0, line.len());
        }
    }
}

/// What a typed word draws: a space and the word, the word printed on the
/// cursor's row, which stays as it was.
proof fn lemma_typed_word_prints(c: Cursor, s: Seq<char>, row: int)
    requires
        !c.stopped,
        c.y >= 0,
        final_row(c.ops, row) == c.y,
    ensures
        printed(typed_word(c, s).ops, row) == printed(c.ops, row).push((c.y, s)),
        final_row(typed_word(c, s).ops, row) == c.y,
        !typed_word(c, s).stopped,
        typed_word(c, s).y == c.y,
{
    let n = typed_word(c, s);
    let x2 = c.x + 1 + s.len();
    let o1 = Op::AddCh(' ');
    let o2 = Op::Print(s);
    let o3 = Op::Move(c.y, x2);
    let tail = seq![o1] + seq![o2] + seq![o3];
    assert(n.ops =~= c.ops + tail);
    lemma_printed_concat(c.ops, tail, row);
    lemma_printed_one(o1, c.y);
    lemma_printed_one(o2, c.y);
    lemma_printed_one(o3, c.y);
    lemma_printed_concat(seq![o1], seq![o2], c.y);
    lemma_printed_concat(seq![o1] + seq![o2], seq![o3], c.y);
    assert(printed(tail, c.y) =~= seq![(c.y, s)]);
    assert(printed(c.ops, row) + seq![(c.y, s)] =~= printed(c.ops, row).push((c.y, s)));
}

/// What the first `k` words of a visible typed line draw: those words, left
/// to right, on the cursor's row.
proof fn lemma_typed_words_prints(c: Cursor, line: Seq<Seq<char>>, k: nat, row: int)
    requires
        !c.stopped,
        c.y >= 0,
        final_row(c.ops, row) == c.y,
        k <= line.len(),
    ensures
        printed(typed_words(c, line, k).ops, row) == printed(c.ops, row) + line_on_row(false, line, c.y).take(
            k as int,
        ),
        final_row(typed_words(c, line, k).ops, row) == c.y,
        !typed_words(c, line, k).stopped,
        typed_words(c, line, k).y == c.y,
    decreases k,
{
    if k == 0 {
        assert(printed(c.ops, row) + line_on_row(false, line, c.y).take(0) =~= printed(c.ops, row));
    } else {
        lemma_typed_words_prints(c, line, (k - 1) as nat, row);
        let prev = typed_words(c, line, (k - 1) as nat);
        lemma_typed_word_prints(prev, line[k - 1], row);
        assert(line_on_row(false, line, c.y).take(k as int) =~= line_on_row(false, line, c.y).take(k - 1).push(
            (c.y, line[k - 1]),
        ));
    }
}

/// What the last `k` typed lines draw, when every row drawn on is visible:
/// their words, the bottom line on row `c.y`, each line above on the next
/// row up.
proof fn lemma_typed_lines_prints(c: Cursor, lines: Seq<Seq<Seq<char>>>, k: nat, row: int)
    requires
        !c.stopped,
        k <= lines.len(),
        c.y + 1 >= k,
    ensures
        printed(typed_lines(c, lines, k).ops, row) == printed(c.ops, row) + lines_on_rows(
            false,
            lines.skip(lines.len() - k),
            c.y,
        ),
        !typed_lines(c, lines, k).stopped,
        typed_lines(c, lines, k).y == c.y - k,
    decreases k,
{
    if k == 0 {
        assert(lines.skip(lines.len() as int) =~= Seq::<Seq<Seq<char>>>::empty());
        assert(printed(c.ops, row) + Seq::<(int, Seq<char>)>::empty() =~= printed(c.ops, row));
    } else {
        lemma_typed_lines_prints(c, lines, (k - 1) as nat, row);
        let prev = typed_lines(c, lines, (k - 1) as nat);
        let line = lines[lines.len() - k];
        let mv = Op::Move(prev.y, INPUT_BOX_LEFT - 1);
        let start = Cursor { y: prev.y, x: INPUT_BOX_LEFT - 1, ops: prev.ops.push(mv), stopped: false, fits: prev.fits };
        assert(start.ops =~= prev.ops + seq![mv]);
        lemma_printed_concat(prev.ops, seq![mv], row);
        lemma_printed_one(mv, final_row(prev.ops, row));
        assert(printed(start.ops, row) =~= printed(prev.ops, row));
        lemma_typed_words_prints(start, line, line.len(), row);
        assert(line_on_row(false, line, prev.y).take(line.len() as int) =~= line_on_row(false, line, prev.y));
        let t = lines.skip(lines.len() - (k - 1));
        assert(lines.skip(lines.len() - k) =~= seq![line] + t);
        lemma_lines_on_rows_front(false, line, t, c.y);
        assert(printed(c.ops, row) + lines_on_rows(false, t, c.y) + line_on_row(false, line, c.y - t.len())
            =~= printed(c.ops, row) + (lines_on_rows(false, t, c.y) + line_on_row(false, line, c.y - t.len())));
    }
}

/// Typed text drawn whole is drawn in order on consecutive rows: its last
/// line on row `y0`, each earlier line one row further up (line `i` of `n`
/// on row `y0 - (n - 1 - i)`), the words of each line from first to last;
/// nothing else is printed.
pub proof fn lemma_typed_layout_rows(lines: Seq<Seq<Seq<char>>>, y0: int, x: int, row: int)
    requires
        y0 + 1 >= lines.len(),
    ensures
        printed(typed_layout(lines, y0, x).ops, row) == lines_on_rows(false, lines, y0),
{
    let c0 = Cursor { y: y0, x: x, ops: seq![Op::ColorSet(PAIR_TYPING)], stopped: false, fits: true };
    lemma_printed_one(Op::ColorSet(PAIR_TYPING), row);
    lemma_typed_lines_prints(c0, lines, lines.len(), row);
    assert(lines.skip(0) =~= lines);
    assert(Seq::<(int, Seq<char>)>::empty() + lines_on_rows(false, lines, y0) =~= lines_on_rows(false, lines, y0));
}

/// Draws the typed text, wrapped into `lines`, upwards from row `y0`, and
/// returns the cursor column where the drawing ends: the commands and the
/// column of `typed_layout`. Where a value on the way does not fit in an
/// `i32`, it returns `None`.
pub fn draw_typed_lines(lines: &Vec<Vec<String>>, y0: i32, x_before: i32, out: &mut Vec<DrawOp>) -> (res: Option<i32>)
    ensures
        ({
            let l = typed_layout(lines.deep_view(), y0 as int, x_before as int);
            &&& res is Some <==> l.fits
            &&& res matches Some(v) ==> {
                &&& final(out).deep_view() == old(out).deep_view() + l.ops
                &&& v == l.x
            }
        }),
{
    let ghost lv = lines.deep_view();
    let ghost out0 = out.deep_view();
    let ghost c0 = Cursor { y: y0 as int, x: x_before as int, ops: seq![Op::ColorSet(PAIR_TYPING)], stopped: false, fits: true };
    let n = lines.len();
    emit(out, DrawOp::ColorSet(PAIR_TYPING));
    assert(out.deep_view() =~= out0 + c0.ops);
    let mut y = y0;
    let mut x = x_before;
    let mut k: usize = 0;
    while k < n
        invariant
            n == lines.len(),
            lv == lines.deep_view(),
            out0 == old(out).deep_view(),
            c0 == (Cursor { y: y0 as int, x: x_before as int, ops: seq![Op::ColorSet(PAIR_TYPING)], stopped: false, fits: true }),
            k <= n,
            ({
                let c = typed_lines(c0, lv, k as nat);
                &&& c.y == y
                &&& c.x == x
                &&& !c.stopped
                &&& c.fits
                &&& out.deep_view() == out0 + c.ops
            }),
        decreases n - k,
    {
        let ghost ck = typed_lines(c0, lv, k as nat);
        let line = &lines[n - 1 - k];
        let ghost line_v = line.deep_view();
        assert(line_v == lv[lv.len() - (k + 1)]);
        let m = line.len();
        let ghost start = Cursor {
            y: ck.y,
            x: INPUT_BOX_LEFT - 1,
            ops: ck.ops.push(Op::Move(ck.y, INPUT_BOX_LEFT - 1)),
            stopped: false,
            fits: ck.fits,
        };
        x = INPUT_BOX_LEFT - 1;
        emit(out, DrawOp::Move(y, x));
        let mut j: usize = 0;
        while j < m
            invariant
                m == line.len(),
                line_v == line.deep_view(),
                n == lines.len(),
                lv == lines.deep_view(),
                out0 == old(out).deep_view(),
                c0 == (Cursor { y: y0 as int, x: x_before as int, ops: seq![Op::ColorSet(PAIR_TYPING)], stopped: false, fits: true }),
                k < n,
                ck == typed_lines(c0, lv, k as nat),
                !ck.stopped,
                start == (Cursor {
                    y: ck.y,
                    x: INPUT_BOX_LEFT - 1,
                    ops: ck.ops.push(Op::Move(ck.y, INPUT_BOX_LEFT - 1)),
                    stopped: false,
                    fits: ck.fits,
                }),
                line_v == lv[lv.len() - (k + 1)],
                j <= m,
                ({
                    let c = typed_words(start, line_v, j as nat);
                    &&& c.y == y
                    &&& c.x == x
                    &&& !c.stopped
                    &&& c.fits
                    &&& out.deep_view() == out0 + c.ops
                }),
            decreases m - j,
        {
            proof {
                lemma_typed_words_mono(start, line_v, (j + 1) as nat, m as nat);
                lemma_typed_lines_mono(c0, lv, (k + 1) as nat, n as nat);
            }
            if y < 0 {
                return Some(x);
            }
            let s = &line[j];
            let n_chars = match char_count_i32(s) {
                Some(v) => v,
                None => { return None; },
            };
            emit(out, DrawOp::AddCh(' '));
            emit(out, DrawOp::Print(s.clone()));
            x = match add_i32(x, 1) {
                Some(v) => v,
                None => { return None; },
            };
            x = match add_i32(x, n_chars) {
                Some(v) => v,
                None => { return None; },
            };
            emit(out, DrawOp::Move(y, x));
            assert(out.deep_view() =~= out0 + typed_words(start, line_v, (j + 1) as nat).ops);
            j = j + 1;
        }
        proof {
            lemma_typed_lines_mono(c0, lv, (k + 1) as nat, n as nat);
        }
        y = match sub_i32(y, 1) {
            Some(v) => v,
            None => { return None; },
        };
        k = k + 1;
    }
    Some(x)
}

} // verus!
