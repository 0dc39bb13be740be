//! Drawing commands for the terminal, and the layout of wrapped message text
//! as such commands.
//!
//! Nothing here touches the terminal: each function appends the commands
//! that draw something to a buffer, and the caller hands them to the
//! terminal in order.

use vstd::prelude::*;

verus! {

/// The color pair of messages received from the other side.
pub const PAIR_OLD_RECEIVED: i16 = 1;

/// The color pair of the background.
pub const PAIR_DEFAULT: i16 = 2;

/// The color pair of messages that this side sent.
pub const PAIR_OLD_SENT: i16 = 3;

/// The color pair of the text being typed.
pub const PAIR_TYPING: i16 = 4;

/// The color pair of the border.
pub const PAIR_BORDER: i16 = 5;

/// The rows of the input box, at the bottom of the window.
pub const INPUT_BOX_HEIGHT: i32 = 6;

/// The left edge of the input box and of the messages.
pub const INPUT_BOX_LEFT: i32 = 2;

/// One command to the terminal.
#[derive(Clone, Debug, PartialEq, Eq)]
pub enum DrawOp {
    /// Clears the window.
    Clear,
    /// Selects a color pair for what follows.
    ColorSet(i16),
    /// Moves the cursor to a row and a column.
    Move(i32, i32),
    /// Writes one character at the cursor.
    AddCh(char),
    /// Writes a string at the cursor.
    Print(String),
    /// Draws a horizontal line of a character, of the given length, from the
    /// cursor.
    HLine(char, i32),
    /// Draws the window's border with the given characters: left and right
    /// sides, top and bottom, then the four corners (top left, top right,
    /// bottom left, bottom right).
    Border(char, char, char, char, char, char, char, char),
}

/// A command to the terminal, as a mathematical value.
pub enum Op {
    Clear,
    ColorSet(i16),
    Move(int, int),
    AddCh(char),
    Print(Seq<char>),
    HLine(char, int),
    Border(char, char, char, char, char, char, char, char),
}

impl DeepView for DrawOp {
    type V = Op;

    open spec fn deep_view(&self) -> Op {
        match self {
            DrawOp::Clear => Op::Clear,
            DrawOp::ColorSet(p) => Op::ColorSet(*p),
            DrawOp::Move(y, x) => Op::Move(*y as int, *x as int),
            DrawOp::AddCh(c) => Op::AddCh(*c),
            DrawOp::Print(s) => Op::Print(s@),
            DrawOp::HLine(c, n) => Op::HLine(*c, *n as int),
            DrawOp::Border(a, b, c, d, e, f, g, h) => Op::Border(*a, *b, *c, *d, *e, *f, *g, *h),
        }
    }
}

/// Appends one command to the buffer.
pub fn emit(out: &mut Vec<DrawOp>, op: DrawOp)
    ensures
        final(out).deep_view() == old(out).deep_view().push(op.deep_view()),
{
    let ghost before = out.deep_view();
    let ghost v = op.deep_view();
    out.push(op);
    assert(out.deep_view() =~= before.push(v));
}

/// Clearing rows `y0` up to `yf`, `yf` excluded: on each row the cursor moves
/// to column `x0` and a line of `w` spaces is drawn.
pub open spec fn clear_rows(y0: int, yf: int, x0: int, w: int) -> Seq<Op>
    decreases yf - y0,
{
    if yf <= y0 {
        Seq::empty()
    } else {
        clear_rows(y0, yf - 1, x0, w) + seq![Op::Move(yf - 1, x0), Op::HLine(' ', w)]
    }
}

/// Clearing a box clears every row from `y0` up to `yf`, `yf` excluded, in
/// order, and nothing else: for each row, the cursor moves to column `x0` of
/// the row and a line of `w` spaces is drawn.
pub proof fn lemma_clear_rows_cover(y0: int, yf: int, x0: int, w: int)
    ensures
        clear_rows(y0, yf, x0, w).len() == (if yf > y0 { 2 * (yf - y0) } else { 0 }),
        forall|j: int|
            0 <= j < clear_rows(y0, yf, x0, w).len() ==> #[trigger] clear_rows(y0, yf, x0, w)[j] == (if j
                % 2 == 0 {
                Op::Move(y0 + j / 2, x0)
            } else {
                Op::HLine(' ', w)
            }),
    decreases yf - y0,
{
    if yf > y0 {
        lemma_clear_rows_cover(y0, yf - 1, x0, w);
        let prev = clear_rows(y0, yf - 1, x0, w);
        let rows = clear_rows(y0, yf, x0, w);
        assert forall|j: int| 0 <= j < rows.len() implies #[trigger] rows[j] == (if j % 2 == 0 {
            Op::Move(y0 + j / 2, x0)
        } else {
            Op::HLine(' ', w)
        }) by {
            if j < prev.len() {
                assert(rows[j] == prev[j]);
            } else if j == prev.len() {
                assert(j == 2 * (yf - 1 - y0));
                assert(j % 2 == 0 && j / 2 == yf - 1 - y0);
            } else {
                assert(j == 2 * (yf - 1 - y0) + 1);
                assert(j % 2 == 1);
            }
        }
    }
}

/// Clearing the box of rows `y0` to `yf` and columns `x0` to `xf`, the first
/// bounds included and the last ones excluded, in the background color.
pub open spec fn clear_box_ops(y0: int, yf: int, x0: int, xf: int) -> Seq<Op> {
    seq![Op::ColorSet(PAIR_DEFAULT)] + clear_rows(y0, yf, x0, xf - x0)
}

/// Clears the box of rows `y0` to `yf` and columns `x0` to `xf`, the first
/// bounds included and the last ones excluded: the commands of
/// `clear_box_ops`. Where the width `xf - x0` does not fit in an `i32` it
/// returns `false`.
pub fn clear_box(y0: i32, yf: i32, x0: i32, xf: i32, out: &mut Vec<DrawOp>) -> (ok: bool)
    ensures
        ok == in_i32(xf - x0),
        ok ==> final(out).deep_view() == old(out).deep_view() + clear_box_ops(
            y0 as int,
            yf as int,
            x0 as int,
            xf as int,
        ),
{
    let ghost out0 = out.deep_view();
    emit(out, DrawOp::ColorSet(PAIR_DEFAULT));
    let w = match sub_i32(xf, x0) {
        Some(v) => v,
        None => { return false; },
    };
    assert(out.deep_view() =~= out0 + seq![Op::ColorSet(PAIR_DEFAULT)] + clear_rows(y0 as int, y0 as int, x0 as int, w as int));
    if y0 < yf {
        let mut y = y0;
        while y < yf
            invariant
                y0 <= y <= yf,
                w == xf - x0,
                out0 == old(out).deep_view(),
                out.deep_view() == out0 + seq![Op::ColorSet(PAIR_DEFAULT)] + clear_rows(y0 as int, y as int, x0 as int, w as int),
            decreases yf - y,
        {
            emit(out, DrawOp::Move(y, x0));
            emit(out, DrawOp::HLine(' ', w));
            assert(clear_rows(y0 as int, y + 1, x0 as int, w as int) == clear_rows(y0 as int, y as int, x0 as int, w as int) + seq![Op::Move(y as int, x0 as int), Op::HLine(' ', w as int)]);
            assert(out.deep_view() =~= out0 + seq![Op::ColorSet(PAIR_DEFAULT)] + clear_rows(y0 as int, y + 1, x0 as int, w as int));
            y = y + 1;
        }
    }
    assert(out.deep_view() =~= old(out).deep_view() + clear_box_ops(y0 as int, yf as int, x0 as int, xf as int));
    true
}

/// `a / 3`, rounded toward zero as integer division does.
pub open spec fn third(a: int) -> int {
    if a >= 0 {
        a / 3
    } else {
        -((-a) / 3)
    }
}

/// `a / 3`, rounded toward zero.
pub fn third_of(a: i32) -> (r: i32)
    ensures
        r == third(a as int),
{
    if a >= 0 {
        a / 3
    } else {
        let wide: i64 = a as i64;
        let q: i64 = (-wide) / 3;
        -(q as i32)
    }
}

/// Whether a value fits in an `i32`.
pub open spec fn in_i32(v: int) -> bool {
    i32::MIN <= v <= i32::MAX
}

/// The state of drawing the lines of a message: the cursor, the commands so
/// far, whether the drawing stopped at the top of the window, and whether
/// every value computed so far fits in an `i32`.
pub struct Cursor {
    pub y: int,
    pub x: int,
    pub ops: Seq<Op>,
    pub stopped: bool,
    pub fits: bool,
}

/// Draws one word. The words of a sent message go right to left, each
/// preceded by a space; those of a received message left to right, each
/// followed by a space. Nothing is drawn once the cursor is above the window:
/// the drawing stops there.
pub open spec fn put_word(sent: bool, c: Cursor, s: Seq<char>) -> Cursor {
    if c.stopped {
        c
    } else if c.y < 0 {
        Cursor { y: c.y, x: c.x, ops: c.ops, stopped: true, fits: c.fits }
    } else if sent {
        let x = c.x - (1 + s.len());
        Cursor {
            y: c.y,
            x: x,
            ops: c.ops + seq![Op::Move(c.y, x), Op::AddCh(' '), Op::Move(c.y, x + 1), Op::Print(s), Op::Move(c.y, x)],
            stopped: false,
            fits: c.fits && in_i32(s.len() as int) && in_i32(1 + s.len() as int) && in_i32(x) && in_i32(x + 1),
        }
    } else {
        let x = c.x + (1 + s.len());
        Cursor {
            y: c.y,
            x: x,
            ops: c.ops + seq![Op::Print(s), Op::AddCh(' '), Op::Move(c.y, x)],
            stopped: false,
            fits: c.fits && in_i32(s.len() as int) && in_i32(1 + s.len() as int) && in_i32(x),
        }
    }
}

/// The `t`-th word drawn of a line: sent lines are drawn from their last
/// word.
pub open spec fn word_at(sent: bool, line: Seq<Seq<char>>, t: int) -> Seq<char> {
    if sent {
        line[line.len() - 1 - t]
    } else {
        line[t]
    }
}

/// The cursor after drawing the first `k` words of a line, in drawing order.
pub open spec fn put_words(sent: bool, c: Cursor, line: Seq<Seq<char>>, k: nat) -> Cursor
    decreases k,
{
    if k == 0 {
        c
    } else {
        put_word(sent, put_words(sent, c, line, (k - 1) as nat), word_at(sent, line, k - 1))
    }
}

/// The end of a line: the cursor goes up one row, back to the start column,
/// and moves to the left edge of the messages.
pub open spec fn end_line(c: Cursor, start_x: int, x0: int) -> Cursor {
    if c.stopped {
        c
    } else {
        let y = c.y - 1;
        Cursor { y: y, x: start_x, ops: c.ops.push(Op::Move(y, x0)), stopped: false, fits: c.fits && in_i32(y) }
    }
}

/// The cursor after drawing the last `k` lines, from the bottom one up.
pub open spec fn put_lines(
    sent: bool,
    c: Cursor,
    lines: Seq<Seq<Seq<char>>>,
    k: nat,
    start_x: int,
    x0: int,
) -> Cursor
    decreases k,
{
    if k == 0 {
        c
    } else {
        let prev = put_lines(sent, c, lines, (k - 1) as nat, start_x, x0);
        let line = lines[lines.len() - k];
        end_line(put_words(sent, prev, line, line.len()), start_x, x0)
    }
}

/// The column at which the lines of a message start: the right edge of the
/// window, two columns in, for a sent message; `x0` for a received one.
pub open spec fn start_column(sent: bool, x0: int, max_x: int) -> int {
    if sent {
        max_x - 2
    } else {
        x0
    }
}

/// The cursor before the first word of a message: the color of the message
/// is selected and the cursor moved to the row `y0`, at the start column.
pub open spec fn text_start(sent: bool, y0: int, x0: int, max_x: int) -> Cursor {
    let start_x = start_column(sent, x0, max_x);
    Cursor {
        y: y0,
        x: start_x,
        ops: seq![Op::ColorSet(if sent { PAIR_OLD_SENT } else { PAIR_OLD_RECEIVED }), Op::Move(y0, start_x)],
        stopped: false,
        fits: in_i32(max_x - 2),
    }
}

/// Drawing the lines of a message upwards from row `y0`, the bottom line
/// first: the commands, and the cursor where it ends, one row above the
/// message unless the drawing stopped at the top of the window.
pub open spec fn text_layout(
    sent: bool,
    lines: Seq<Seq<Seq<char>>>,
    y0: int,
    x0: int,
    max_x: int,
) -> Cursor {
    let start_x = start_column(sent, x0, max_x);
    let c = put_lines(sent, text_start(sent, y0, x0, max_x), lines, lines.len(), start_x, x0);
    if c.stopped {
        c
    } else {
        Cursor { y: c.y - 1, x: c.x, ops: c.ops, stopped: false, fits: c.fits && in_i32(c.y - 1) }
    }
}

/// A later cursor fits only if an earlier one does, and a stopped cursor
/// does not move.
proof fn lemma_put_words_mono(sent: bool, c: Cursor, line: Seq<Seq<char>>, j: nat, k: nat)
    requires
        j <= k,
    ensures
        put_words(sent, c, line, k).fits ==> put_words(sent, c, line, j).fits,
        put_words(sent, c, line, j).stopped ==> put_words(sent, c, line, k) == put_words(
            sent,
            c,
            line,
            j,
        ),
    decreases k,
{
    if j < k {
        lemma_put_words_mono(sent, c, line, j, (k - 1) as nat);
    }
}

/// A stopped cursor is not moved by any later line, and a later cursor fits
/// only if an earlier one does.
proof fn lemma_put_lines_mono(
    sent: bool,
    c: Cursor,
    lines: Seq<Seq<Seq<char>>>,
    j: nat,
    k: nat,
    start_x: int,
    x0: int,
)
    requires
        j <= k,
    ensures
        put_lines(sent, c, lines, k, start_x, x0).fits ==> put_lines(
            sent,
            c,
            lines,
            j,
            start_x,
            x0,
        ).fits,
        put_lines(sent, c, lines, j, start_x, x0).stopped ==> put_lines(
            sent,
            c,
            lines,
            k,
            start_x,
            x0,
        ) == put_lines(sent, c, lines, j, start_x, x0),
    decreases k,
{
    if j < k {
        lemma_put_lines_mono(sent, c, lines, j, (k - 1) as nat, start_x, x0);
        let prev = put_lines(sent, c, lines, (k - 1) as nat, start_x, x0);
        let line = lines[lines.len() - k];
        lemma_put_words_mono(sent, prev, line, 0, line.len());
    }
}

/// Drawing words on a visible row neither stops nor changes the row.
proof fn lemma_put_words_visible(sent: bool, c: Cursor, line: Seq<Seq<char>>, k: nat)
    requires
        !c.stopped,
        c.y >= 0,
    ensures
        !put_words(sent, c, line, k).stopped,
        put_words(sent, c, line, k).y == c.y,
    decreases k,
{
    if k > 0 {
        lemma_put_words_visible(sent, c, line, (k - 1) as nat);
    }
}

/// While every row drawn on is visible, each line moves the cursor one row
/// up and back to the start column.
proof fn lemma_put_lines_visible(
    sent: bool,
    c: Cursor,
    lines: Seq<Seq<Seq<char>>>,
    k: nat,
    start_x: int,
    x0: int,
)
    requires
        !c.stopped,
        c.x == start_x,
        k <= lines.len(),
        c.y + 1 >= k,
    ensures
        !put_lines(sent, c, lines, k, start_x, x0).stopped,
        put_lines(sent, c, lines, k, start_x, x0).y == c.y - k,
        put_lines(sent, c, lines, k, start_x, x0).x == start_x,
    decreases k,
{
    if k > 0 {
        lemma_put_lines_visible(sent, c, lines, (k - 1) as nat, start_x, x0);
        let prev = put_lines(sent, c, lines, (k - 1) as nat, start_x, x0);
        let line = lines[lines.len() - k];
        lemma_put_words_visible(sent, prev, line, line.len());
    }
}

/// Once stopped, words leave the row alone.
proof fn lemma_put_words_stopped_row(sent: bool, c: Cursor, line: Seq<Seq<char>>, k: nat)
    ensures
        put_words(sent, c, line, k).stopped ==> put_words(sent, c, line, k).y < 0 || c.stopped,
        c.stopped ==> put_words(sent, c, line, k) == c,
    decreases k,
{
    if k > 0 {
        lemma_put_words_stopped_row(sent, c, line, (k - 1) as nat);
    }
}

/// The drawing stops only on a row above the window.
proof fn lemma_put_lines_stopped_row(
    sent: bool,
    c: Cursor,
    lines: Seq<Seq<Seq<char>>>,
    k: nat,
    start_x: int,
    x0: int,
)
    requires
        !c.stopped,
    ensures
        put_lines(sent, c, lines, k, start_x, x0).stopped ==> put_lines(
            sent,
            c,
            lines,
            k,
            start_x,
            x0,
        ).y < 0,
    decreases k,
{
    if k > 0 {
        lemma_put_lines_stopped_row(sent, c, lines, (k - 1) as nat, start_x, x0);
        let prev = put_lines(sent, c, lines, (k - 1) as nat, start_x, x0);
        let line = lines[lines.len() - k];
        lemma_put_words_stopped_row(sent, prev, line, line.len());
    }
}

/// When every line of a message falls on a visible row (the top one is row
/// `y0 - (n - 1)` for `n` lines), the message is drawn whole and the cursor
/// ends one blank row above it, at the start column: row `y0 - n - 1`.
pub proof fn lemma_text_layout_visible(
    sent: bool,
    lines: Seq<Seq<Seq<char>>>,
    y0: int,
    x0: int,
    max_x: int,
)
    requires
        y0 + 1 >= lines.len(),
    ensures
        !text_layout(sent, lines, y0, x0, max_x).stopped,
        text_layout(sent, lines, y0, x0, max_x).y == y0 - lines.len() - 1,
        text_layout(sent, lines, y0, x0, max_x).x == start_column(sent, x0, max_x),
{
    lemma_put_lines_visible(
        sent,
        text_start(sent, y0, x0, max_x),
        lines,
        lines.len(),
        start_column(sent, x0, max_x),
        x0,
    );
}

/// A message whose drawing stops at the top of the window leaves the cursor
/// above the window.
pub proof fn lemma_text_layout_stops_above(
    sent: bool,
    lines: Seq<Seq<Seq<char>>>,
    y0: int,
    x0: int,
    max_x: int,
)
    ensures
        text_layout(sent, lines, y0, x0, max_x).stopped ==> text_layout(
            sent,
            lines,
            y0,
            x0,
            max_x,
        ).y < 0,
{
    lemma_put_lines_stopped_row(
        sent,
        text_start(sent, y0, x0, max_x),
        lines,
        lines.len(),
        start_column(sent, x0, max_x),
        x0,
    );
}

/// `a + b`, or `None` where it does not fit in an `i32`.
pub fn add_i32(a: i32, b: i32) -> (r: Option<i32>)
    ensures
        r == (if in_i32(a + b) { Some((a + b) as i32) } else { None::<i32> }),
{
    let s: i64 = a as i64 + b as i64;
    if s < i32::MIN as i64 || s > i32::MAX as i64 {
        None
    } else {
        Some(s as i32)
    }
}

/// `a - b`, or `None` where it does not fit in an `i32`.
pub fn sub_i32(a: i32, b: i32) -> (r: Option<i32>)
    ensures
        r == (if in_i32(a - b) { Some((a - b) as i32) } else { None::<i32> }),
{
    let s: i64 = a as i64 - b as i64;
    if s < i32::MIN as i64 || s > i32::MAX as i64 {
        None
    } else {
        Some(s as i32)
    }
}

/// The number of characters of `s`, or `None` where it does not fit in an
/// `i32`.
pub fn char_count_i32(s: &String) -> (r: Option<i32>)
    ensures
        r == (if in_i32(s@.len() as int) { Some(s@.len() as i32) } else { None::<i32> }),
{
    let n = s.as_str().unicode_len();
    if n > i32::MAX as usize {
        None
    } else {
        Some(n as i32)
    }
}

/// The strings that commands print, in order, each with the row it is
/// printed on: the row of the last move before it, or `row` before any move.
pub open spec fn printed(ops: Seq<Op>, row: int) -> Seq<(int, Seq<char>)>
    decreases ops.len(),
{
    if ops.len() == 0 {
        Seq::empty()
    } else {
        match ops[0] {
            Op::Move(y, _) => printed(ops.drop_first(), y),
            Op::Print(s) => seq![(row, s)] + printed(ops.drop_first(), row),
            _ => printed(ops.drop_first(), row),
        }
    }
}

/// The row of the cursor after commands: that of the last move, or `row` if
/// there is none.
pub open spec fn final_row(ops: Seq<Op>, row: int) -> int
    decreases ops.len(),
{
    if ops.len() == 0 {
        row
    } else {
        match ops[0] {
            Op::Move(y, _) => final_row(ops.drop_first(), y),
            _ => final_row(ops.drop_first(), row),
        }
    }
}

/// The words of a line, each on row `y`, in the order they are drawn: a
/// line sent from this side from its last word to its first, a received
/// line from its first word to its last.
pub open spec fn line_on_row(sent: bool, line: Seq<Seq<char>>, y: int) -> Seq<(int, Seq<char>)> {
    Seq::new(
        line.len(),
        |t: int| (y, if sent { line[line.len() - 1 - t] } else { line[t] }),
    )
}

/// The words of the lines of a message whose last line is on row `y`, each
/// earlier line one row further up, in the order they are drawn: the last
/// line first, then the one before it, up to the first line.
pub open spec fn lines_on_rows(sent: bool, lines: Seq<Seq<Seq<char>>>, y: int) -> Seq<(int, Seq<char>)>
    decreases lines.len(),
{
    if lines.len() == 0 {
        Seq::empty()
    } else {
        line_on_row(sent, lines.last(), y) + lines_on_rows(sent, lines.drop_last(), y - 1)
    }
}

/// What commands print, and where the cursor row ends, split at a join.
pub proof fn lemma_printed_concat(a: Seq<Op>, b: Seq<Op>, row: int)
    ensures
        printed(a + b, row) == printed(a, row) + printed(b, final_row(a, row)),
        final_row(a + b, row) == final_row(b, final_row(a, row)),
    decreases a.len(),
{
    if a.len() == 0 {
        assert(a + b =~= b);
    } else {
        assert((a + b).drop_first() =~= a.drop_first() + b);
        assert((a + b)[0] == a[0]);
        match a[0] {
            Op::Move(y, _) => {
                lemma_printed_concat(a.drop_first(), b, y);
            },
            Op::Print(s) => {
                lemma_printed_concat(a.drop_first(), b, row);
                assert(seq![(row, s)] + printed(a.drop_first(), row) + printed(b, final_row(a, row))
                    =~= seq![(row, s)] + (printed(a.drop_first(), row) + printed(b, final_row(a, row))));
            },
            _ => {
                lemma_printed_concat(a.drop_first(), b, row);
            },
        }
    }
}

/// What one command prints, and where it leaves the cursor row.
pub proof fn lemma_printed_one(op: Op, row: int)
    ensures
        printed(seq![op], row) == (match op {
            Op::Print(s) => seq![(row, s)],
            _ => Seq::<(int, Seq<char>)>::empty(),
        }),
        final_row(seq![op], row) == (match op {
            Op::Move(y, _) => y,
            _ => row,
        }),
{
    let one = seq![op];
    let none = Seq::<Op>::empty();
    assert(one.drop_first() =~= none);
    assert(one[0] == op);
    match op {
        Op::Move(y, _) => {
            assert(printed(none, y) == Seq::<(int, Seq<char>)>::empty());
            assert(final_row(none, y) == y);
        },
        Op::Print(s) => {
            assert(printed(none, row) == Seq::<(int, Seq<char>)>::empty());
            assert(final_row(none, row) == row);
            assert(seq![(row, s)] + Seq::<(int, Seq<char>)>::empty() =~= seq![(row, s)]);
        },
        _ => {
            assert(printed(none, row) == Seq::<(int, Seq<char>)>::empty());
            assert(final_row(none, row) == row);
        },
    }
}

/// What a word draws: it prints the word on the cursor's row and leaves the
/// row as it was.
proof fn lemma_put_word_prints(sent: bool, c: Cursor, s: Seq<char>, row: int)
    requires
        !c.stopped,
        c.y >= 0,
        final_row(c.ops, row) == c.y,
    ensures
        printed(put_word(sent, c, s).ops, row) == printed(c.ops, row).push((c.y, s)),
        final_row(put_word(sent, c, s).ops, row) == c.y,
{
    let n = put_word(sent, c, s);
    let tail = n.ops.skip(c.ops.len() as int);
    assert(n.ops =~= c.ops + tail);
    lemma_printed_concat(c.ops, tail, row);
    if sent {
        let x = c.x - (1 + s.len());
        let o1 = Op::Move(c.y, x);
        let o2 = Op::AddCh(' ');
        let o3 = Op::Move(c.y, x + 1);
        let o4 = Op::Print(s);
        assert(tail =~= seq![o1] + seq![o2] + seq![o3] + seq![o4] + seq![o1]);
        lemma_printed_one(o1, c.y);
        lemma_printed_one(o2, c.y);
        lemma_printed_one(o3, c.y);
        lemma_printed_one(o4, c.y);
        lemma_printed_concat(seq![o1], seq![o2], c.y);
        lemma_printed_concat(seq![o1] + seq![o2], seq![o3], c.y);
        lemma_printed_concat(seq![o1] + seq![o2] + seq![o3], seq![o4], c.y);
        lemma_printed_concat(seq![o1] + seq![o2] + seq![o3] + seq![o4], seq![o1], c.y);
        assert(printed(tail, c.y) =~= seq![(c.y, s)]);
    } else {
        let x = c.x + (1 + s.len());
        let o1 = Op::Print(s);
        let o2 = Op::AddCh(' ');
        let o3 = Op::Move(c.y, x);
        assert(tail =~= seq![o1] + seq![o2] + seq![o3]);
        lemma_printed_one(o1, c.y);
        lemma_printed_one(o2, c.y);
        lemma_printed_one(o3, c.y);
        lemma_printed_concat(seq![o1], seq![o2], c.y);
        lemma_printed_concat(seq![o1] + seq![o2], seq![o3], c.y);
        assert(printed(tail, c.y) =~= seq![(c.y, s)]);
    }
    assert(printed(c.ops, row) + seq![(c.y, s)] =~= printed(c.ops, row).push((c.y, s)));
}

/// What the first `k` words of a visible line draw: those words, in drawing
/// order, on the cursor's row.
proof fn lemma_put_words_prints(sent: bool, c: Cursor, line: Seq<Seq<char>>, k: nat, row: int)
    requires
        !c.stopped,
        c.y >= 0,
        final_row(c.ops, row) == c.y,
        k <= line.len(),
    ensures
        printed(put_words(sent, c, line, k).ops, row) == printed(c.ops, row) + line_on_row(
            sent,
            line,
            c.y,
        ).take(k as int),
        final_row(put_words(sent, c, line, k).ops, row) == c.y,
        !put_words(sent, c, line, k).stopped,
        put_words(sent, c, line, k).y == c.y,
    decreases k,
{
    if k == 0 {
        assert(printed(c.ops, row) + line_on_row(sent, line, c.y).take(0) =~= printed(c.ops, row));
    } else {
        lemma_put_words_prints(sent, c, line, (k - 1) as nat, row);
        let prev = put_words(sent, c, line, (k - 1) as nat);
        lemma_put_word_prints(sent, prev, word_at(sent, line, k - 1), row);
        assert(line_on_row(sent, line, c.y).take(k as int) =~= line_on_row(sent, line, c.y).take(k - 1).push(
            (c.y, word_at(sent, line, k - 1)),
        ));
    }
}

/// `lines_on_rows` of lines with one more line in front: that line comes
/// last, above the others.
pub proof fn lemma_lines_on_rows_front(sent: bool, a: Seq<Seq<char>>, t: Seq<Seq<Seq<char>>>, y: int)
    ensures
        lines_on_rows(sent, seq![a] + t, y) == lines_on_rows(sent, t, y) + line_on_row(sent, a, y - t.len()),
    decreases t.len(),
{
    if t.len() == 0 {
        let s = seq![a] + t;
        assert(s =~= seq![a]);
        assert(s.drop_last() =~= Seq::<Seq<Seq<char>>>::empty());
        assert(s.last() == a);
        assert(lines_on_rows(sent, Seq::<Seq<Seq<char>>>::empty(), y - 1) == Seq::<(int, Seq<char>)>::empty());
        assert(lines_on_rows(sent, t, y) == Seq::<(int, Seq<char>)>::empty());
        assert(line_on_row(sent, a, y) + Seq::<(int, Seq<char>)>::empty() =~= line_on_row(sent, a, y));
        assert(Seq::<(int, Seq<char>)>::empty() + line_on_row(sent, a, y) =~= line_on_row(sent, a, y));
    } else {
        let s = seq![a] + t;
        assert(s.drop_last() =~= seq![a] + t.drop_last());
        assert(s.last() == t.last());
        lemma_lines_on_rows_front(sent, a, t.drop_last(), y - 1);
        assert(line_on_row(sent, t.last(), y) + (lines_on_rows(sent, t.drop_last(), y - 1) + line_on_row(
            sent,
            a,
            y - 1 - t.drop_last().len(),
        )) =~= line_on_row(sent, t.last(), y) + lines_on_rows(sent, t.drop_last(), y - 1) + line_on_row(
            sent,
            a,
            y - t.len(),
        ));
    }
}

/// What the last `k` lines of a visible message draw: their words, the
/// bottom line on row `c.y`, each line above on the next row up.
proof fn lemma_put_lines_prints(
    sent: bool,
    c: Cursor,
    lines: Seq<Seq<Seq<char>>>,
    k: nat,
    start_x: int,
    x0: int,
    row: int,
)
    requires
        !c.stopped,
        c.x == start_x,
        k <= lines.len(),
        c.y + 1 >= k,
        final_row(c.ops, row) == c.y,
    ensures
        printed(put_lines(sent, c, lines, k, start_x, x0).ops, row) == printed(c.ops, row) + lines_on_rows(
            sent,
            lines.skip(lines.len() - k),
            c.y,
        ),
        final_row(put_lines(sent, c, lines, k, start_x, x0).ops, row) == c.y - k,
    decreases k,
{
    lemma_put_lines_visible(sent, c, lines, k, start_x, x0);
    if k == 0 {
        assert(lines.skip(lines.len() as int) =~= Seq::<Seq<Seq<char>>>::empty());
        assert(printed(c.ops, row) + Seq::<(int, Seq<char>)>::empty() =~= printed(c.ops, row));
    } else {
        lemma_put_lines_prints(sent, c, lines, (k - 1) as nat, start_x, x0, row);
        lemma_put_lines_visible(sent, c, lines, (k - 1) as nat, start_x, x0);
        let prev = put_lines(sent, c, lines, (k - 1) as nat, start_x, x0);
        let line = lines[lines.len() - k];
        lemma_put_words_prints(sent, prev, line, line.len(), row);
        let w = put_words(sent, prev, line, line.len());
        let e = end_line(w, start_x, x0);
        assert(e.ops =~= w.ops + seq![Op::Move(w.y - 1, x0)]);
        lemma_printed_concat(w.ops, seq![Op::Move(w.y - 1, x0)], row);
        lemma_printed_one(Op::Move(w.y - 1, x0), w.y);
        assert(line_on_row(sent, line, prev.y).take(line.len() as int) =~= line_on_row(sent, line, prev.y));
        let t = lines.skip(lines.len() - (k - 1));
        assert(lines.skip(lines.len() - k) =~= seq![line] + t);
        lemma_lines_on_rows_front(sent, line, t, c.y);
        assert(printed(e.ops, row) + Seq::<(int, Seq<char>)>::empty() =~= printed(e.ops, row));
        assert(printed(c.ops, row) + lines_on_rows(sent, t, c.y) + line_on_row(sent, line, c.y - t.len())
            =~= printed(c.ops, row) + (lines_on_rows(sent, t, c.y) + line_on_row(sent, line, c.y - t.len())));
    }
}

/// A message drawn whole draws its lines in order on consecutive rows: the
/// last line on row `y0`, each earlier line one row further up (line `i` of
/// `n` on row `y0 - (n - 1 - i)`), whoever sent it; and nothing else is
/// printed. The words of a sent line are printed from its last to its first,
/// those of a received line from its first to its last.
pub proof fn lemma_text_layout_rows(
    sent: bool,
    lines: Seq<Seq<Seq<char>>>,
    y0: int,
    x0: int,
    max_x: int,
    row: int,
)
    requires
        y0 + 1 >= lines.len(),
    ensures
        printed(text_layout(sent, lines, y0, x0, max_x).ops, row) == lines_on_rows(sent, lines, y0),
{
    let c0 = text_start(sent, y0, x0, max_x);
    let xs = start_column(sent, x0, max_x);
    let o1 = Op::ColorSet(if sent { PAIR_OLD_SENT } else { PAIR_OLD_RECEIVED });
    let o2 = Op::Move(y0, xs);
    assert(c0.ops =~= seq![o1] + seq![o2]);
    lemma_printed_one(o1, row);
    lemma_printed_one(o2, row);
    lemma_printed_concat(seq![o1], seq![o2], row);
    assert(printed(c0.ops, row) =~= Seq::<(int, Seq<char>)>::empty());
    lemma_put_lines_prints(sent, c0, lines, lines.len(), xs, x0, row);
    lemma_put_lines_visible(sent, c0, lines, lines.len(), xs, x0);
    assert(lines.skip(0) =~= lines);
    assert(Seq::<(int, Seq<char>)>::empty() + lines_on_rows(sent, lines, y0) =~= lines_on_rows(sent, lines, y0));
}

/// Draws the lines of a message upwards from row `y0`, the bottom line first,
/// and returns where the cursor ends: the commands and the cursor of
/// `text_layout`. Where a value on the way does not fit in an `i32`, it
/// returns `None`.
pub fn draw_lines(
    lines: &Vec<Vec<String>>,
    sent: bool,
    y0: i32,
    x0: i32,
    max_x: i32,
    out: &mut Vec<DrawOp>,
) -> (res: Option<(i32, i32)>)
    ensures
        ({
            let l = text_layout(sent, lines.deep_view(), y0 as int, x0 as int, max_x as int);
            &&& res is Some <==> l.fits
            &&& res matches Some(p) ==> {
                &&& final(out).deep_view() == old(out).deep_view() + l.ops
                &&& p.0 == l.y
                &&& p.1 == l.x
            }
        }),
{
    let ghost lv = lines.deep_view();
    let ghost out0 = out.deep_view();
    let ghost c0 = text_start(sent, y0 as int, x0 as int, max_x as int);
    let ghost xs = start_column(sent, x0 as int, max_x as int);
    let n = lines.len();
    let left_x = match sub_i32(max_x, 2) {
        Some(v) => v,
        None => {
            proof {
                lemma_put_lines_mono(sent, c0, lv, 0, n as nat, xs, x0 as int);
            }
            return None;
        },
    };
    let start_x = if sent {
        left_x
    } else {
        x0
    };
    emit(out, DrawOp::ColorSet(if sent { PAIR_OLD_SENT } else { PAIR_OLD_RECEIVED }));
    let mut curr_y = y0;
    let mut curr_x = start_x;
    emit(out, DrawOp::Move(curr_y, curr_x));
    assert(out.deep_view() =~= out0 + c0.ops);
    let mut k: usize = 0;
    while k < n
        invariant
            n == lines.len(),
            lv == lines.deep_view(),
            out0 == old(out).deep_view(),
            c0 == text_start(sent, y0 as int, x0 as int, max_x as int),
            xs == start_column(sent, x0 as int, max_x as int),
            k <= n,
            start_x == xs,
            ({
                let c = put_lines(sent, c0, lv, k as nat, xs, x0 as int);
                &&& c.y == curr_y
                &&& c.x == curr_x
                &&& !c.stopped
                &&& c.fits
                &&& out.deep_view() == out0 + c.ops
            }),
        decreases n - k,
    {
        let ghost ck = put_lines(sent, c0, lv, k as nat, xs, x0 as int);
        let line = &lines[n - 1 - k];
        let ghost line_v = line.deep_view();
        assert(line_v == lv[lv.len() - (k + 1)]);
        let m = line.len();
        let mut j: usize = 0;
        while j < m
            invariant
                m == line.len(),
                line_v == line.deep_view(),
                n == lines.len(),
                lv == lines.deep_view(),
                out0 == old(out).deep_view(),
                c0 == text_start(sent, y0 as int, x0 as int, max_x as int),
                xs == start_column(sent, x0 as int, max_x as int),
                k < n,
                start_x == xs,
                ck == put_lines(sent, c0, lv, k as nat, xs, x0 as int),
                line_v == lv[lv.len() - (k + 1)],
                j <= m,
                ({
                    let c = put_words(sent, ck, line_v, j as nat);
                    &&& c.y == curr_y
                    &&& c.x == curr_x
                    &&& !c.stopped
                    &&& c.fits
                    &&& out.deep_view() == out0 + c.ops
                }),
            decreases m - j,
        {
            proof {
                lemma_put_words_mono(sent, ck, line_v, (j + 1) as nat, m as nat);
                lemma_put_lines_mono(sent, c0, lv, (k + 1) as nat, n as nat, xs, x0 as int);
            }
            if curr_y < 0 {
                return Some((curr_y, curr_x));
            }
            let idx = if sent {
                m - 1 - j
            } else {
                j
            };
            let s = &line[idx];
            assert(s@ == word_at(sent, line_v, j as int));
            let n_chars = match char_count_i32(s) {
                Some(v) => v,
                None => { return None; },
            };
            let step = match add_i32(1, n_chars) {
                Some(v) => v,
                None => { return None; },
            };
            if sent {
                curr_x = match sub_i32(curr_x, step) {
                    Some(v) => v,
                    None => { return None; },
                };
                let next_x = match add_i32(curr_x, 1) {
                    Some(v) => v,
                    None => { return None; },
                };
                emit(out, DrawOp::Move(curr_y, curr_x));
                emit(out, DrawOp::AddCh(' '));
                emit(out, DrawOp::Move(curr_y, next_x));
                emit(out, DrawOp::Print(s.clone()));
                emit(out, DrawOp::Move(curr_y, curr_x));
            } else {
                emit(out, DrawOp::Print(s.clone()));
                emit(out, DrawOp::AddCh(' '));
                curr_x = match add_i32(curr_x, step) {
                    Some(v) => v,
                    None => { return None; },
                };
                emit(out, DrawOp::Move(curr_y, curr_x));
            }
            assert(out.deep_view() =~= out0 + put_words(sent, ck, line_v, (j + 1) as nat).ops);
            j = j + 1;
        }
        proof {
            lemma_put_lines_mono(sent, c0, lv, (k + 1) as nat, n as nat, xs, x0 as int);
        }
        curr_y = match sub_i32(curr_y, 1) {
            Some(v) => v,
            None => { return None; },
        };
        curr_x = start_x;
        emit(out, DrawOp::Move(curr_y, x0));
        assert(out.deep_view() =~= out0 + put_lines(sent, c0, lv, (k + 1) as nat, xs, x0 as int).ops);
        k = k + 1;
    }
    curr_y = match sub_i32(curr_y, 1) {
        Some(v) => v,
        None => { return None; },
    };
    Some((curr_y, curr_x))
}

} // verus!
