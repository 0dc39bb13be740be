//! Word wrapping of message text.
//!
//! A text is cut at every single space into words (empty words included),
//! and the words are laid out greedily on lines: a word joins the current
//! line while the characters of the line, spaces not counted, stay under the
//! width; a word of the width or more stands on a line of its own.

use vstd::prelude::*;

verus! {

/// A word, as a sequence of characters.
pub type Word = Seq<char>;

/// A line of words.
pub type Line = Seq<Seq<char>>;

/// The pieces of `s` between single spaces, in order, as `str::split(' ')`
/// gives them: there is always at least one piece, and empty pieces are kept.
pub open spec fn split_spaces(s: Seq<char>) -> Seq<Word>
    decreases s.len(),
{
    if s.len() == 0 {
        seq![Seq::<char>::empty()]
    } else {
        let prev = split_spaces(s.drop_last());
        if s.last() == ' ' {
            prev.push(Seq::<char>::empty())
        } else {
            prev.update(prev.len() - 1, prev.last().push(s.last()))
        }
    }
}

/// The number of characters of the words of a line, spaces not counted.
pub open spec fn line_chars(line: Line) -> int
    decreases line.len(),
{
    if line.len() == 0 {
        0
    } else {
        line_chars(line.drop_last()) + line.last().len()
    }
}

/// All the words of a sequence of lines, in order.
pub open spec fn join_lines(lines: Seq<Line>) -> Seq<Word>
    decreases lines.len(),
{
    if lines.len() == 0 {
        Seq::empty()
    } else {
        join_lines(lines.drop_last()) + lines.last()
    }
}

/// Whether `n` characters reach the width `w`. A negative width is never
/// reached.
pub open spec fn reaches(w: int, n: int) -> bool {
    w >= 0 && n >= w
}

/// The state of the wrapping: the finished lines, the line being filled and
/// the number of characters on it.
pub struct WrapState {
    pub lines: Seq<Line>,
    pub current: Line,
    pub used: int,
}

/// Where one more word goes.
pub open spec fn wrap_step(w: int, st: WrapState, word: Word) -> WrapState {
    if reaches(w, word.len() as int) {
        let done = if st.current.len() > 0 {
            st.lines.push(st.current)
        } else {
            st.lines
        };
        WrapState { lines: done.push(seq![word]), current: Seq::empty(), used: 0 }
    } else if reaches(w, st.used + word.len()) {
        WrapState { lines: st.lines.push(st.current), current: seq![word], used: word.len() as int }
    } else {
        WrapState { lines: st.lines, current: st.current.push(word), used: st.used + word.len() }
    }
}

/// The state after laying out `words` from an empty start.
pub open spec fn wrap_words(w: int, words: Seq<Word>) -> WrapState
    decreases words.len(),
{
    if words.len() == 0 {
        WrapState { lines: Seq::empty(), current: Seq::empty(), used: 0 }
    } else {
        wrap_step(w, wrap_words(w, words.drop_last()), words.last())
    }
}

/// The lines of a finished state: the line being filled closes it, if it
/// holds a word.
pub open spec fn finish(st: WrapState) -> Seq<Line> {
    if st.current.len() > 0 {
        st.lines.push(st.current)
    } else {
        st.lines
    }
}

/// The lines of `text` wrapped at width `w`.
pub open spec fn wrap_text(w: int, text: Seq<char>) -> Seq<Line> {
    finish(wrap_words(w, split_spaces(text)))
}

/// A line fits the width `w`: it holds a single word, or fewer than `w`
/// characters.
pub open spec fn line_fits(w: int, line: Line) -> bool {
    line.len() == 1 || line_chars(line) < w
}

/// Each line but the last was closed only because the first word of the
/// next one did not fit on it.
pub open spec fn lines_greedy(w: int, lines: Seq<Line>) -> bool {
    forall|i: int, j: int|
        #![trigger lines[i], lines[j]]
        0 <= i && j == i + 1 && j < lines.len() ==> line_chars(lines[i]) + lines[j][0].len() >= w
}

/// What holds of the state after laying out `words`.
pub open spec fn wrap_inv(w: int, words: Seq<Word>, st: WrapState) -> bool {
    &&& join_lines(st.lines) + st.current == words
    &&& forall|i: int| 0 <= i < st.lines.len() ==> #[trigger] st.lines[i].len() > 0
    &&& st.used == line_chars(st.current)
    &&& w < 0 ==> st.lines.len() == 0
    &&& w >= 0 ==> {
        &&& forall|i: int| 0 <= i < st.lines.len() ==> line_fits(w, #[trigger] st.lines[i])
        &&& st.current.len() == 0 || line_chars(st.current) < w
        &&& lines_greedy(w, st.lines)
        &&& st.current.len() > 0 && st.lines.len() > 0 ==> line_chars(st.lines.last())
            + st.current[0].len() >= w
        &&& st.current.len() == 0 && st.lines.len() > 0 ==> line_chars(st.lines.last()) >= w
    }
}

/// The characters of a line are never negative in number.
pub proof fn lemma_line_chars_nonneg(line: Line)
    ensures
        line_chars(line) >= 0,
    decreases line.len(),
{
    if line.len() > 0 {
        lemma_line_chars_nonneg(line.drop_last());
    }
}

/// Joining lines after one more line is pushed.
proof fn lemma_join_push(lines: Seq<Line>, line: Line)
    ensures
        join_lines(lines.push(line)) == join_lines(lines) + line,
{
    assert(lines.push(line).drop_last() =~= lines);
}

/// The characters of a line after one more word is pushed.
proof fn lemma_line_chars_push(line: Line, word: Word)
    ensures
        line_chars(line.push(word)) == line_chars(line) + word.len(),
{
    assert(line.push(word).drop_last() =~= line);
}

/// A line of one word has that word's characters.
proof fn lemma_line_chars_single(word: Word)
    ensures
        line_chars(seq![word]) == word.len(),
{
    lemma_line_chars_push(Seq::empty(), word);
    assert(Seq::<Word>::empty().push(word) =~= seq![word]);
}

/// `wrap_inv` holds of every state the layout goes through.
pub proof fn lemma_wrap_words_inv(w: int, words: Seq<Word>)
    ensures
        wrap_inv(w, words, wrap_words(w, words)),
    decreases words.len(),
{
    if words.len() == 0 {
        assert(join_lines(Seq::<Line>::empty()) + Seq::<Word>::empty() =~= words);
    } else {
        let prev = words.drop_last();
        let word = words.last();
        lemma_wrap_words_inv(w, prev);
        let st = wrap_words(w, prev);
        let next = wrap_words(w, words);
        assert(prev.push(word) =~= words);
        lemma_line_chars_nonneg(st.current);
        if st.lines.len() > 0 {
            lemma_line_chars_nonneg(st.lines.last());
        }
        if reaches(w, word.len() as int) {
            let done = if st.current.len() > 0 {
                st.lines.push(st.current)
            } else {
                st.lines
            };
            lemma_join_push(st.lines, st.current);
            lemma_join_push(done, seq![word]);
            assert(join_lines(done) == join_lines(st.lines) + st.current) by {
                if st.current.len() == 0 {
                    assert(join_lines(st.lines) + st.current =~= join_lines(st.lines));
                }
            }
            assert(join_lines(next.lines) + next.current =~= words);
            let single: Line = seq![word];
            lemma_line_chars_single(word);
            assert(forall|i: int| 0 <= i < next.lines.len() ==> #[trigger] next.lines[i].len() > 0) by {
                assert forall|i: int| 0 <= i < next.lines.len() implies #[trigger] next.lines[i].len() > 0 by {
                    if i < done.len() && i >= st.lines.len() {
                        assert(done[i] == st.current);
                    }
                }
            }
            if w >= 0 {
                assert(forall|i: int| 0 <= i < next.lines.len() ==> line_fits(w, #[trigger] next.lines[i])) by {
                    assert forall|i: int| 0 <= i < next.lines.len() implies line_fits(w, #[trigger] next.lines[i]) by {
                        if i < done.len() && i >= st.lines.len() {
                            assert(done[i] == st.current);
                        }
                    }
                }
                assert(lines_greedy(w, next.lines)) by {
                    assert forall|i: int, j: int|
                        0 <= i && j == i + 1 && j < next.lines.len() implies line_chars(next.lines[i])
                        + next.lines[j][0].len() >= w by {
                        if j == next.lines.len() - 1 {
                            assert(next.lines[j] == single);
                            lemma_line_chars_nonneg(next.lines[i]);
                        } else if j == done.len() - 1 && st.current.len() > 0 {
                            assert(next.lines[j] == st.current);
                            assert(next.lines[i] == st.lines.last());
                        } else {
                            assert(next.lines[i] == st.lines[i]);
                            assert(next.lines[j] == st.lines[j]);
                        }
                    }
                }
            }
        } else if reaches(w, st.used + word.len()) {
            lemma_join_push(st.lines, st.current);
            let single: Line = seq![word];
            lemma_line_chars_single(word);
            assert(join_lines(next.lines) + next.current =~= words);
            assert(st.current.len() > 0);
            assert(lines_greedy(w, next.lines)) by {
                assert forall|i: int, j: int|
                    0 <= i && j == i + 1 && j < next.lines.len() implies line_chars(next.lines[i])
                    + next.lines[j][0].len() >= w by {
                    if j == next.lines.len() - 1 {
                        assert(next.lines[j] == st.current);
                        assert(next.lines[i] == st.lines.last());
                    } else {
                        assert(next.lines[i] == st.lines[i]);
                        assert(next.lines[j] == st.lines[j]);
                    }
                }
            }
        } else {
            lemma_line_chars_push(st.current, word);
            assert(join_lines(next.lines) + next.current =~= words);
        }
    }
}

/// The lines after closing the state, and what `wrap_inv` says of them.
proof fn lemma_wrap_text_facts(w: int, text: Seq<char>)
    ensures
        join_lines(wrap_text(w, text)) == split_spaces(text),
        forall|i: int|
            0 <= i < wrap_text(w, text).len() ==> #[trigger] wrap_text(w, text)[i].len() > 0,
        w >= 0 ==> forall|i: int|
            0 <= i < wrap_text(w, text).len() ==> line_fits(w, #[trigger] wrap_text(w, text)[i]),
        w >= 0 ==> lines_greedy(w, wrap_text(w, text)),
        w < 0 ==> wrap_text(w, text).len() <= 1,
{
    let words = split_spaces(text);
    lemma_wrap_words_inv(w, words);
    let st = wrap_words(w, words);
    let lines = wrap_text(w, text);
    if st.current.len() > 0 {
        lemma_join_push(st.lines, st.current);
        if w >= 0 {
            assert(lines_greedy(w, lines)) by {
                assert forall|i: int, j: int|
                    0 <= i && j == i + 1 && j < lines.len() implies line_chars(lines[i])
                    + lines[j][0].len() >= w by {
                    if j == lines.len() - 1 {
                        assert(lines[j] == st.current);
                        assert(lines[i] == st.lines.last());
                    } else {
                        assert(lines[i] == st.lines[i]);
                        assert(lines[j] == st.lines[j]);
                    }
                }
            }
            assert(forall|i: int| 0 <= i < lines.len() ==> line_fits(w, #[trigger] lines[i])) by {
                assert forall|i: int| 0 <= i < lines.len() implies line_fits(w, #[trigger] lines[i]) by {
                    if i == lines.len() - 1 {
                        assert(lines[i] == st.current);
                    } else {
                        assert(lines[i] == st.lines[i]);
                    }
                }
            }
        }
        assert(forall|i: int| 0 <= i < lines.len() ==> #[trigger] lines[i].len() > 0) by {
            assert forall|i: int| 0 <= i < lines.len() implies #[trigger] lines[i].len() > 0 by {
                if i < lines.len() - 1 {
                    assert(lines[i] == st.lines[i]);
                }
            }
        }
    } else {
        assert(join_lines(st.lines) + st.current =~= join_lines(st.lines));
    }
}

/// Wrapping keeps every word of the text, in order, and adds none: the words
/// of the lines, read line after line, are the pieces of the text between
/// single spaces.
pub proof fn lemma_wrap_keeps_words(w: int, text: Seq<char>)
    ensures
        join_lines(wrap_text(w, text)) == split_spaces(text),
{
    lemma_wrap_text_facts(w, text);
}

/// Wrapping gives at least one line, and no line is empty.
pub proof fn lemma_wrap_lines_nonempty(w: int, text: Seq<char>)
    ensures
        wrap_text(w, text).len() >= 1,
        forall|i: int|
            0 <= i < wrap_text(w, text).len() ==> #[trigger] wrap_text(w, text)[i].len() > 0,
{
    lemma_wrap_text_facts(w, text);
    lemma_split_nonempty(text);
    if wrap_text(w, text).len() == 0 {
        assert(join_lines(wrap_text(w, text)) == Seq::<Word>::empty());
    }
}

/// With a width of zero or more, every line holds a single word or fewer
/// characters than the width, spaces not counted.
pub proof fn lemma_wrap_lines_fit(w: int, text: Seq<char>)
    requires
        w >= 0,
    ensures
        forall|i: int|
            0 <= i < wrap_text(w, text).len() ==> line_fits(w, #[trigger] wrap_text(w, text)[i]),
{
    lemma_wrap_text_facts(w, text);
}

/// The characters of a line include those of each of its words.
pub proof fn lemma_line_chars_ge_word(line: Line, j: int)
    requires
        0 <= j < line.len(),
    ensures
        line_chars(line) >= line[j].len(),
    decreases line.len(),
{
    lemma_line_chars_nonneg(line.drop_last());
    if j < line.len() - 1 {
        lemma_line_chars_ge_word(line.drop_last(), j);
    }
}

/// With a width of zero or more, a word of the width or longer stands on a
/// line of its own.
pub proof fn lemma_wrap_long_word_alone(w: int, text: Seq<char>, i: int, j: int)
    requires
        w >= 0,
        0 <= i < wrap_text(w, text).len(),
        0 <= j < wrap_text(w, text)[i].len(),
        wrap_text(w, text)[i][j].len() >= w,
    ensures
        wrap_text(w, text)[i].len() == 1,
{
    lemma_wrap_text_facts(w, text);
    lemma_line_chars_ge_word(wrap_text(w, text)[i], j);
    assert(line_fits(w, wrap_text(w, text)[i]));
}

/// With a width of zero or more, the wrapping is greedy: a line is closed
/// only when the first word of the next line would bring it to the width.
pub proof fn lemma_wrap_greedy(w: int, text: Seq<char>)
    requires
        w >= 0,
    ensures
        lines_greedy(w, wrap_text(w, text)),
{
    lemma_wrap_text_facts(w, text);
}

/// With a negative width nothing is wrapped: all the words stand on one line.
pub proof fn lemma_wrap_negative_width(w: int, text: Seq<char>)
    requires
        w < 0,
    ensures
        wrap_text(w, text) == seq![split_spaces(text)],
{
    lemma_wrap_text_facts(w, text);
    lemma_wrap_lines_nonempty(w, text);
    let lines = wrap_text(w, text);
    assert(lines.drop_last() =~= Seq::<Line>::empty());
    assert(join_lines(Seq::<Line>::empty()) + lines[0] =~= lines[0]);
    assert(lines =~= seq![split_spaces(text)]);
}

/// The number of lines of a state once closed.
pub open spec fn line_count(st: WrapState) -> int {
    st.lines.len() + (if st.current.len() > 0 { 1int } else { 0 })
}

/// The layout at the wider width, `st2`, is not behind the one at `st1`: it has
/// no more lines, and with as many, if the narrower one has an open line, so
/// has the wider one, made of the last words of the narrower one's.
pub open spec fn stays_ahead(st1: WrapState, st2: WrapState) -> bool {
    &&& line_count(st2) <= line_count(st1)
    &&& line_count(st2) == line_count(st1) && st1.current.len() > 0 ==> {
        &&& st2.current.len() > 0
        &&& st2.current.len() <= st1.current.len()
        &&& st2.current == st1.current.skip(st1.current.len() - st2.current.len())
    }
}

/// The last words of a line have no more characters than the line.
proof fn lemma_line_chars_skip(line: Line, k: int)
    requires
        0 <= k <= line.len(),
    ensures
        line_chars(line.skip(k)) <= line_chars(line),
    decreases line.len(),
{
    lemma_line_chars_nonneg(line);
    if k < line.len() {
        lemma_line_chars_skip(line.drop_last(), k);
        assert(line.skip(k).drop_last() =~= line.drop_last().skip(k));
        assert(line.skip(k).last() == line.last());
        lemma_line_chars_nonneg(line.drop_last().skip(k));
    } else {
        assert(line.skip(k) =~= Seq::<Word>::empty());
    }
}

/// Laying out the same words at a width and at a wider one, the wider one
/// stays ahead at every word.
proof fn lemma_wrap_stays_ahead(w1: int, w2: int, words: Seq<Word>)
    requires
        0 <= w1 <= w2,
    ensures
        stays_ahead(wrap_words(w1, words), wrap_words(w2, words)),
    decreases words.len(),
{
    if words.len() > 0 {
        let prev = words.drop_last();
        let x = words.last();
        lemma_wrap_stays_ahead(w1, w2, prev);
        lemma_wrap_words_inv(w1, prev);
        lemma_wrap_words_inv(w2, prev);
        let s1 = wrap_words(w1, prev);
        let s2 = wrap_words(w2, prev);
        let n1 = wrap_words(w1, words);
        let n2 = wrap_words(w2, words);
        lemma_line_chars_nonneg(s1.current);
        lemma_line_chars_nonneg(s2.current);
        if line_count(s2) == line_count(s1) && s1.current.len() > 0 {
            let k = s1.current.len() - s2.current.len();
            lemma_line_chars_skip(s1.current, k);
            assert(s1.current.push(x).skip(k) =~= s2.current.push(x));
        }
        assert(seq![x].skip(0) =~= seq![x]);
        if n1.current.len() > 0 && s1.current.len() > 0 && n1.current == s1.current.push(x) {
            assert(s1.current.push(x).skip(s1.current.len() as int) =~= seq![x]);
        }
    }
}

/// Widening the wrap never adds lines: at a width of zero or more, and at
/// any wider one, the wider wrapping has no more lines.
pub proof fn lemma_wrap_widen(w1: int, w2: int, text: Seq<char>)
    requires
        0 <= w1 <= w2,
    ensures
        wrap_text(w2, text).len() <= wrap_text(w1, text).len(),
{
    lemma_wrap_stays_ahead(w1, w2, split_spaces(text));
}

/// `lines` are a wrapping of `text` at width `w`: they hold every word of the
/// text, in order, and no other, no line is empty, and at a width of zero or
/// more each line holds a single word or fewer characters than the width, and
/// a line is closed only when the next line's first word would bring it to
/// the width.
pub open spec fn is_wrapping(w: int, text: Seq<char>, lines: Seq<Line>) -> bool {
    &&& join_lines(lines) == split_spaces(text)
    &&& forall|i: int| 0 <= i < lines.len() ==> #[trigger] lines[i].len() > 0
    &&& w >= 0 ==> forall|i: int| 0 <= i < lines.len() ==> line_fits(w, #[trigger] lines[i])
    &&& w >= 0 ==> lines_greedy(w, lines)
}

/// `wrap_text` is a wrapping of the text at its width.
pub proof fn lemma_wrap_text_is_wrapping(w: int, text: Seq<char>)
    ensures
        is_wrapping(w, text, wrap_text(w, text)),
{
    lemma_wrap_text_facts(w, text);
}

/// `split_spaces` gives at least one piece.
pub proof fn lemma_split_nonempty(s: Seq<char>)
    ensures
        split_spaces(s).len() >= 1,
    decreases s.len(),
{
    if s.len() > 0 {
        lemma_split_nonempty(s.drop_last());
    }
}

/// `String::push`, which appends `c` to the string; the contract states
/// this.
#[verifier::external_body]
pub(crate) fn push_char(s: &mut String, c: char)
    ensures
        final(s)@ == old(s)@.push(c),
{
    s.push(c);
}

/// Lays out one more word.
fn place_word(
    wrap_width: i32,
    lines: &mut Vec<Vec<String>>,
    curr_ln: &mut Vec<String>,
    line_chrs: &mut usize,
    word: String,
    word_len: usize,
)
    requires
        word_len == word@.len(),
        wrap_width >= 0 ==> *old(line_chrs) < wrap_width || old(curr_ln)@.len() == 0,
        wrap_width >= 0 ==> *old(line_chrs) <= wrap_width,
    ensures
        final(lines).deep_view() == wrap_step(
            wrap_width as int,
            WrapState { lines: old(lines).deep_view(), current: old(curr_ln).deep_view(), used: *old(line_chrs) as int },
            word@,
        ).lines,
        final(curr_ln).deep_view() == wrap_step(
            wrap_width as int,
            WrapState { lines: old(lines).deep_view(), current: old(curr_ln).deep_view(), used: *old(line_chrs) as int },
            word@,
        ).current,
        wrap_width >= 0 ==> *final(line_chrs) == wrap_step(
            wrap_width as int,
            WrapState { lines: old(lines).deep_view(), current: old(curr_ln).deep_view(), used: *old(line_chrs) as int },
            word@,
        ).used,
        wrap_width >= 0 ==> *final(line_chrs) < wrap_width || final(curr_ln)@.len() == 0,
        wrap_width >= 0 ==> *final(line_chrs) <= wrap_width,
{
    let ghost l0 = lines.deep_view();
    let ghost c0 = curr_ln.deep_view();
    let ghost wv = word@;
    let long = wrap_width >= 0 && word_len >= wrap_width as usize;
    if long {
        if curr_ln.len() > 0 {
            let mut full: Vec<String> = Vec::new();
            std::mem::swap(&mut full, curr_ln);
            lines.push(full);
            assert(lines.deep_view() =~= l0.push(c0));
        }
        let ghost l1 = lines.deep_view();
        let mut single: Vec<String> = Vec::new();
        single.push(word);
        assert(single.deep_view() =~= seq![wv]);
        lines.push(single);
        assert(lines.deep_view() =~= l1.push(seq![wv]));
        *curr_ln = Vec::new();
        assert(curr_ln.deep_view() =~= Seq::<Seq<char>>::empty());
        *line_chrs = 0;
    } else if wrap_width >= 0 && *line_chrs + word_len >= wrap_width as usize {
        let mut full: Vec<String> = Vec::new();
        std::mem::swap(&mut full, curr_ln);
        lines.push(full);
        assert(lines.deep_view() =~= l0.push(c0));
        curr_ln.push(word);
        assert(curr_ln.deep_view() =~= seq![wv]);
        *line_chrs = word_len;
    } else {
        curr_ln.push(word);
        assert(curr_ln.deep_view() =~= c0.push(wv));
        if wrap_width >= 0 {
            *line_chrs = *line_chrs + word_len;
        }
    }
}

/// Wraps `txt` at `wrap_width` characters: the lines of words that
/// `wrap_text` describes.
pub fn wrap_str(wrap_width: i32, txt: &String) -> (lines: Vec<Vec<String>>)
    ensures
        lines.deep_view() == wrap_text(wrap_width as int, txt@),
{
    let mut lines: Vec<Vec<String>> = Vec::new();
    let mut curr_ln: Vec<String> = Vec::new();
    let mut line_chrs: usize = 0;
    let mut word = String::new();
    let mut word_len: usize = 0;
    let total: usize = txt.as_str().unicode_len();
    let ghost w = wrap_width as int;
    proof {
        assert(txt@.take(0) =~= Seq::<char>::empty());
    }
    for c in it: txt.as_str().chars()
        invariant
            total == txt@.len(),
            w == wrap_width as int,
            it.seq() == txt@,
            word_len == word@.len(),
            word_len <= it.index(),
            ({
                let ws = split_spaces(txt@.take(it.index()));
                let st = wrap_words(w, ws.drop_last());
                &&& word@ == ws.last()
                &&& lines.deep_view() == st.lines
                &&& curr_ln.deep_view() == st.current
                &&& wrap_width >= 0 ==> line_chrs == st.used
            }),
            wrap_width >= 0 ==> line_chrs < wrap_width || curr_ln@.len() == 0,
            wrap_width >= 0 ==> line_chrs <= wrap_width,
    {
        let ghost i = it.index();
        let ghost prefix = txt@.take(i);
        let ghost ws = split_spaces(prefix);
        proof {
            let next = txt@.take(i + 1);
            assert(next.drop_last() =~= prefix);
            assert(next.last() == c);
            lemma_split_nonempty(prefix);
        }
        if c == ' ' {
            let mut done = String::new();
            std::mem::swap(&mut done, &mut word);
            place_word(wrap_width, &mut lines, &mut curr_ln, &mut line_chrs, done, word_len);
            word_len = 0;
            assert(split_spaces(txt@.take(i + 1)).drop_last() =~= ws);
        } else {
            push_char(&mut word, c);
            word_len = word_len + 1;
            assert(split_spaces(txt@.take(i + 1)).drop_last() =~= ws.drop_last());
        }
    }
    proof {
        assert(txt@.take(txt@.len() as int) =~= txt@);
        lemma_split_nonempty(txt@);
    }
    place_word(wrap_width, &mut lines, &mut curr_ln, &mut line_chrs, word, word_len);
    if curr_ln.len() > 0 {
        lines.push(curr_ln);
    }
    lines
}

} // verus!
