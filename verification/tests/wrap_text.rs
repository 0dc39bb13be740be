use bottle::wrap::wrap_str;

fn lines(v: &[&[&str]]) -> Vec<Vec<String>> {
    v.iter().map(|l| l.iter().map(|w| w.to_string()).collect()).collect()
}

#[test]
fn wraps_when_the_next_word_reaches_the_width() {
    let out = wrap_str(10, &"hello world foo".to_string());
    assert_eq!(out, lines(&[&["hello"], &["world", "foo"]]));
}

#[test]
fn long_word_stands_alone() {
    let out = wrap_str(5, &"a verylongword b".to_string());
    assert_eq!(out, lines(&[&["a"], &["verylongword"], &["b"]]));
}

#[test]
fn word_of_exactly_the_width_stands_alone() {
    let out = wrap_str(3, &"ab abc d".to_string());
    assert_eq!(out, lines(&[&["ab"], &["abc"], &["d"]]));
}

#[test]
fn empty_text_gives_one_line_with_an_empty_word() {
    assert_eq!(wrap_str(10, &String::new()), lines(&[&[""]]));
    assert_eq!(wrap_str(0, &String::new()), lines(&[&[""]]));
    assert_eq!(wrap_str(-3, &String::new()), lines(&[&[""]]));
}

#[test]
fn double_spaces_keep_empty_words() {
    let out = wrap_str(10, &"a  b".to_string());
    assert_eq!(out, lines(&[&["a", "", "b"]]));
}

#[test]
fn trailing_space_gives_an_empty_last_word() {
    let out = wrap_str(10, &"hi ".to_string());
    assert_eq!(out, lines(&[&["hi", ""]]));
}

#[test]
fn width_zero_puts_every_word_on_its_own_line() {
    let out = wrap_str(0, &"a b c".to_string());
    assert_eq!(out, lines(&[&["a"], &["b"], &["c"]]));
}

#[test]
fn negative_width_wraps_nothing() {
    let out = wrap_str(-1, &"one two three four".to_string());
    assert_eq!(out, lines(&[&["one", "two", "three", "four"]]));
}

#[test]
fn spaces_are_not_counted() {
    // "ab" and "cd" make 4 characters, under 5, though with a space they make 5.
    let out = wrap_str(5, &"ab cd e".to_string());
    assert_eq!(out, lines(&[&["ab", "cd"], &["e"]]));
}

#[test]
fn characters_not_bytes_are_counted() {
    let out = wrap_str(4, &"héé ü".to_string());
    assert_eq!(out, lines(&[&["héé"], &["ü"]]));
}

#[test]
fn wrapping_keeps_words_and_is_greedy() {
    let text = "the quick brown fox jumps over the lazy dog";
    let width = 12;
    let out = wrap_str(width, &text.to_string());
    let joined: Vec<String> = out.iter().flatten().cloned().collect();
    let expected: Vec<String> = text.split(' ').map(|s| s.to_string()).collect();
    assert_eq!(joined, expected);
    for line in &out {
        assert!(!line.is_empty());
        let chars: usize = line.iter().map(|w| w.chars().count()).sum();
        assert!(line.len() == 1 || chars < width as usize);
    }
    for pair in out.windows(2) {
        let chars: usize = pair[0].iter().map(|w| w.chars().count()).sum();
        assert!(chars + pair[1][0].chars().count() >= width as usize);
    }
    assert_eq!(
        out,
        lines(&[&["the", "quick"], &["brown", "fox"], &["jumps", "over"], &["the", "lazy", "dog"]])
    );
}

#[test]
fn widening_never_adds_lines() {
    let text = "a bb ccc dddd eeeee ffffff g hh iii".to_string();
    let mut prev = wrap_str(0, &text).len();
    for w in 1..40 {
        let n = wrap_str(w, &text).len();
        assert!(n <= prev);
        prev = n;
    }
    assert_eq!(wrap_str(0, &text).len(), 9);
    assert_eq!(wrap_str(39, &text).len(), 1);
}
