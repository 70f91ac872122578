use advent2018::pattern::{match_fields, take_fields};
use advent2018::sorting::{sort_texts, text_le};
use advent2018::text::{
    char_is_space, chars_of, find_from, isize_string, lines_of, occurs_at, pair_string,
    read_isize, read_magnitude, read_usize, same_text, slice_of, split_text, string_of, trimmed,
    usize_string,
};

fn texts(v: Vec<Vec<char>>) -> Vec<String> {
    v.iter().map(string_of).collect()
}

#[test]
fn text_characters_and_back() {
    assert_eq!(chars_of("a\u{e9}\u{1f384}"), vec!['a', '\u{e9}', '\u{1f384}']);
    assert_eq!(string_of(&vec!['x', '\u{e9}']), "x\u{e9}");
    assert_eq!(string_of(&chars_of("")), "");
    assert_eq!(slice_of(&chars_of("hello"), 1, 3), chars_of("el"));
    assert!(same_text(&chars_of("ab"), &chars_of("ab")));
    assert!(!same_text(&chars_of("ab"), &chars_of("abc")));
    assert!(!same_text(&chars_of("ab"), &chars_of("ac")));
}

#[test]
fn text_lines_as_the_standard_library_has_them() {
    for s in ["", "\n", "a", "a\n", "a\nb", "a\n\nb\n", "a\r\nb\r\n", "a\r", "a\r\n\r", "\r\n", "a\rb\n", "\n\n"] {
        let expected: Vec<String> = s.lines().map(|l| l.to_string()).collect();
        assert_eq!(texts(lines_of(&chars_of(s))), expected, "lines of {:?}", s);
    }
}

#[test]
fn text_split_as_the_standard_library_has_it() {
    for (s, sep) in [("a, b, c", ", "), ("", ", "), (",,", ","), ("aaa", "aa"), ("1 2  3", " "), ("x\n\n\ny\n\nz", "\n\n"), ("abc", "abcd")] {
        let expected: Vec<String> = s.split(sep).map(|l| l.to_string()).collect();
        assert_eq!(texts(split_text(&chars_of(s), &chars_of(sep))), expected, "split {:?}", s);
    }
}

#[test]
fn text_finding() {
    let s = chars_of("abcabc");
    assert!(occurs_at(&s, &chars_of("bc"), 1));
    assert!(!occurs_at(&s, &chars_of("bc"), 2));
    assert!(!occurs_at(&s, &chars_of("bc"), 5));
    assert!(occurs_at(&s, &chars_of(""), 6));
    assert_eq!(find_from(&s, &chars_of("bc"), 0), Some(1));
    assert_eq!(find_from(&s, &chars_of("bc"), 2), Some(4));
    assert_eq!(find_from(&s, &chars_of("bc"), 5), None);
    assert_eq!(find_from(&s, &chars_of("x"), 0), None);
}

#[test]
fn text_trimming_as_the_standard_library_has_it() {
    for s in ["", "  a b  ", "\t\n x\r\n", "\u{a0}x\u{3000}", "\u{200b}x", "   ", "x"] {
        assert_eq!(string_of(&trimmed(&chars_of(s))), s.trim(), "trim {:?}", s);
    }
    for code in 0..0x3100u32 {
        if let Some(c) = char::from_u32(code) {
            assert_eq!(char_is_space(c), c.is_whitespace(), "white space {:x}", code);
        }
    }
}

#[test]
fn text_numbers_read_as_the_standard_library_reads_them() {
    let max = usize::MAX.to_string();
    let over = format!("{}0", usize::MAX);
    let low = isize::MIN.to_string();
    let below = format!("-{}", (isize::MAX as usize) + 2);
    for s in ["0", "7", "+7", "-7", "007", "", "+", "-", "++1", "1 ", " 1", "1a", "-0", "+0", "١٢", max.as_str(), over.as_str(), low.as_str(), below.as_str()] {
        assert_eq!(read_usize(&chars_of(s)), s.parse::<usize>().ok(), "usize {:?}", s);
        assert_eq!(read_isize(&chars_of(s)), s.parse::<isize>().ok(), "isize {:?}", s);
    }
    assert_eq!(read_magnitude(&chars_of("ab12"), 2), Some(12));
    assert_eq!(read_magnitude(&chars_of("ab12"), 4), None);
    assert_eq!(read_magnitude(&chars_of("ab+2"), 2), None);
}

#[test]
fn text_numbers_written_in_decimal() {
    for n in [0usize, 1, 9, 10, 99, 100, 12345, usize::MAX] {
        assert_eq!(usize_string(n), n.to_string());
    }
    for n in [0isize, 1, -1, 10, -10, isize::MAX, isize::MIN] {
        assert_eq!(isize_string(n), n.to_string());
    }
    assert_eq!(pair_string(3, 45), "3,45");
}

#[test]
fn text_dictionary_order() {
    let mut words = vec!["b", "", "a", "ab", "B", "a", "\u{e9}", "z", "aa"];
    let sorted = texts(sort_texts(words.iter().map(|w| chars_of(w)).collect()));
    words.sort_unstable();
    assert_eq!(sorted, words);
    assert!(text_le(&chars_of("a"), &chars_of("a")));
    assert!(text_le(&chars_of(""), &chars_of("a")));
    assert!(!text_le(&chars_of("b"), &chars_of("a")));
    assert!(text_le(&chars_of("Z"), &chars_of("a")));
}

#[test]
fn text_fields_of_a_match() {
    let line = chars_of("go #12 @ 3,4: 5x6 now");
    let fields = match_fields(r"#(\d+) @ (\d+),(\d+): (\d+)x(\d+)", &line, 5).unwrap();
    assert_eq!(texts(fields), vec!["12", "3", "4", "5", "6"]);
    assert!(match_fields(r"#(\d+)", &line, 2).is_none());
    assert!(match_fields(r"#(\d+", &line, 1).is_none());
    assert!(match_fields(r"x(\d+)y", &line, 1).is_none());
    let two = match_fields(r"(a)|(b)", &chars_of("b"), 2);
    assert!(two.is_none());
    let groups = vec![Some(chars_of("ab")), None, Some(chars_of("c"))];
    assert!(take_fields(&groups, 1).is_none());
    assert_eq!(take_fields(&groups, 0), Some(vec![]));
    assert!(take_fields(&groups, 3).is_none());
}
