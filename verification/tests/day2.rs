use advent2018::day2;
use advent2018::text::chars_of;

#[test]
fn day2_checksum() {
    let text = "abcdef\nbababc\nabbcde\nabcccd\naabcdd\nabcdee\nababab\n";
    assert_eq!(day2::part1(text), Some(("12".to_string(), ())));
}

#[test]
fn day2_letters_occurring_exactly() {
    assert!(!day2::contains_exactly(&chars_of("abcdef"), 2));
    assert!(day2::contains_exactly(&chars_of("bababc"), 2));
    assert!(day2::contains_exactly(&chars_of("bababc"), 3));
    assert!(!day2::contains_exactly(&chars_of("abbcde"), 3));
    assert!(day2::contains_exactly(&chars_of("ababab"), 3));
    assert!(!day2::contains_exactly(&chars_of("ababab"), 2));
}

#[test]
fn day2_common_letters_of_close_labels() {
    let text = "abcde\nfghij\nklmno\npqrst\nfguij\naxcye\nwvxyz\n";
    assert_eq!(day2::part2(text, ()), Some("fgij".to_string()));
}

#[test]
fn day2_no_close_labels() {
    assert_eq!(day2::part2("abc\nxyz\n", ()), None);
    assert_eq!(day2::part2("", ()), None);
}

#[test]
fn day2_differences_and_shared_letters() {
    assert_eq!(day2::differing_characters(&chars_of("abcde"), &chars_of("axcye")), 2);
    assert_eq!(day2::differing_characters(&chars_of("fghij"), &chars_of("fguij")), 1);
    assert_eq!(day2::differing_characters(&chars_of("abc"), &chars_of("abcdef")), 0);
    assert_eq!(day2::equal_chars(&chars_of("fghij"), &chars_of("fguij")), "fgij");
}
