use advent::tally::{sum_u32, sum_u64};
use advent::text::{
    chars_of, digit_of, find_char, is_space_char, matches_at, parse_each, parse_number,
    parse_numbers, remove_all, same, same_str, split, trim,
};

fn chars(s: &str) -> Vec<char> {
    s.chars().collect()
}

fn pieces(s: &str, sep: char) -> Vec<String> {
    let text = chars(s);
    split(&text, sep).into_iter().map(|(a, b)| text[a..b].iter().collect()).collect()
}

#[test]
fn characters_of_a_string() {
    assert_eq!(chars_of("a1 é"), vec!['a', '1', ' ', 'é']);
    assert_eq!(chars_of(""), vec![]);
}

#[test]
fn decimal_digits() {
    assert_eq!(digit_of('0'), Some(0));
    assert_eq!(digit_of('9'), Some(9));
    assert_eq!(digit_of('a'), None);
    assert_eq!(digit_of('/'), None);
    assert_eq!(digit_of(':'), None);
    assert_eq!(digit_of('٣'), None);
}

#[test]
fn numbers_up_to_a_maximum() {
    assert_eq!(parse_number(&chars("0"), 10), Some(0));
    assert_eq!(parse_number(&chars("10"), 10), Some(10));
    assert_eq!(parse_number(&chars("11"), 10), None);
    assert_eq!(parse_number(&chars("+7"), 10), Some(7));
    assert_eq!(parse_number(&chars("007"), 10), Some(7));
    assert_eq!(parse_number(&chars(""), 10), None);
    assert_eq!(parse_number(&chars("+"), 10), None);
    assert_eq!(parse_number(&chars("-1"), 10), None);
    assert_eq!(parse_number(&chars("++1"), 10), None);
    assert_eq!(parse_number(&chars("1 "), 10), None);
    assert_eq!(parse_number(&chars("18446744073709551615"), u64::MAX), Some(u64::MAX));
    assert_eq!(parse_number(&chars("18446744073709551616"), u64::MAX), None);
    assert_eq!(parse_number(&chars("99999999999999999999999"), u64::MAX), None);
}

#[test]
fn fields_between_separators() {
    assert_eq!(pieces("a,b,c", ','), vec!["a", "b", "c"]);
    assert_eq!(pieces("a,,c,", ','), vec!["a", "", "c", ""]);
    assert_eq!(pieces(",", ','), vec!["", ""]);
    assert_eq!(pieces("", ','), vec![""]);
    assert_eq!(pieces("abc", ','), vec!["abc"]);
    assert_eq!(split(&chars("ab,c"), ','), vec![(0, 2), (3, 4)]);
}

#[test]
fn white_space_at_the_ends() {
    assert_eq!(trim(&chars("  a b \t\n")), (2, 5));
    assert_eq!(trim(&chars("a")), (0, 1));
    assert_eq!(trim(&chars("   ")), (3, 3));
    assert_eq!(trim(&chars("")), (0, 0));
    assert_eq!(trim(&chars("\u{a0}x\u{3000}")), (1, 2));
    assert!(is_space_char(' '));
    assert!(is_space_char('\t'));
    assert!(is_space_char('\u{85}'));
    assert!(is_space_char('\u{2003}'));
    assert!(!is_space_char('a'));
    assert!(!is_space_char('\u{200b}'));
    for c in (0..=0x10ffffu32).filter_map(char::from_u32) {
        assert_eq!(is_space_char(c), c.is_whitespace());
    }
}

#[test]
fn pattern_at_a_position() {
    let text = chars("eightwo");
    assert!(matches_at(&text, 0, &chars("eight")));
    assert!(matches_at(&text, 4, &chars("two")));
    assert!(!matches_at(&text, 5, &chars("two")));
    assert!(!matches_at(&text, 1, &chars("eight")));
    assert!(matches_at(&text, 7, &chars("")));
    assert!(!matches_at(&text, 8, &chars("")));
    assert!(!matches_at(&text, usize::MAX, &chars("e")));
    assert_eq!(find_char(&text, 't'), 4);
    assert_eq!(find_char(&text, 'x'), 7);
    assert_eq!(find_char(&text, 'e'), 0);
}

#[test]
fn equal_texts() {
    assert!(same(&chars("seed"), &chars("seed")));
    assert!(!same(&chars("seed"), &chars("seeds")));
    assert!(!same(&chars("seed"), &chars("sead")));
    assert!(same(&chars(""), &chars("")));
    assert!(same_str("soil", "soil"));
    assert!(!same_str("soil", "soiL"));
    assert!(!same_str("soil", ""));
    assert!(same_str("é", "é"));
    assert!(!same_str("é", "e"));
}

#[test]
fn pattern_taken_out() {
    let out = |s: &str, p: &str| remove_all(&chars(s), &chars(p)).iter().collect::<String>();
    assert_eq!(out("Game 12", "Game "), "12");
    assert_eq!(out("Game Game 12", "Game "), "12");
    assert_eq!(out("aaa", "aa"), "a");
    assert_eq!(out("abab", "ab"), "");
    assert_eq!(out("xaxbx", "x"), "ab");
    assert_eq!(out("abc", "d"), "abc");
    assert_eq!(out("", "d"), "");
}

#[test]
fn lists_of_numbers() {
    let read = |s: &str, skip_empty: bool, trim_each: bool| {
        let text = chars(s);
        let parts = split(&text, ' ');
        parse_numbers(&text, &parts, 100, skip_empty, trim_each)
    };
    assert_eq!(read("1 2 3", false, false), Some(vec![1, 2, 3]));
    assert_eq!(read("1  3", false, false), None);
    assert_eq!(read("1  3", true, false), Some(vec![1, 3]));
    assert_eq!(read("", true, false), Some(vec![]));
    assert_eq!(read("", false, false), None);
    assert_eq!(read("1 \t2", true, false), None);
    assert_eq!(read("1 \t2", true, true), Some(vec![1, 2]));
    assert_eq!(read("1 101", true, true), None);
    assert_eq!(read("1 100", true, true), Some(vec![1, 100]));
    let text = chars("7  x 15");
    let parts = split(&text, ' ');
    assert_eq!(parse_each(&text, &parts), vec![Some(7), None, Some(15)]);
}

#[test]
fn checked_sums() {
    assert_eq!(sum_u32(&[]), Some(0));
    assert_eq!(sum_u32(&[1, 2, 3]), Some(6));
    assert_eq!(sum_u32(&[u32::MAX, 0]), Some(u32::MAX));
    assert_eq!(sum_u32(&[u32::MAX, 1]), None);
    assert_eq!(sum_u32(&[1, u32::MAX, 0]), None);
    assert_eq!(sum_u64(&[]), Some(0));
    assert_eq!(sum_u64(&[10, 20]), Some(30));
    assert_eq!(sum_u64(&[u64::MAX - 1, 1]), Some(u64::MAX));
    assert_eq!(sum_u64(&[u64::MAX, 1]), None);
}

fn samples() -> Vec<String> {
    let alphabet = ['0', '1', '9', '+', '-', ' ', '\t', ',', 'a', 'é', '\u{a0}'];
    let mut all = vec![String::new()];
    let mut last = vec![String::new()];
    for _ in 0..4 {
        let mut next = Vec::new();
        for s in &last {
            for c in alphabet {
                let mut t = s.clone();
                t.push(c);
                next.push(t);
            }
        }
        all.extend(next.iter().cloned());
        last = next;
    }
    all.push("18446744073709551615".to_string());
    all.push("18446744073709551616".to_string());
    all.push("+18446744073709551615".to_string());
    all.push("000000000000000000000000018446744073709551615".to_string());
    all.push("4294967295".to_string());
    all.push("4294967296".to_string());
    all
}

#[test]
fn numbers_read_as_the_standard_library_reads_them() {
    for s in samples() {
        assert_eq!(parse_number(&chars(&s), u64::MAX), s.parse::<u64>().ok(), "{s:?}");
        let small = s.parse::<u32>().ok().map(|v| v as u64);
        assert_eq!(parse_number(&chars(&s), u32::MAX as u64), small, "{s:?}");
    }
}

#[test]
fn fields_split_as_the_standard_library_splits_them() {
    for s in samples() {
        for sep in [' ', ',', '1', 'é'] {
            let expected: Vec<String> = s.split(sep).map(|p| p.to_string()).collect();
            assert_eq!(pieces(&s, sep), expected, "{s:?}");
        }
    }
}

#[test]
fn white_space_trimmed_as_the_standard_library_trims_it() {
    for s in samples() {
        let text = chars(&s);
        let (a, b) = trim(&text);
        assert_eq!(text[a..b].iter().collect::<String>(), s.trim(), "{s:?}");
    }
}

#[test]
fn patterns_removed_as_the_standard_library_replaces_them() {
    for s in samples() {
        for p in ["1", "11", "1 ", "é,", "+-"] {
            let out: String = remove_all(&chars(&s), &chars(p)).iter().collect();
            assert_eq!(out, s.replace(p, ""), "{s:?} without {p:?}");
        }
    }
}

#[test]
fn first_character_found_as_the_standard_library_finds_it() {
    for s in samples() {
        let text = chars(&s);
        let expected = text.iter().position(|c| *c == ' ').unwrap_or(text.len());
        assert_eq!(find_char(&text, ' '), expected, "{s:?}");
        let starts = s.starts_with("1 ");
        assert_eq!(matches_at(&text, 0, &chars("1 ")), starts, "{s:?}");
    }
}
