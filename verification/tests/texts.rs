use resmon::number::{parse_number, parse_number_or, push_decimal, push_two_digits};
use resmon::text::{
    chars, contains, find_from, joined, split_lines, split_words, starts_with, string, trimmed,
    trimmed_end, white, Class,
};

fn back(parts: Vec<Vec<char>>) -> Vec<String> {
    parts.iter().map(|p| string(p)).collect()
}

const SAMPLES: [&str; 14] = [
    "",
    "\n",
    "a",
    "a\n",
    "a\r\nb\r\n",
    "a\rb\n\n c\r",
    "\r\n\r\n",
    "  one two\tthree  ",
    "x\u{a0}y\u{3000}z",
    "MemTotal:       16303428 kB\nMemFree: 1\n",
    "äöü ß\n\u{85}q",
    "\r",
    "   ",
    "a b\n c d \n",
];

#[test]
fn lines_agree_with_std() {
    for s in SAMPLES {
        let want: Vec<String> = s.lines().map(|l| l.to_string()).collect();
        assert_eq!(back(split_lines(&chars(s))), want);
    }
}

#[test]
fn words_agree_with_std() {
    for s in SAMPLES {
        let want: Vec<String> = s.split_whitespace().map(|w| w.to_string()).collect();
        assert_eq!(back(split_words(&chars(s))), want);
    }
}

#[test]
fn trimming_agrees_with_std() {
    for s in SAMPLES {
        assert_eq!(string(&trimmed(&chars(s))), s.trim());
    }
    assert_eq!(string(&trimmed_end(&chars("12..."), Class::Is('.'))), "12");
    assert_eq!(string(&trimmed_end(&chars("..."), Class::Is('.'))), "");
}

#[test]
fn white_space_agrees_with_std() {
    for u in 0..=0x10FFFFu32 {
        if let Some(c) = char::from_u32(u) {
            assert_eq!(white(c), c.is_whitespace());
        }
    }
}

#[test]
fn numbers_agree_with_std() {
    for s in [
        "", "0", "+", "+7", "-1", "-0", "00042", "18446744073709551615", "18446744073709551616",
        "99999999999999999999999", "1x", "x1", "1 ", " 1", "++1", "1+", "\u{0663}", "12.5",
        "+18446744073709551615", "184467440737095516150",
    ] {
        assert_eq!(parse_number(&chars(s)), s.parse::<u64>().ok());
        assert_eq!(parse_number_or(&chars(s), 9), s.parse().unwrap_or(9));
    }
}

#[test]
fn written_numbers_read_back() {
    for n in [0u64, 9, 10, 99, 100, 1_000_000, u64::MAX] {
        let mut out = String::new();
        push_decimal(&mut out, n as u128);
        assert_eq!(out, n.to_string());
        assert_eq!(parse_number(&chars(&out)), Some(n));
    }
    let mut out = String::from("a");
    push_two_digits(&mut out, 7);
    push_two_digits(&mut out, 23);
    assert_eq!(out, "a0723");
}

#[test]
fn searching_agrees_with_std() {
    let s = chars("CPU usage: 1% idle, CPU usage:");
    assert!(starts_with(&s, "CPU"));
    assert!(!starts_with(&s, "cpu"));
    assert!(starts_with(&s, ""));
    assert!(contains(&s, "idle"));
    assert!(!contains(&s, "idol"));
    assert!(contains(&s, ""));
    assert_eq!(find_from(&s, "CPU usage:", 0), Some(0));
    assert_eq!(find_from(&s, "CPU usage:", 1), Some(20));
    assert_eq!(find_from(&s, "CPU usage:", 21), None);
    assert_eq!(find_from(&s, "", 30), Some(30));
    assert_eq!(find_from(&s, "", 31), None);
}

#[test]
fn joined_words_are_found_again() {
    let parts = vec!["/usr/bin/x".to_string(), "-a".to_string(), "b".to_string()];
    let text = joined(&parts, " ");
    assert_eq!(text, "/usr/bin/x -a b");
    assert_eq!(back(split_words(&chars(&text))), parts);
    assert_eq!(joined(&[], " "), "");
}
