use bendis::layout::byte_length;
use bendis::order::{name_listed, order_of, same_text};
use bendis::text::{chars_of, contains, join, lines, matches_at, split, starts_with, string_of};
use bendis::version::{compare_components, component_digits};

fn cs(s: &str) -> Vec<char> {
    s.chars().collect()
}

fn strs(v: Vec<Vec<char>>) -> Vec<String> {
    v.iter().map(|l| l.iter().collect()).collect()
}

#[test]
fn characters_there_and_back() {
    for s in ["", "abc", "é√ü", "a\nb"] {
        assert_eq!(chars_of(s), cs(s));
        assert_eq!(string_of(&cs(s)), s);
    }
}

#[test]
fn search_agrees_with_std() {
    let texts = ["", "a", "abcabc", "aaab", "github.com/pulp-platform", "xxgithub.com/pulp-platformyy"];
    let needles = ["", "a", "ab", "bc", "abc", "aab", "github.com/pulp-platform", "c"];
    for t in texts {
        for n in needles {
            assert_eq!(contains(&cs(t), &cs(n)), t.contains(n));
            assert_eq!(starts_with(&cs(t), &cs(n)), t.starts_with(n));
        }
    }
    assert!(matches_at(&cs("abcabc"), &cs("bc"), 4));
    assert!(!matches_at(&cs("abcabc"), &cs("bc"), 5));
    assert!(matches_at(&cs("abc"), &cs(""), 3));
    assert!(!matches_at(&cs("abc"), &cs(""), 4));
}

#[test]
fn split_agrees_with_std() {
    for t in ["", ".", "a", "1.2.3", "..", "a.", ".a", "1..2"] {
        let expected: Vec<String> = t.split('.').map(|s| s.to_string()).collect();
        assert_eq!(strs(split(&cs(t), '.')), expected);
    }
}

#[test]
fn lines_agree_with_std() {
    for t in ["", "\n", "a", "a\n", "a\nb", "a\r\nb\r\n", "a\r", "a\r\r\n", "\n\n", "a\n\nb\n", "\r\n", "x\ry\nz"] {
        let expected: Vec<String> = t.lines().map(|s| s.to_string()).collect();
        assert_eq!(strs(lines(&cs(t))), expected);
    }
}

#[test]
fn join_agrees_with_std() {
    let cases: Vec<Vec<String>> = vec![
        vec![],
        vec!["a".to_string()],
        vec!["a".to_string(), String::new(), "b".to_string()],
        vec![String::new(), String::new()],
    ];
    for v in cases {
        assert_eq!(join(&v, "\n"), v.join("\n"));
        assert_eq!(join(&v, ", "), v.join(", "));
    }
}

#[test]
fn order_agrees_with_std() {
    let texts = ["", "a", "ab", "b", "B", "é", "z", "aé", "a\u{10000}", "a\u{ffff}"];
    for a in texts {
        for b in texts {
            let expected = match a.cmp(b) {
                std::cmp::Ordering::Less => -1,
                std::cmp::Ordering::Equal => 0,
                std::cmp::Ordering::Greater => 1,
            };
            assert_eq!(order_of(&cs(a), &cs(b)), expected);
            assert_eq!(same_text(a, b), a == b);
        }
    }
}

#[test]
fn bytes_are_counted_in_utf8() {
    assert_eq!(byte_length(""), 0);
    assert_eq!(byte_length("abc"), 3);
    assert_eq!(byte_length("é"), 2);
    assert_eq!(byte_length("√"), 3);
    assert_eq!(byte_length("\u{10000}"), 4);
}

#[test]
fn name_is_found_in_a_list() {
    let names = vec!["axi".to_string(), "apb".to_string()];
    assert!(name_listed(&names, "apb"));
    assert!(!name_listed(&names, "ap"));
    assert!(!name_listed(&Vec::new(), "apb"));
}

#[test]
fn white_space_agrees_with_std() {
    for u in 0..=0x10FFFFu32 {
        if let Some(c) = char::from_u32(u) {
            assert_eq!(bendis::space::is_whitespace(c), c.is_whitespace(), "U+{:04X}", u);
        }
    }
}

#[test]
fn trim_agrees_with_std() {
    for t in ["", " ", "a", "  a b \t\n", "\u{3000}x\u{85}", "\r\n", "a \u{A0}", " \u{200B} "] {
        assert_eq!(bendis::space::trim(&cs(t)), cs(t.trim()));
        assert_eq!(bendis::space::trim_end(&cs(t)), cs(t.trim_end()));
        assert_eq!(bendis::space::is_blank(t), t.trim().is_empty());
    }
}

#[test]
fn words_agree_with_std() {
    for t in ["", " ", "bender 0.29.0\n", "a", "  a  b\tc ", "a\u{3000}b", "x y"] {
        let expected: Vec<String> = t.split_whitespace().map(|s| s.to_string()).collect();
        assert_eq!(strs(bendis::space::split_words(&cs(t))), expected);
    }
}

#[test]
fn decimal_agrees_with_std() {
    for n in 0..=255u8 {
        let mut out = String::from("n=");
        bendis::layout::append_decimal(&mut out, n);
        assert_eq!(out, format!("n={}", n));
    }
}

#[test]
fn part_of_a_text() {
    assert_eq!(bendis::text::slice_of(&cs("abcdef"), 2, 4), cs("cd"));
    assert_eq!(bendis::text::slice_of(&cs("abcdef"), 6, 6), cs(""));
}

#[test]
fn padding_fills_up_to_the_width() {
    let mut out = String::from("ab");
    bendis::layout::pad(&mut out, 5, 2);
    assert_eq!(out, "ab   ");
    bendis::layout::pad(&mut out, 3, 5);
    assert_eq!(out, "ab   ");
    bendis::layout::pad(&mut out, 5, 5);
    assert_eq!(out, "ab   ");
}

#[test]
fn characters_are_appended() {
    let mut v = cs("ab");
    bendis::text::append_chars(&mut v, &cs("cd"));
    assert_eq!(v, cs("abcd"));
}

#[test]
fn digits_of_a_component() {
    for (text, digits) in [
        ("12", "12"),
        ("+12", "12"),
        ("007", "7"),
        ("0", ""),
        ("000", ""),
        ("", ""),
        ("+", ""),
        ("-1", ""),
        ("++1", ""),
        ("1a", ""),
        (" 1", ""),
        ("٣", ""),
        ("4294967295", "4294967295"),
        ("4294967296", "4294967296"),
        ("000000000004294967295", "4294967295"),
        ("99999999999999999999999999", "99999999999999999999999999"),
    ] {
        assert_eq!(component_digits(&cs(text)), cs(digits), "{:?}", text);
    }
}

#[test]
fn components_compare_as_numbers() {
    let texts = ["", "0", "1", "+1", "01", "9", "10", "a", "-1", "4294967295", "4294967296", "18446744073709551616", "99", "100"];
    for a in texts {
        for b in texts {
            let x = a.parse::<u128>().unwrap_or(0);
            let y = b.parse::<u128>().unwrap_or(0);
            let expected = if x > y { 1 } else if x < y { -1 } else { 0 };
            assert_eq!(compare_components(&cs(a), &cs(b)), expected, "{:?} {:?}", a, b);
        }
    }
}

#[test]
fn pieces_keep_their_line_ends() {
    for t in ["", "\n", "a", "a\n", "a\nb", "a\r\nb\r\n", "a\r", "\n\n", "a\n\nb\n", "x\ry\nz"] {
        let expected: Vec<String> = t.split_inclusive('\n').map(|s| s.to_string()).collect();
        let found = strs(bendis::text::pieces(&cs(t)));
        assert_eq!(found, expected);
        assert_eq!(found.concat(), t);
    }
}

#[test]
fn bytes_in_hexadecimal() {
    assert_eq!(bendis::layout::to_hex(&vec![]), "");
    assert_eq!(bendis::layout::to_hex(&vec![0x00, 0x0f, 0xa0, 0xff, 0x9c]), "000fa0ff9c");
    for b in 0..=255u8 {
        assert_eq!(bendis::layout::to_hex(&vec![b]), format!("{:02x}", b));
    }
}
