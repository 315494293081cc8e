use challenge_planner::challenges::{target_position, MAX_ABILITIES, TARGET_SET};
use challenge_planner::text::{
    chars_of, equals, field_bounds, find, line_bounds, parse_number, starts_with, trim_bounds,
    whitespace,
};

fn cut(chars: &Vec<char>, bounds: (usize, usize)) -> String {
    chars[bounds.0..bounds.1].iter().collect()
}

#[test]
fn test_chars_of() {
    assert_eq!(chars_of(""), Vec::<char>::new());
    assert_eq!(chars_of("a\u{e9}\u{1f600}\n"), vec!['a', '\u{e9}', '\u{1f600}', '\n']);
}

#[test]
fn test_whitespace_is_that_of_the_standard_library() {
    for code in 0..=0x11_0000u32 {
        if let Some(c) = char::from_u32(code) {
            assert_eq!(whitespace(c), c.is_whitespace(), "{:x}", code);
        }
    }
}

#[test]
fn test_find() {
    let chars = chars_of("ab\tcd\te");
    assert_eq!(find(&chars, 0, chars.len(), '\t'), 2);
    assert_eq!(find(&chars, 3, chars.len(), '\t'), 5);
    assert_eq!(find(&chars, 6, chars.len(), '\t'), 7);
    assert_eq!(find(&chars, 0, 2, '\t'), 2);
    assert_eq!(find(&chars, 4, 4, 'd'), 4);
}

#[test]
fn test_trim_bounds() {
    for text in ["", " ", "a", " a", "a ", " \t a b\u{3000}\r\n", "\u{a0}x\u{2009}", "  \n  "] {
        let chars = chars_of(text);
        let bounds = trim_bounds(&chars, 0, chars.len());
        assert_eq!(cut(&chars, bounds), text.trim());
    }
    let chars = chars_of("ab  cd  ef");
    assert_eq!(trim_bounds(&chars, 2, 8), (4, 6));
    assert_eq!(trim_bounds(&chars, 2, 4), (4, 4));
}

#[test]
fn test_prefix_and_equality() {
    let chars = chars_of("xxTarget: 70");
    assert!(starts_with(&chars, 2, chars.len(), &chars_of("Target: ")));
    assert!(starts_with(&chars, 2, chars.len(), &chars_of("")));
    assert!(!starts_with(&chars, 0, chars.len(), &chars_of("Target: ")));
    assert!(!starts_with(&chars, 2, 8, &chars_of("Target: ")));
    assert!(equals(&chars, 2, 8, &chars_of("Target")));
    assert!(!equals(&chars, 2, 9, &chars_of("Target")));
    assert!(!equals(&chars, 2, 8, &chars_of("Targes")));
    assert!(equals(&chars, 5, 5, &chars_of("")));
}

#[test]
fn test_parse_number_is_that_of_the_standard_library() {
    for text in [
        "", "0", "7", "+7", "-7", "+", "-", "++7", "007", "+007", "70", "7 ", " 7", "7a", "a7",
        "4294967295", "4294967296", "04294967295", "42949672950", "99999999999999999999999",
        "\u{661}", "1_0", "0x10", "1e3",
    ] {
        let chars = chars_of(text);
        assert_eq!(parse_number(&chars, 0, chars.len()), text.parse::<u32>().ok(), "{:?}", text);
    }
    let chars = chars_of("ab12cd");
    assert_eq!(parse_number(&chars, 2, 4), Some(12));
    assert_eq!(parse_number(&chars, 2, 5), None);
    assert_eq!(parse_number(&chars, 3, 3), None);
}

#[test]
fn test_field_bounds_are_those_of_split() {
    for text in ["", "a", "a\tb", "\t", "a\t\tb\t", "\ta b\t c ", "one\ttwo\tthree\tfour"] {
        let chars = chars_of(text);
        let fields: Vec<&str> = text.split('\t').collect();
        for k in 0..fields.len() + 2 {
            let found = field_bounds(&chars, 0, chars.len(), k).map(|b| cut(&chars, b));
            assert_eq!(found.as_deref(), fields.get(k).copied(), "{:?} {}", text, k);
        }
    }
    let chars = chars_of("a\tb\tc");
    assert_eq!(field_bounds(&chars, 2, 3, 0), Some((2, 3)));
    assert_eq!(field_bounds(&chars, 2, 3, 1), None);
}

#[test]
fn test_line_bounds_are_those_of_lines() {
    for text in [
        "", "\n", "a", "a\n", "a\nb", "a\r\nb\r\n", "a\rb\n", "a\n\nb", "\n\n", "a\r", "\r\n",
        "a\r\r\n", "a\n\r", "x\ty\nz",
    ] {
        let chars = chars_of(text);
        let found: Vec<String> = line_bounds(&chars).into_iter().map(|b| cut(&chars, b)).collect();
        let expected: Vec<&str> = text.lines().collect();
        assert_eq!(found, expected, "{:?}", text);
    }
}

#[test]
fn test_target_position() {
    assert_eq!(TARGET_SET, [10, 11, 20, 25, 30, 35, 40, 45, 70]);
    assert_eq!(MAX_ABILITIES, 16);
    for (index, target) in TARGET_SET.iter().enumerate() {
        assert_eq!(target_position(*target), Some(index));
    }
    for value in [0, 9, 12, 69, 71, usize::MAX] {
        assert_eq!(target_position(value), None);
    }
}
