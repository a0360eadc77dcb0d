use hermit::text::{
    contains, cut_once, ends_with, find_first, find_last, is_white_space, replace_char, same_text,
    split_lines, starts_with, strip_char, strip_leading, take_before, take_word, to_chars, to_text,
    trim, trim_end, trim_start,
};

const SAMPLES: [&str; 16] = [
    "",
    " ",
    "\t a b \u{3000}",
    "plain",
    "\"quoted\"",
    "\"\"\"",
    "key = value = more",
    "a|b|c",
    "\u{85}x\u{2028}",
    "```bash title",
    "``````sh",
    "# # #",
    "aXaXa",
    "line\r\nline\n\rline\r",
    "\n\n",
    "ü—✗ \u{1f980}\n",
];

fn text(chars: &[char]) -> String {
    to_text(chars)
}

#[test]
fn white_space_is_that_of_the_standard_library() {
    for code in 0..=0x10ffffu32 {
        if let Some(c) = char::from_u32(code) {
            assert_eq!(is_white_space(c), c.is_whitespace(), "{:x}", code);
        }
    }
}

#[test]
fn text_and_characters_round_trip() {
    for s in SAMPLES {
        assert_eq!(text(&to_chars(s)), s);
    }
}

#[test]
fn trimming_agrees_with_the_standard_library() {
    for s in SAMPLES {
        let chars = to_chars(s);
        assert_eq!(text(trim(&chars)), s.trim());
        assert_eq!(text(trim_start(&chars)), s.trim_start());
        assert_eq!(text(trim_end(&chars)), s.trim_end());
        assert_eq!(text(strip_char(&chars, '"')), s.trim_matches('"'));
        assert_eq!(text(strip_leading(&chars, "```")), s.trim_start_matches("```"));
    }
}

#[test]
fn trimming_twice_changes_nothing() {
    for s in SAMPLES {
        let chars = to_chars(s);
        let once = text(trim(&chars));
        assert_eq!(text(trim(&to_chars(&once))), once);
    }
}

#[test]
fn searching_agrees_with_the_standard_library() {
    for s in SAMPLES {
        let chars = to_chars(s);
        for part in ["", "a", "#", "# ", "XaX", "line", "```", "✗", "not there at all"] {
            assert_eq!(starts_with(&chars, part), s.starts_with(part));
            assert_eq!(ends_with(&chars, part), s.ends_with(part));
            assert_eq!(contains(&chars, part), s.contains(part));
            assert_eq!(
                find_last(&chars, part),
                s.rfind(part).map(|i| s[..i].chars().count())
            );
            assert_eq!(same_text(&chars, part), s == part);
        }
        for c in ['a', '=', '|', '\n', 'ü'] {
            assert_eq!(
                find_first(&chars, c),
                s.find(c).map_or(chars.len(), |i| s[..i].chars().count())
            );
            assert_eq!(text(take_before(&chars, c)), s.split(c).next().unwrap());
            assert_eq!(
                cut_once(&chars, c).map(|(a, b)| (text(a), text(b))),
                s.split_once(c).map(|(a, b)| (a.to_string(), b.to_string()))
            );
            assert_eq!(text(&replace_char(&chars, c, '/')), s.replace(c, "/"));
        }
    }
}

#[test]
fn splitting_agrees_with_the_standard_library() {
    for s in SAMPLES {
        let lines: Vec<&str> = s.lines().collect();
        assert_eq!(split_lines(s), lines);
        let word = s.split_whitespace().next().unwrap_or("");
        assert_eq!(text(take_word(&to_chars(s))), word);
    }
}

#[test]
fn no_line_holds_a_line_feed() {
    for s in SAMPLES {
        for line in split_lines(s) {
            assert!(!line.contains('\n'));
        }
    }
}
