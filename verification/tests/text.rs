use slacker_gui::pages::packages::matching;
use slacker_gui::parse::history::{Event, Kind};
use slacker_gui::text::{
    byte_index, char_width, chars_of, i32_text, is_control, is_whitespace, less_than, line_spans,
    parse_i32_span, parse_u32_span, same_text, split_spans, trimmed, u32_text, usize_text,
    word_spans,
};

#[test]
fn white_space_and_control_match_std_for_every_char() {
    for u in 0u32..=0x10FFFF {
        if let Some(c) = char::from_u32(u) {
            assert_eq!(is_whitespace(c), c.is_whitespace(), "{u:#x}");
            assert_eq!(is_control(c), c.is_control(), "{u:#x}");
            assert_eq!(char_width(c), c.len_utf8(), "{u:#x}");
        }
    }
}

#[test]
fn lower_case_follows_unicode() {
    let ev = |name: &str| Event { when: String::new(), kind: Kind::Installed, name: name.to_string(), detail: String::new(), source: String::new() };
    let events = vec![ev("ÄÖ-Tools"), ev("libİcu"), ev("plain")];
    assert_eq!(matching(&events, "äö"), vec![0]);
    assert_eq!(matching(&events, "i\u{307}c"), vec![1]);
    assert_eq!(matching(&events, "PLAIN"), vec![2]);
}

#[test]
fn numbers_parse_as_std_parses_them() {
    for s in ["0", "+7", "4294967295", "4294967296", "", "+", "-1", "12a", " 1", "007"] {
        let v: Vec<char> = s.chars().collect();
        assert_eq!(parse_u32_span(&v, 0, v.len()), s.parse::<u32>().ok(), "{s:?}");
    }
    for s in ["0", "-0", "+5", "-2147483648", "2147483647", "2147483648", "-2147483649", "-", "--1"] {
        let v: Vec<char> = s.chars().collect();
        assert_eq!(parse_i32_span(&v, 0, v.len()), s.parse::<i32>().ok(), "{s:?}");
    }
}

#[test]
fn numbers_are_written_as_std_writes_them() {
    for n in [0u32, 9, 10, 61, 4294967295] {
        assert_eq!(u32_text(n), n.to_string());
    }
    for n in [0i32, -1, 126, i32::MIN, i32::MAX] {
        assert_eq!(i32_text(n), n.to_string());
    }
    assert_eq!(usize_text(300), "300");
}

#[test]
fn texts_compare_as_strings_do() {
    let words = ["", "a", "ab", "b", "B", "ä", "abc", "ab\u{0}"];
    for x in words {
        for y in words {
            let (vx, vy): (Vec<char>, Vec<char>) = (x.chars().collect(), y.chars().collect());
            assert_eq!(less_than(&vx, &vy), x < y, "{x:?} {y:?}");
            assert_eq!(same_text(x, y), x == y);
        }
    }
}

#[test]
fn lines_words_and_splits_follow_std() {
    for s in ["a\nb", "a\r\nb\r\n", "\n\n", "", "x\r", "one  two \t three"] {
        let v = chars_of(s);
        let got: Vec<String> = line_spans(&v).iter().map(|&(a, b)| v[a..b].iter().collect()).collect();
        let want: Vec<String> = s.lines().map(str::to_string).collect();
        assert_eq!(got, want, "{s:?}");
        let got: Vec<String> = word_spans(&v, 0, v.len()).iter().map(|&(a, b)| v[a..b].iter().collect()).collect();
        let want: Vec<String> = s.split_whitespace().map(str::to_string).collect();
        assert_eq!(got, want, "{s:?}");
        let got: Vec<String> = split_spans(&v, 0, v.len(), &['\n'], 0).iter().map(|&(a, b)| v[a..b].iter().collect()).collect();
        let want: Vec<String> = s.split('\n').map(str::to_string).collect();
        assert_eq!(got, want, "{s:?}");
    }
    assert_eq!(trimmed("\u{a0} x y \n"), "x y");
}

#[test]
fn byte_offsets_fall_between_characters() {
    let v = chars_of("aé€b");
    assert_eq!(byte_index(&v, 0, v.len(), 0), Some(0));
    assert_eq!(byte_index(&v, 0, v.len(), 1), Some(1));
    assert_eq!(byte_index(&v, 0, v.len(), 2), None);
    assert_eq!(byte_index(&v, 0, v.len(), 3), Some(2));
    assert_eq!(byte_index(&v, 0, v.len(), 6), Some(3));
    assert_eq!(byte_index(&v, 0, v.len(), 7), Some(4));
    assert_eq!(byte_index(&v, 0, v.len(), 8), None);
}

#[test]
fn byte_offsets_are_found_past_the_first_few_characters() {
    let s: String = "é".repeat(60) + "x";
    let v = chars_of(&s);
    assert_eq!(byte_index(&v, 0, v.len(), 120), Some(60));
    assert_eq!(byte_index(&v, 0, v.len(), 121), Some(61));
    assert_eq!(byte_index(&v, 0, v.len(), 119), None);
    assert_eq!(byte_index(&v, 0, v.len(), usize::MAX), None);
}
