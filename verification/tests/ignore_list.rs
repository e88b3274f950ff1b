use copier::ignore::{marker_paths, parse_ignore_list, should_ignore_dir};
use std::io::BufRead;

fn texts(items: &[&str]) -> Vec<String> {
    items.iter().map(|item| item.to_string()).collect()
}

#[test]
fn parse_keeps_patterns_in_order() {
    let patterns = parse_ignore_list(b"node_modules\ntarget\n/skip-me\n");
    assert_eq!(patterns, texts(&["node_modules", "target", "/skip-me"]));
}

#[test]
fn parse_drops_comments_and_blank_lines() {
    let patterns = parse_ignore_list(b"# build output\n\ntarget\n\n#cache\n.cache\n");
    assert_eq!(patterns, texts(&["target", ".cache"]));
}

#[test]
fn parse_of_empty_file_is_empty() {
    assert_eq!(parse_ignore_list(b""), Vec::<String>::new());
}

#[test]
fn parse_of_comments_only_is_empty() {
    assert_eq!(parse_ignore_list(b"# one\n#two\n\n\n# three"), Vec::<String>::new());
}

#[test]
fn parse_takes_last_line_without_line_feed() {
    assert_eq!(parse_ignore_list(b"a\nb"), texts(&["a", "b"]));
}

#[test]
fn parse_strips_carriage_return_before_line_feed_only() {
    assert_eq!(parse_ignore_list(b"a\r\nb\r\n"), texts(&["a", "b"]));
    // A carriage return that no line feed follows belongs to the pattern.
    assert_eq!(parse_ignore_list(b"a\r\nb\r"), texts(&["a", "b\r"]));
    // Only one carriage return is taken off.
    assert_eq!(parse_ignore_list(b"a\r\r\n"), texts(&["a\r"]));
    // A line of a carriage return alone is an empty line.
    assert_eq!(parse_ignore_list(b"\r\nx\n"), texts(&["x"]));
}

#[test]
fn parse_keeps_surrounding_blanks() {
    assert_eq!(parse_ignore_list(b"  padded \n\ttab\n #not a comment\n"), texts(&[
        "  padded ",
        "\ttab",
        " #not a comment",
    ]));
}

#[test]
fn parse_passes_over_lines_that_are_not_utf8() {
    let content: Vec<u8> = vec![b'a', b'\n', 0xff, 0xfe, b'\n', b'b', b'\n'];
    assert_eq!(parse_ignore_list(&content), texts(&["a", "b"]));
    // A truncated sequence at the end of a line spoils that line alone.
    let content: Vec<u8> = vec![b'x', 0xc3, b'\n', b'y'];
    assert_eq!(parse_ignore_list(&content), texts(&["y"]));
}

#[test]
fn parse_judges_utf8_strictly() {
    // An overlong encoding, a surrogate and a value beyond the last scalar
    // are no text; the last scalar itself is.
    let overlong: Vec<u8> = vec![0xc0, 0x80, b'\n'];
    let surrogate: Vec<u8> = vec![0xed, 0xa0, 0x80, b'\n'];
    let beyond: Vec<u8> = vec![0xf4, 0x90, 0x80, 0x80, b'\n'];
    let stray: Vec<u8> = vec![0x80, b'\n'];
    let last: Vec<u8> = vec![0xf4, 0x8f, 0xbf, 0xbf, b'\n'];
    assert_eq!(parse_ignore_list(&overlong), Vec::<String>::new());
    assert_eq!(parse_ignore_list(&surrogate), Vec::<String>::new());
    assert_eq!(parse_ignore_list(&beyond), Vec::<String>::new());
    assert_eq!(parse_ignore_list(&stray), Vec::<String>::new());
    assert_eq!(parse_ignore_list(&last), texts(&["\u{10ffff}"]));
}

#[test]
fn parse_decodes_text_beyond_ascii() {
    let patterns = parse_ignore_list("caf\u{e9}\n/\u{65e5}\u{672c}\n\u{1f600}\n".as_bytes());
    assert_eq!(patterns, texts(&["caf\u{e9}", "/\u{65e5}\u{672c}", "\u{1f600}"]));
}

#[test]
fn parse_agrees_with_line_reading() {
    let samples: Vec<&[u8]> = vec![
        b"",
        b"\n",
        b"\n\n",
        b"a",
        b"a\n",
        b"a\r\n",
        b"a\r",
        b"\r",
        b"\r\n",
        b"a\n\nb\r\n#c\n d \n",
        b"#\n/\n//x\n",
        b"one\r\ntwo\rthree\n\r\r\n",
        b"a\n\xff\xfe\nb\n",
        b"x\xc3\ny",
        b"\xe2\x82\n\xe2\x82\xac\n",
        b"#\xff\nok\xff\r\nfine\r\n",
    ];
    for sample in samples {
        let mut expected: Vec<String> = Vec::new();
        for line in sample.lines() {
            if let Ok(line) = line {
                if !line.starts_with("#") && line != "" {
                    expected.push(line);
                }
            }
        }
        assert_eq!(parse_ignore_list(sample), expected);
    }
}

#[test]
fn bare_pattern_matches_name_exactly() {
    let ignores = texts(&["node_modules", "target"]);
    let none: Vec<String> = Vec::new();
    assert!(should_ignore_dir(&ignores, "node_modules", &none));
    assert!(should_ignore_dir(&ignores, "target", &none));
    assert!(!should_ignore_dir(&ignores, "src", &none));
    assert!(!should_ignore_dir(&ignores, "Target", &none));
    assert!(!should_ignore_dir(&ignores, "target2", &none));
    assert!(!should_ignore_dir(&ignores, "targe", &none));
    assert!(!should_ignore_dir(&ignores, "", &none));
}

#[test]
fn nothing_is_ignored_without_patterns() {
    let ignores: Vec<String> = Vec::new();
    assert!(!should_ignore_dir(&ignores, "node_modules", &texts(&["marker.txt"])));
}

#[test]
fn marker_pattern_matches_when_marker_exists() {
    let ignores = texts(&["/marker.txt"]);
    assert!(should_ignore_dir(&ignores, "d", &texts(&["marker.txt"])));
    assert!(!should_ignore_dir(&ignores, "d", &Vec::new()));
    assert!(!should_ignore_dir(&ignores, "d", &texts(&["other.txt"])));
    // The pattern does not match a directory by the marker's name.
    assert!(!should_ignore_dir(&ignores, "marker.txt", &Vec::new()));
}

#[test]
fn skip_me_marker_decides() {
    let ignores = texts(&["/skip-me"]);
    assert!(should_ignore_dir(&ignores, "D", &texts(&["skip-me"])));
    assert!(!should_ignore_dir(&ignores, "D", &Vec::new()));
}

#[test]
fn marker_is_not_a_bare_pattern() {
    // A marker that exists but that no pattern names is of no account.
    let ignores = texts(&["marker.txt"]);
    assert!(!should_ignore_dir(&ignores, "d", &texts(&["marker.txt"])));
}

#[test]
fn any_pattern_may_match() {
    let ignores = texts(&["a", "/m1", "b", "/deep/m2"]);
    assert!(should_ignore_dir(&ignores, "b", &Vec::new()));
    assert!(should_ignore_dir(&ignores, "x", &texts(&["deep/m2"])));
    assert!(should_ignore_dir(&ignores, "x", &texts(&["m1"])));
    assert!(!should_ignore_dir(&ignores, "x", &texts(&["m2"])));
}

#[test]
fn slash_alone_names_the_directory_itself() {
    let ignores = texts(&["/"]);
    assert!(should_ignore_dir(&ignores, "anything", &texts(&[""])));
    assert!(!should_ignore_dir(&ignores, "anything", &Vec::new()));
}

#[test]
fn marker_of_text_beyond_ascii() {
    let ignores = texts(&["/\u{e9}t\u{e9}"]);
    assert!(should_ignore_dir(&ignores, "d", &texts(&["\u{e9}t\u{e9}"])));
    assert!(!should_ignore_dir(&ignores, "d", &texts(&["t\u{e9}"])));
}

#[test]
fn marker_paths_lists_what_to_look_up() {
    let ignores = texts(&["node_modules", "/skip-me", "target", "/a/b", "/"]);
    assert_eq!(marker_paths(&ignores), texts(&["skip-me", "a/b", ""]));
    assert_eq!(marker_paths(&texts(&["x", "y"])), Vec::<String>::new());
}
