use zed_plus::text::{
    chars_of, contains_text, decimal_text, is_blank, is_whitespace, join_path, split_path,
    starts_with, str_less, with_slash,
};

#[test]
fn whitespace_is_what_the_standard_library_says() {
    for number in 0..=0x10ffff_u32 {
        if let Some(c) = char::from_u32(number) {
            assert_eq!(is_whitespace(c), c.is_whitespace(), "{number:x}");
        }
    }
}

#[test]
fn blank_is_empty_after_trimming() {
    for text in ["", " ", "\n\t ", " x ", "\u{3000}", "\u{200b}", "message"] {
        assert_eq!(is_blank(text), text.trim().is_empty(), "{text:?}");
    }
}

#[test]
fn strings_order_as_the_standard_library_orders_them() {
    let samples = ["", "a", "ab", "b", "B", "a/b", "a.b", "é", "🎉", "\u{ffff}", "a\u{10ffff}"];
    for a in samples {
        for b in samples {
            assert_eq!(str_less(a, b), a < b, "{a:?} {b:?}");
        }
    }
}

#[test]
fn paths_split_at_slashes() {
    for path in ["", "a", "a/b", "/a", "a/", "a//b", "é/🎉/x.rs"] {
        assert_eq!(split_path(path), path.split('/').collect::<Vec<_>>());
        assert_eq!(split_path(path).join("/"), path);
    }
}

#[test]
fn paths_join_under_a_prefix() {
    assert_eq!(join_path("", "a"), "a");
    assert_eq!(join_path("a", "b"), "a/b");
    assert_eq!(with_slash("", "b"), "/b");
}

#[test]
fn prefixes_and_substrings_are_found() {
    for (text, part) in [
        ("abc", "ab"),
        ("abc", "abc"),
        ("abc", ""),
        ("", ""),
        ("ab", "abc"),
        ("abc", "bc"),
        ("aab", "ab"),
        ("🎉x", "x"),
    ] {
        assert_eq!(starts_with(text, part), text.starts_with(part));
        assert_eq!(contains_text(text, part), text.contains(part));
    }
}

#[test]
fn numbers_are_written_in_decimal() {
    for number in [0_u64, 7, 10, 19, 100, 2_000, 10_000, u64::MAX] {
        assert_eq!(decimal_text(number), number.to_string());
    }
}

#[test]
fn characters_come_in_order() {
    assert_eq!(chars_of("a🎉b"), vec!['a', '🎉', 'b']);
}
