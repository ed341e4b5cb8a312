use ecma_runtime_cat::text::{chars_of, debug_chars, decimal_u64, lower_hex, string_of, trim, white_space};

/// ECMA-262 `StrWhiteSpaceChar`: Unicode white space but `U+0085`, and the byte order mark.
fn ecma_white_space(c: char) -> bool {
    (c.is_whitespace() && c != '\u{85}') || c == '\u{feff}'
}

#[test]
fn white_space_is_ecma_str_white_space() {
    for u in 0u32..0x10000 {
        if let Some(c) = char::from_u32(u) {
            assert_eq!(white_space(c), ecma_white_space(c), "{u:#x}");
        }
    }
    assert!(white_space('\u{feff}'));
    assert!(!white_space('\u{85}'));
}

#[test]
fn trim_strips_ecma_white_space() {
    for t in ["", "  ", " a ", "\u{3000}x\u{2029}", "\tab c\n", "x", "\u{a0}\u{85}y z\u{200a}", "\u{feff}7\u{feff}"] {
        assert_eq!(string_of(&trim(&chars_of(t))), t.trim_matches(ecma_white_space), "{t:?}");
    }
    assert_eq!(string_of(&trim(&chars_of("\u{feff} 12\u{85}"))), "12\u{85}");
}

#[test]
fn decimal_and_hex_renderings() {
    for n in [0u64, 7, 10, 99, 12345, u64::MAX] {
        assert_eq!(string_of(&decimal_u64(n)), format!("{n}"));
    }
    for n in [0u32, 9, 10, 255, 0xd800, u32::MAX] {
        assert_eq!(string_of(&lower_hex(n)), format!("{n:x}"));
    }
}

#[test]
fn debug_rendering_quotes_and_escapes() {
    assert_eq!(string_of(&debug_chars(&chars_of("a\"b\n"))), "\"a\\\"b\\n\"");
    assert_eq!(string_of(&debug_chars(&chars_of("garbage"))), "\"garbage\"");
}
