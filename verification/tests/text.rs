use sidelb::text::{find_first, parse_u16, same_text, split_list, strip_prefix, trim};

#[test]
fn trim_takes_white_space_off_both_ends_only() {
    assert_eq!(trim("  a b  "), "a b");
    assert_eq!(trim("\t\r\n x\u{a0}\u{3000}"), "x");
    assert_eq!(trim("x"), "x");
    assert_eq!(trim(""), "");
    assert_eq!(trim(" \n "), "");
    assert_eq!(trim("\u{e9}t\u{e9} "), "\u{e9}t\u{e9}");
    for text in ["", " ", "  a", "a  ", " a b ", "\u{2003}\u{e9}\u{2003}", "\u{200b} x"] {
        assert_eq!(trim(text), text.trim());
    }
}

#[test]
fn same_text_compares_characters() {
    assert!(same_text("", ""));
    assert!(same_text("abc", "abc"));
    assert!(!same_text("abc", "abd"));
    assert!(!same_text("abc", "ab"));
    assert!(!same_text("ABC", "abc"));
}

#[test]
fn strip_prefix_returns_what_follows() {
    assert_eq!(strip_prefix("mode=round-robin", "mode="), Some("round-robin"));
    assert_eq!(strip_prefix("mode=", "mode="), Some(""));
    assert_eq!(strip_prefix("mode", "mode="), None);
    assert_eq!(strip_prefix("Mode=x", "mode="), None);
    assert_eq!(strip_prefix("anything", ""), Some("anything"));
    assert_eq!(strip_prefix("\u{e9}=\u{e8}", "\u{e9}="), Some("\u{e8}"));
}

#[test]
fn find_first_counts_characters() {
    assert_eq!(find_first("a:b:c", ':'), Some(1));
    assert_eq!(find_first(":", ':'), Some(0));
    assert_eq!(find_first("abc", ':'), None);
    assert_eq!(find_first("", ':'), None);
    assert_eq!(find_first("\u{e9}\u{e9}:x", ':'), Some(2));
}

#[test]
fn split_list_drops_blank_items() {
    assert_eq!(split_list("a,b,c", ','), vec!["a", "b", "c"]);
    assert_eq!(split_list(" a , ,b,,", ','), vec!["a", "b"]);
    assert_eq!(split_list("", ','), Vec::<String>::new());
    assert_eq!(split_list(" , ,", ','), Vec::<String>::new());
    assert_eq!(split_list("a b;c", ','), vec!["a b;c"]);
    assert_eq!(split_list("a b;c", ';'), vec!["a b", "c"]);
}

#[test]
fn parse_u16_reads_what_the_standard_parser_reads() {
    assert_eq!(parse_u16("0"), Some(0));
    assert_eq!(parse_u16("80"), Some(80));
    assert_eq!(parse_u16("+80"), Some(80));
    assert_eq!(parse_u16("00080"), Some(80));
    assert_eq!(parse_u16("65535"), Some(65535));
    assert_eq!(parse_u16("65536"), None);
    assert_eq!(parse_u16("99999999999999999999999"), None);
    assert_eq!(parse_u16(""), None);
    assert_eq!(parse_u16("+"), None);
    assert_eq!(parse_u16("++1"), None);
    assert_eq!(parse_u16("-1"), None);
    assert_eq!(parse_u16("8 0"), None);
    assert_eq!(parse_u16("80 "), None);
    assert_eq!(parse_u16("8_0"), None);
    assert_eq!(parse_u16("0x50"), None);
    assert_eq!(parse_u16("\u{663}"), None);
    for text in ["1", "+0", "-0", "65535", "65536", "070000", "+", "", "12a", "1 ", "٣"] {
        assert_eq!(parse_u16(text), text.parse::<u16>().ok());
    }
}

#[test]
fn white_space_is_the_25_characters_of_the_unicode_property() {
    let listed = |c: char| {
        ('\u{9}'..='\u{d}').contains(&c)
            || c == '\u{20}'
            || c == '\u{85}'
            || c == '\u{a0}'
            || c == '\u{1680}'
            || ('\u{2000}'..='\u{200a}').contains(&c)
            || c == '\u{2028}'
            || c == '\u{2029}'
            || c == '\u{202f}'
            || c == '\u{205f}'
            || c == '\u{3000}'
    };
    let mut count = 0;
    for code in 0..=0x10ffffu32 {
        if let Some(c) = char::from_u32(code) {
            assert_eq!(c.is_whitespace(), listed(c));
            let padded = format!("{}x{}", c, c);
            assert_eq!(trim(&padded) == "x", listed(c));
            if listed(c) {
                count += 1;
            }
        }
    }
    assert_eq!(count, 25);
}
