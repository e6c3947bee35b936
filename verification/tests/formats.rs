//! The textual formats: path stems, decimal rendering and parsing, the
//! persisted store file, and the make-rule dependency listing.

use quikc::depfile::parse_dependencies;
use quikc::strutil::{file_stem, parse_u64, str_ends_with, str_eq, strip_dot_slash, u64_to_string};
use quikc::tablefile::{is_line_safe, parse_table, parse_table_line};

#[test]
fn file_stem_of_plain_source_path() {
    assert_eq!(file_stem("./src/foo.c"), "foo");
}

#[test]
fn file_stem_without_directory() {
    assert_eq!(file_stem("main.cpp"), "main");
}

#[test]
fn file_stem_keeps_inner_dots() {
    assert_eq!(file_stem("./src/a.tar.gz"), "a.tar");
}

#[test]
fn file_stem_of_dotfile_is_whole_name() {
    assert_eq!(file_stem("./src/.hidden"), ".hidden");
}

#[test]
fn file_stem_without_extension() {
    assert_eq!(file_stem("./obj/readme"), "readme");
}

#[test]
fn ends_with_and_eq_on_plain_strings() {
    assert!(str_ends_with("foo.cpp", ".cpp"));
    assert!(!str_ends_with("foo.cpp", ".c"));
    assert!(str_ends_with("x", ""));
    assert!(!str_ends_with("", "x"));
    assert!(str_eq("abc", "abc"));
    assert!(!str_eq("abc", "abd"));
    assert!(!str_eq("abc", "ab"));
}

#[test]
fn strip_dot_slash_variants() {
    assert_eq!(strip_dot_slash("./include/a.h"), "include/a.h");
    assert_eq!(strip_dot_slash("include/a.h"), "include/a.h");
    assert_eq!(strip_dot_slash("./"), "");
    assert_eq!(strip_dot_slash("."), ".");
}

#[test]
fn u64_rendering_exact() {
    assert_eq!(u64_to_string(0), "0");
    assert_eq!(u64_to_string(7), "7");
    assert_eq!(u64_to_string(1664303619377), "1664303619377");
    assert_eq!(u64_to_string(u64::MAX), "18446744073709551615");
}

#[test]
fn u64_parsing_exact() {
    assert_eq!(parse_u64("0"), Some(0));
    assert_eq!(parse_u64("1664303619377"), Some(1664303619377));
    assert_eq!(parse_u64("18446744073709551615"), Some(u64::MAX));
}

#[test]
fn u64_parsing_rejects_bad_input() {
    assert_eq!(parse_u64(""), None);
    assert_eq!(parse_u64("12a"), None);
    assert_eq!(parse_u64("-5"), None);
    assert_eq!(parse_u64("18446744073709551616"), None);
    assert_eq!(parse_u64("99999999999999999999999"), None);
}

#[test]
fn round_trip_through_text() {
    for n in [0u64, 1, 9, 10, 99, 100, 12345678901234567, u64::MAX] {
        assert_eq!(parse_u64(&u64_to_string(n)), Some(n));
    }
}

#[test]
fn table_line_parses_key_and_value() {
    assert_eq!(
        parse_table_line("src/main.c=1664303619377"),
        Some(("src/main.c".to_string(), 1664303619377))
    );
}

#[test]
fn table_line_value_stops_at_second_separator() {
    assert_eq!(parse_table_line("k=1=2"), Some(("k".to_string(), 1)));
}

#[test]
fn table_line_rejects_malformed_records() {
    assert_eq!(parse_table_line("no separator"), None);
    assert_eq!(parse_table_line("key=notanumber"), None);
    assert_eq!(parse_table_line(""), None);
    assert_eq!(parse_table_line("key="), None);
}

#[test]
fn whole_table_parses_in_order() {
    let parsed = parse_table("a.c=100\nb.c=200\ninclude/x.h=300\n");
    assert_eq!(
        parsed,
        vec![
            ("a.c".to_string(), 100),
            ("b.c".to_string(), 200),
            ("include/x.h".to_string(), 300),
        ]
    );
}

#[test]
fn whole_table_skips_lines_without_records() {
    let parsed = parse_table("broken line\nx=12\n\ny=\nz=7");
    assert_eq!(parsed, vec![("x".to_string(), 12), ("z".to_string(), 7)]);
}

#[test]
fn empty_table_file_has_no_records() {
    assert_eq!(parse_table(""), vec![]);
}

#[test]
fn line_safety_of_keys() {
    assert!(is_line_safe("./src/a.c"));
    assert!(!is_line_safe("a=b"));
    assert!(!is_line_safe("a\nb"));
    assert!(is_line_safe(""));
}

#[test]
fn dependency_listing_skips_target_and_source() {
    let listing = "main.o: src/main.c include/a.h include/b.h";
    assert_eq!(
        parse_dependencies(listing),
        vec!["include/a.h".to_string(), "include/b.h".to_string()]
    );
}

#[test]
fn dependency_listing_keeps_continuation_tokens() {
    let listing = "main.o: src/main.c include/a.h \\\n include/b.h";
    assert_eq!(
        parse_dependencies(listing),
        vec![
            "include/a.h".to_string(),
            "\\".to_string(),
            "include/b.h".to_string(),
        ]
    );
}

#[test]
fn dependency_listing_without_dependencies() {
    assert_eq!(parse_dependencies("main.o: src/main.c"), Vec::<String>::new());
    assert_eq!(parse_dependencies("main.o:"), Vec::<String>::new());
    assert_eq!(parse_dependencies(""), Vec::<String>::new());
}
