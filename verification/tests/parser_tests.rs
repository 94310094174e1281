use print_type_sizes::parser::{
    find_char_from, has_prefix, parse_line, parse_lines, parse_usize, split_lines,
};

fn rec_parts(line: &str) -> Option<(String, usize)> {
    parse_line(line).map(|r| (r.name, r.size))
}

#[test]
fn well_formed_line_yields_name_and_size() {
    assert_eq!(
        rec_parts("print-type-size type: `Foo`: 24 bytes, alignment: 8 bytes"),
        Some((String::from("Foo"), 24))
    );
}

#[test]
fn generic_name_and_no_trailing_detail() {
    assert_eq!(
        rec_parts("print-type-size type: `Option<Box<str>>`: 16 bytes"),
        Some((String::from("Option<Box<str>>"), 16))
    );
}

#[test]
fn line_without_diagnostic_prefix_yields_nothing() {
    assert!(parse_line("Compiling foo v0.1.0").is_none());
    assert!(parse_line("").is_none());
    assert!(parse_line("type: `Foo`: 24 bytes").is_none());
}

#[test]
fn diagnostic_line_of_another_shape_yields_nothing() {
    assert!(parse_line("print-type-size     field `.x`: 8 bytes").is_none());
    assert!(parse_line("print-type-size variant `Some`: 8 bytes").is_none());
    assert!(parse_line("print-type-size end padding: 4 bytes").is_none());
}

#[test]
fn non_numeric_size_token_is_skipped() {
    assert!(parse_line("print-type-size type: `Foo`: many bytes").is_none());
    assert!(parse_line("print-type-size type: `Foo`: 24x bytes").is_none());
}

#[test]
fn missing_size_token_is_skipped() {
    assert!(parse_line("print-type-size type: `Foo`:").is_none());
    assert!(parse_line("print-type-size type: `Foo`").is_none());
    assert!(parse_line("print-type-size type: no backticks at all").is_none());
    assert!(parse_line("print-type-size type: `Foo: one backtick").is_none());
}

#[test]
fn size_too_large_for_usize_is_skipped() {
    assert!(parse_line(
        "print-type-size type: `Foo`: 99999999999999999999999999 bytes"
    )
    .is_none());
}

#[test]
fn metadata_runs_to_the_end_of_the_line() {
    assert_eq!(
        rec_parts("print-type-size type: `Foo`: 24 bytes `detail`"),
        Some((String::from("Foo"), 24))
    );
}

#[test]
fn backtick_inside_size_token_is_skipped() {
    assert!(parse_line("print-type-size type: `X`: 0`").is_none());
    assert!(parse_line("print-type-size type: `X`: `0").is_none());
}

#[test]
fn empty_name_between_backticks_is_kept() {
    assert_eq!(
        rec_parts("print-type-size type: ``: 8 bytes"),
        Some((String::from(""), 8))
    );
}

#[test]
fn name_may_hold_spaces_and_punctuation() {
    assert_eq!(
        rec_parts("print-type-size type: `std::option::Option<&'static str>`: 16 bytes"),
        Some((String::from("std::option::Option<&'static str>"), 16))
    );
}

#[test]
fn parse_usize_accepts_plain_and_signed_numerals() {
    assert_eq!(parse_usize("0"), Some(0));
    assert_eq!(parse_usize("24"), Some(24));
    assert_eq!(parse_usize("+24"), Some(24));
    assert_eq!(parse_usize("18446744073709551615"), Some(usize::MAX));
}

#[test]
fn parse_usize_rejects_everything_else() {
    assert_eq!(parse_usize(""), None);
    assert_eq!(parse_usize("+"), None);
    assert_eq!(parse_usize("-1"), None);
    assert_eq!(parse_usize("2 4"), None);
    assert_eq!(parse_usize("24bytes"), None);
    assert_eq!(parse_usize("18446744073709551616"), None);
}

#[test]
fn parse_lines_keeps_line_order_and_repeats() {
    let lines = vec![
        String::from("print-type-size type: `B`: 20 bytes"),
        String::from("warning: unused variable"),
        String::from("print-type-size type: `A`: 10 bytes"),
        String::from("print-type-size type: `B`: 20 bytes"),
    ];
    let recs = parse_lines(&lines);
    let parts: Vec<(String, usize)> = recs.into_iter().map(|r| (r.name, r.size)).collect();
    assert_eq!(
        parts,
        vec![
            (String::from("B"), 20),
            (String::from("A"), 10),
            (String::from("B"), 20),
        ]
    );
}

#[test]
fn split_lines_cuts_on_newlines() {
    assert_eq!(
        split_lines(&b"one\ntwo\nthree".to_vec()),
        vec![b"one".to_vec(), b"two".to_vec(), b"three".to_vec()]
    );
}

#[test]
fn split_lines_sheds_carriage_returns_before_newlines() {
    assert_eq!(
        split_lines(&b"one\r\ntwo\r\n".to_vec()),
        vec![b"one".to_vec(), b"two".to_vec()]
    );
}

#[test]
fn split_lines_keeps_a_lone_carriage_return() {
    assert_eq!(
        split_lines(&b"a\rb\nend\r".to_vec()),
        vec![b"a\rb".to_vec(), b"end\r".to_vec()]
    );
}

#[test]
fn split_lines_yields_no_line_after_a_final_newline() {
    assert_eq!(split_lines(&b"only\n".to_vec()), vec![b"only".to_vec()]);
    assert_eq!(split_lines(&Vec::new()), Vec::<Vec<u8>>::new());
    assert_eq!(split_lines(&b"\n".to_vec()), vec![Vec::<u8>::new()]);
}

#[test]
fn find_char_from_reports_first_occurrence() {
    assert_eq!(find_char_from("a`b`c", 0, '`'), Some(1));
    assert_eq!(find_char_from("a`b`c", 2, '`'), Some(3));
    assert_eq!(find_char_from("a`b`c", 4, '`'), None);
}

#[test]
fn has_prefix_matches_literal_prefixes() {
    assert!(has_prefix("print-type-size type: `Foo`", "print-type-size "));
    assert!(!has_prefix("print-type", "print-type-size "));
    assert!(has_prefix("anything", ""));
}
