use print_type_sizes::appended_flags;
use print_type_sizes::digits::decimal_string;
use print_type_sizes::order::{dedup_records, sort_records};
use print_type_sizes::record::TypeSizeRecord;
use print_type_sizes::report::{check_max_size, parse_output, render_listing};

fn rec(name: &str, size: usize) -> TypeSizeRecord {
    TypeSizeRecord::new(String::from(name), size)
}

fn parts(recs: Vec<TypeSizeRecord>) -> Vec<(String, usize)> {
    recs.into_iter().map(|r| (r.name, r.size)).collect()
}

#[test]
fn sort_is_size_descending_then_name_ascending() {
    let input = vec![rec("A", 10), rec("B", 20), rec("C", 20)];
    assert_eq!(
        parts(sort_records(input)),
        vec![
            (String::from("B"), 20),
            (String::from("C"), 20),
            (String::from("A"), 10),
        ]
    );
}

#[test]
fn equal_sizes_order_names_by_code_point() {
    let input = vec![rec("a", 8), rec("Z", 8), rec("\u{e9}", 8)];
    assert_eq!(
        parts(sort_records(input)),
        vec![
            (String::from("Z"), 8),
            (String::from("a"), 8),
            (String::from("\u{e9}"), 8),
        ]
    );
}

#[test]
fn sort_of_empty_is_empty() {
    assert_eq!(parts(sort_records(Vec::new())), Vec::new());
}

#[test]
fn dedup_collapses_adjacent_duplicates() {
    let input = vec![rec("A", 10), rec("A", 10), rec("B", 5)];
    assert_eq!(
        parts(dedup_records(input)),
        vec![(String::from("A"), 10), (String::from("B"), 5)]
    );
}

#[test]
fn dedup_of_deduped_is_a_no_op() {
    let once = dedup_records(vec![rec("A", 10), rec("A", 10), rec("B", 5)]);
    let once_parts = once
        .iter()
        .map(|r| (r.name.clone(), r.size))
        .collect::<Vec<_>>();
    let twice = dedup_records(once);
    assert_eq!(parts(twice), once_parts);
}

#[test]
fn dedup_keeps_equal_names_of_unequal_sizes() {
    let input = vec![rec("A", 10), rec("A", 9)];
    assert_eq!(
        parts(dedup_records(input)),
        vec![(String::from("A"), 10), (String::from("A"), 9)]
    );
}

#[test]
fn listing_is_tab_separated_lines_in_order() {
    let recs = vec![rec("B", 20), rec("A", 10)];
    assert_eq!(render_listing(&recs), "B\t20\nA\t10\n");
}

#[test]
fn listing_of_no_records_is_empty() {
    assert_eq!(render_listing(&Vec::new()), "");
}

#[test]
fn threshold_reached_fails_with_the_first_offender() {
    let recs = vec![rec("B", 20), rec("A", 10)];
    let err = check_max_size(recs, 20).err().expect("must fail");
    assert_eq!(err.t.name, "B");
    assert_eq!(err.t.size, 20);
    assert_eq!(err.max_size, 20);
    assert_eq!(
        err.message(),
        "Type `B` is 20 bytes large, which is larger than 20 bytes.\n"
    );
}

#[test]
fn threshold_above_all_sizes_succeeds() {
    let recs = vec![rec("B", 20), rec("A", 10)];
    assert!(check_max_size(recs, 25).is_ok());
}

#[test]
fn threshold_zero_fails_on_any_record() {
    let err = check_max_size(vec![rec("A", 0)], 0).err().expect("must fail");
    assert_eq!(err.t.name, "A");
    assert_eq!(err.t.size, 0);
}

#[test]
fn threshold_on_no_records_succeeds() {
    assert!(check_max_size(Vec::new(), 0).is_ok());
}

#[test]
fn parse_output_extracts_sorts_and_dedupes() {
    let lines = vec![
        String::from("   Compiling demo v0.1.0"),
        String::from("print-type-size type: `A`: 10 bytes, alignment: 8 bytes"),
        String::from("print-type-size type: `C`: 20 bytes, alignment: 8 bytes"),
        String::from("print-type-size     field `.x`: 8 bytes"),
        String::from("print-type-size type: `B`: 20 bytes, alignment: 8 bytes"),
        String::from("print-type-size type: `A`: 10 bytes, alignment: 8 bytes"),
        String::from("error: this line is not a diagnostic"),
    ];
    assert_eq!(
        parts(parse_output(&lines)),
        vec![
            (String::from("B"), 20),
            (String::from("C"), 20),
            (String::from("A"), 10),
        ]
    );
}

#[test]
fn parse_output_of_silent_build_is_empty() {
    let lines = vec![String::from("   Finished dev profile")];
    assert_eq!(parts(parse_output(&lines)), Vec::new());
}

#[test]
fn decimal_string_writes_plain_numerals() {
    assert_eq!(decimal_string(0), "0");
    assert_eq!(decimal_string(7), "7");
    assert_eq!(decimal_string(1234), "1234");
    assert_eq!(decimal_string(usize::MAX), "18446744073709551615");
}

#[test]
fn appended_flags_preserves_existing_flags() {
    assert_eq!(appended_flags(""), " -Z print-type-sizes");
    assert_eq!(
        appended_flags("-C debuginfo=2"),
        "-C debuginfo=2 -Z print-type-sizes"
    );
}

#[test]
fn records_compare_by_name_and_size() {
    assert!(rec("A", 10).same_as(&rec("A", 10)));
    assert!(!rec("A", 10).same_as(&rec("A", 11)));
    assert!(!rec("A", 10).same_as(&rec("B", 10)));
}
