use chcpu::errors::ChCpuError;
use chcpu::parse::parse_attr_i32;
use chcpu::parse::parse_cpu_list;

fn ranges_of(s: &[u8]) -> Vec<(usize, usize)> {
    let list = parse_cpu_list(s).expect("expected a valid CPU list");
    let mut out = Vec::new();
    let mut k = 0;
    while k < list.range_count() {
        out.push(list.range_at(k));
        k += 1;
    }
    out
}

#[test]
fn single_index() {
    assert_eq!(ranges_of(b"3"), vec![(3, 3)]);
}

#[test]
fn single_range() {
    assert_eq!(ranges_of(b"0-5"), vec![(0, 5)]);
}

#[test]
fn example_list() {
    assert_eq!(ranges_of(b"0,2,7,10-13"), vec![(0, 0), (2, 2), (7, 7), (10, 13)]);
}

#[test]
fn same_set_same_normal_form() {
    // two spellings of {0,1,2,5} normalize identically
    assert_eq!(ranges_of(b"0-2,5"), vec![(0, 2), (5, 5)]);
    assert_eq!(ranges_of(b"2,0-1,5"), vec![(0, 2), (5, 5)]);
}

#[test]
fn reversed_range_fails() {
    assert!(matches!(parse_cpu_list(b"5,2-0"), Err(ChCpuError::CpuSpecFirstAfterLast)));
}

#[test]
fn empty_input_fails() {
    assert!(matches!(parse_cpu_list(b""), Err(ChCpuError::EmptyCpuList)));
}

#[test]
fn comma_only_fails() {
    assert!(matches!(parse_cpu_list(b","), Err(ChCpuError::EmptyCpuList)));
}

#[test]
fn trailing_comma_fails() {
    assert!(matches!(parse_cpu_list(b"3,"), Err(ChCpuError::EmptyCpuList)));
}

#[test]
fn non_digit_fails() {
    assert!(matches!(parse_cpu_list(b"3,a"), Err(ChCpuError::CpuSpecNotPositiveInteger)));
}

#[test]
fn first_after_last_fails() {
    assert!(matches!(parse_cpu_list(b"5-2"), Err(ChCpuError::CpuSpecFirstAfterLast)));
}

#[test]
fn overlapping_ranges_merge() {
    assert_eq!(ranges_of(b"0-2,2-4"), vec![(0, 4)]);
}

#[test]
fn touching_ranges_merge() {
    assert_eq!(ranges_of(b"0-2,3-4"), vec![(0, 4)]);
}

#[test]
fn gapped_ranges_stay_apart() {
    assert_eq!(ranges_of(b"0-2,4-5"), vec![(0, 2), (4, 5)]);
}

#[test]
fn overlap_merge_in_either_order() {
    assert_eq!(ranges_of(b"2-5,0-3"), vec![(0, 5)]);
}

#[test]
fn duplicate_index_collapses() {
    assert_eq!(ranges_of(b"3,3"), vec![(3, 3)]);
}

#[test]
fn whitespace_around_tokens_is_trimmed() {
    assert_eq!(ranges_of(b" 0 - 2 , 5 "), vec![(0, 2), (5, 5)]);
}

#[test]
fn whitespace_only_element_fails() {
    assert!(matches!(parse_cpu_list(b" "), Err(ChCpuError::CpuSpecNotPositiveInteger)));
}

#[test]
fn missing_range_end_fails() {
    assert!(matches!(parse_cpu_list(b"3-"), Err(ChCpuError::CpuSpecNotPositiveInteger)));
}

#[test]
fn missing_range_start_fails() {
    assert!(matches!(parse_cpu_list(b"-3"), Err(ChCpuError::CpuSpecNotPositiveInteger)));
}

#[test]
fn plus_sign_fails() {
    assert!(matches!(parse_cpu_list(b"+3"), Err(ChCpuError::CpuSpecNotPositiveInteger)));
}

#[test]
fn second_dash_is_not_a_digit() {
    assert!(matches!(parse_cpu_list(b"1-2-3"), Err(ChCpuError::CpuSpecNotPositiveInteger)));
}

#[test]
fn largest_index_is_accepted() {
    let top = usize::MAX;
    let text = format!("{top}");
    assert_eq!(ranges_of(text.as_bytes()), vec![(top, top)]);
}

#[test]
fn index_overflow_fails() {
    assert!(matches!(
        parse_cpu_list(b"18446744073709551616"),
        Err(ChCpuError::CpuSpecNotPositiveInteger)
    ));
}

#[test]
fn first_element_error_wins() {
    // the empty first element is reported, not the reversed range after it
    assert!(matches!(parse_cpu_list(b",5-2"), Err(ChCpuError::EmptyCpuList)));
}

#[test]
fn attr_value_plain() {
    assert_eq!(parse_attr_i32(b"1"), Ok(1));
    assert_eq!(parse_attr_i32(b"0"), Ok(0));
}

#[test]
fn attr_value_trimmed() {
    assert_eq!(parse_attr_i32(b" 1\n"), Ok(1));
}

#[test]
fn attr_value_signed() {
    assert_eq!(parse_attr_i32(b"-5"), Ok(-5));
    assert_eq!(parse_attr_i32(b"+7"), Ok(7));
    assert_eq!(parse_attr_i32(b"-2147483648"), Ok(i32::MIN));
    assert_eq!(parse_attr_i32(b"2147483647"), Ok(i32::MAX));
}

#[test]
fn attr_value_not_integer() {
    match parse_attr_i32(b" abc\n") {
        Err(ChCpuError::NotInteger(d)) => assert_eq!(d, "abc"),
        other => panic!("expected the not-an-integer error, got {other:?}"),
    }
}

#[test]
fn attr_value_out_of_range() {
    assert!(matches!(parse_attr_i32(b"2147483648"), Err(ChCpuError::NotInteger(_))));
    assert!(matches!(parse_attr_i32(b"-2147483649"), Err(ChCpuError::NotInteger(_))));
    assert!(matches!(parse_attr_i32(b""), Err(ChCpuError::NotInteger(_))));
}
