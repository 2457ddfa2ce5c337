use pdfer::ranges::RangeError;
use pdfer::ranges::is_contiguous;
use pdfer::ranges::parse_page_ranges;

#[test]
fn mixed_spec_with_open_range() {
    let r = parse_page_ranges(b"1,3,5-7,10-", 12);
    assert_eq!(r.unwrap(), vec![1, 3, 5, 6, 7, 10, 11, 12]);
}

#[test]
fn backwards_range_is_rejected() {
    let r = parse_page_ranges(b"5-2", 10);
    assert!(matches!(r, Err(RangeError::BackwardsRange { .. })));
}

#[test]
fn no_pages_is_rejected() {
    let r = parse_page_ranges(b"", 0);
    assert!(matches!(r, Err(RangeError::NoPages)));
}

#[test]
fn empty_spec_with_pages_selects_nothing() {
    let r = parse_page_ranges(b"", 4);
    assert_eq!(r.unwrap(), Vec::<usize>::new());
}

#[test]
fn whitespace_is_ignored() {
    let r = parse_page_ranges(b" 2 ,  4 - 5 ", 6);
    assert_eq!(r.unwrap(), vec![2, 4, 5]);
}

#[test]
fn stray_commas_are_skipped() {
    let r = parse_page_ranges(b",,3,,", 5);
    assert_eq!(r.unwrap(), vec![3]);
}

#[test]
fn overlapping_ranges_are_deduplicated_and_sorted() {
    let r = parse_page_ranges(b"2-4,1-3", 6);
    assert_eq!(r.unwrap(), vec![1, 2, 3, 4]);
}

#[test]
fn non_numeric_token_is_rejected() {
    let r = parse_page_ranges(b"a", 5);
    assert!(matches!(r, Err(RangeError::InvalidNumber { .. })));
}

#[test]
fn double_dash_is_rejected() {
    let r = parse_page_ranges(b"1-2-3", 9);
    assert!(matches!(r, Err(RangeError::InvalidRangeSyntax { .. })));
}

#[test]
fn range_without_start_is_rejected() {
    let r = parse_page_ranges(b"-5", 9);
    assert!(matches!(r, Err(RangeError::EmptyRangeStart { .. })));
}

#[test]
fn page_zero_is_rejected() {
    let r = parse_page_ranges(b"0", 5);
    assert!(matches!(r, Err(RangeError::PageOutOfRange { total: 5, .. })));
}

#[test]
fn bare_page_beyond_end_is_rejected() {
    let r = parse_page_ranges(b"7", 5);
    assert!(matches!(r, Err(RangeError::PageOutOfRange { total: 5, .. })));
}

#[test]
fn open_range_beyond_end_is_rejected() {
    let r = parse_page_ranges(b"9-", 5);
    assert!(matches!(r, Err(RangeError::StartBeyondEnd { start: 9, total: 5 })));
}

#[test]
fn range_end_beyond_end_is_rejected() {
    let r = parse_page_ranges(b"2-9", 5);
    assert!(matches!(r, Err(RangeError::EndBeyondEnd { end: 9, total: 5 })));
}

#[test]
fn oversized_number_is_rejected() {
    let r = parse_page_ranges(b"99999999999999999999999999999", 5);
    assert!(matches!(r, Err(RangeError::InvalidNumber { .. })));
}

#[test]
fn first_failing_token_is_reported() {
    let r = parse_page_ranges(b"2,x,5-1", 5);
    assert!(matches!(r, Err(RangeError::InvalidNumber { .. })));
}

#[test]
fn contiguity_checks() {
    assert!(is_contiguous(&vec![]));
    assert!(is_contiguous(&vec![3]));
    assert!(is_contiguous(&vec![1, 2, 3]));
    assert!(!is_contiguous(&vec![1, 3]));
    assert!(!is_contiguous(&vec![2, 1]));
}
