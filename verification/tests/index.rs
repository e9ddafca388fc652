use ic_btree::index::{IndexError, OrderedIndex};

#[test]
fn new_index_is_empty() {
    let index = OrderedIndex::new();
    assert_eq!(index.length(), 0);
    assert_eq!(index.get("0"), None);
    assert_eq!(index.get(""), None);
}

#[test]
fn allocate_range_files_a_range_from_zero() {
    let mut index = OrderedIndex::new();
    assert_eq!(index.allocate_range(0, 5), Ok(5));
    assert_eq!(index.length(), 5);
    assert_eq!(index.get("3"), Some(3));
    assert_eq!(index.get("7"), None);
}

#[test]
fn grow_by_counts_on_from_the_length() {
    let mut index = OrderedIndex::new();
    assert_eq!(index.grow_by(3), Ok(3));
    assert_eq!(index.get("0"), Some(0));
    assert_eq!(index.get("1"), Some(1));
    assert_eq!(index.get("2"), Some(2));
    assert_eq!(index.get("3"), None);
    assert_eq!(index.grow_by(2), Ok(5));
    assert_eq!(index.get("3"), Some(3));
    assert_eq!(index.get("4"), Some(4));
    assert_eq!(index.get("5"), None);
    assert_eq!(index.length(), 5);
}

#[test]
fn length_never_shrinks() {
    let mut index = OrderedIndex::new();
    let mut before = index.length();
    let calls: [(bool, u64, u64); 7] = [
        (true, 10, 4),
        (false, 0, 3),
        (true, 11, 2),
        (true, 0, 0),
        (false, 0, 0),
        (true, u64::MAX, 1),
        (false, 0, 20),
    ];
    for (explicit, start, count) in calls {
        if explicit {
            let _ = index.allocate_range(start, count);
        } else {
            let _ = index.grow_by(count);
        }
        let after = index.length();
        assert!(after >= before);
        assert!((after - before) as u64 <= count);
        before = after;
    }
}

#[test]
fn allocate_range_twice_is_allocate_range_once() {
    let mut once = OrderedIndex::new();
    let mut twice = OrderedIndex::new();
    assert_eq!(once.allocate_range(7, 30), Ok(37));
    assert_eq!(twice.allocate_range(7, 30), Ok(37));
    assert_eq!(twice.allocate_range(7, 30), Ok(37));
    assert_eq!(once.length(), 30);
    assert_eq!(twice.length(), 30);
    for n in 0u64..50 {
        assert_eq!(once.get(&n.to_string()), twice.get(&n.to_string()));
    }
}

#[test]
fn every_number_filed_is_found_under_its_text() {
    let mut index = OrderedIndex::new();
    assert_eq!(index.allocate_range(95, 11), Ok(106));
    for n in 95u64..106 {
        assert_eq!(index.get(&n.to_string()), Some(n));
    }
    assert_eq!(index.get("100"), Some(100));
    assert_eq!(index.grow_by(4), Ok(15));
    for n in 11u64..15 {
        assert_eq!(index.get(&n.to_string()), Some(n));
    }
}

#[test]
fn keys_never_filed_are_absent() {
    let mut index = OrderedIndex::new();
    assert_eq!(index.allocate_range(0, 20), Ok(20));
    assert_eq!(index.get("20"), None);
    assert_eq!(index.get("100"), None);
    assert_eq!(index.get(""), None);
    assert_eq!(index.get("03"), None);
    assert_eq!(index.get("007"), None);
    assert_eq!(index.get("00"), None);
    assert_eq!(index.get("+3"), None);
    assert_eq!(index.get("-3"), None);
    assert_eq!(index.get(" 3"), None);
    assert_eq!(index.get("3 "), None);
    assert_eq!(index.get("3.0"), None);
    assert_eq!(index.get("three"), None);
    assert_eq!(index.get("1e1"), None);
    assert_eq!(index.get("\u{ff13}"), None);
    assert_eq!(index.get("1\u{0663}"), None);
    assert_eq!(index.get("18446744073709551616"), None);
    assert_eq!(index.get("99999999999999999999"), None);
    assert_eq!(index.get("100000000000000000000000000000000000000000"), None);
}

#[test]
fn allocate_range_returns_start_plus_count() {
    let mut index = OrderedIndex::new();
    assert_eq!(index.allocate_range(10, 7), Ok(17));
    assert_eq!(index.allocate_range(1000, 0), Ok(1000));
    assert_eq!(index.allocate_range(0, 1), Ok(1));
    assert_eq!(index.length(), 8);
}

#[test]
fn grow_by_returns_length_plus_count() {
    let mut index = OrderedIndex::new();
    assert_eq!(index.allocate_range(100, 6), Ok(106));
    assert_eq!(index.grow_by(0), Ok(6));
    assert_eq!(index.grow_by(4), Ok(10));
    assert_eq!(index.length(), 10);
    assert_eq!(index.grow_by(1), Ok(11));
}

#[test]
fn allocate_range_reports_overflow_and_changes_nothing() {
    let mut index = OrderedIndex::new();
    assert_eq!(index.allocate_range(u64::MAX, 1), Err(IndexError::Overflow));
    assert_eq!(index.length(), 0);
    assert_eq!(index.get("18446744073709551615"), None);
    assert_eq!(index.allocate_range(3, 2), Ok(5));
    assert_eq!(index.allocate_range(1, u64::MAX), Err(IndexError::Overflow));
    assert_eq!(index.allocate_range(u64::MAX - 3, 4), Err(IndexError::Overflow));
    assert_eq!(index.length(), 2);
    assert_eq!(index.get("1"), None);
    assert_eq!(index.get("3"), Some(3));
    assert_eq!(index.get("4"), Some(4));
}

#[test]
fn grow_by_reports_overflow_and_changes_nothing() {
    let mut index = OrderedIndex::new();
    assert_eq!(index.grow_by(2), Ok(2));
    assert_eq!(index.grow_by(u64::MAX), Err(IndexError::Overflow));
    assert_eq!(index.grow_by(u64::MAX - 1), Err(IndexError::Overflow));
    assert_eq!(index.length(), 2);
    assert_eq!(index.get("2"), None);
}

#[test]
fn ranges_may_end_at_the_largest_number() {
    let mut index = OrderedIndex::new();
    assert_eq!(index.allocate_range(u64::MAX, 0), Ok(u64::MAX));
    assert_eq!(index.length(), 0);
    assert_eq!(index.allocate_range(u64::MAX - 2, 2), Ok(u64::MAX));
    assert_eq!(index.length(), 2);
    assert_eq!(index.get("18446744073709551613"), Some(u64::MAX - 2));
    assert_eq!(index.get("18446744073709551614"), Some(u64::MAX - 1));
    assert_eq!(index.get("18446744073709551615"), None);
}

#[test]
fn grow_by_starts_at_the_count_not_after_the_largest_number() {
    let mut index = OrderedIndex::new();
    assert_eq!(index.allocate_range(10, 2), Ok(12));
    assert_eq!(index.grow_by(3), Ok(5));
    assert_eq!(index.length(), 5);
    assert_eq!(index.get("2"), Some(2));
    assert_eq!(index.get("3"), Some(3));
    assert_eq!(index.get("4"), Some(4));
    assert_eq!(index.get("10"), Some(10));
    assert_eq!(index.get("11"), Some(11));
    assert_eq!(index.get("12"), None);
    assert_eq!(index.get("5"), None);
}

#[test]
fn grow_by_may_file_again_what_is_held() {
    let mut index = OrderedIndex::new();
    assert_eq!(index.allocate_range(5, 3), Ok(8));
    assert_eq!(index.grow_by(4), Ok(7));
    assert_eq!(index.length(), 5);
    for n in 3u64..8 {
        assert_eq!(index.get(&n.to_string()), Some(n));
    }
    assert_eq!(index.get("2"), None);
    assert_eq!(index.get("8"), None);
}

#[test]
fn overlapping_ranges_count_each_number_once() {
    let mut index = OrderedIndex::new();
    assert_eq!(index.allocate_range(0, 10), Ok(10));
    assert_eq!(index.allocate_range(5, 10), Ok(15));
    assert_eq!(index.length(), 15);
    assert_eq!(index.allocate_range(2, 3), Ok(5));
    assert_eq!(index.length(), 15);
}

#[test]
fn index_error_compares_and_prints() {
    let error = IndexError::Overflow;
    let copy = error;
    assert_eq!(error, copy);
    assert_eq!(format!("{:?}", error), "Overflow");
}

#[test]
fn default_index_is_empty() {
    let mut index = OrderedIndex::default();
    assert_eq!(index.length(), 0);
    assert_eq!(index.get("0"), None);
    assert_eq!(index.grow_by(1), Ok(1));
    assert_eq!(index.get("0"), Some(0));
}
