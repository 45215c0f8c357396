use raytrace::rows::{reassemble_rows, RowCollector, RowError};

#[test]
fn rows_out_of_order_come_back_sorted() {
    let parts = vec![(2usize, "c"), (0, "a"), (3, "d"), (1, "b")];
    assert_eq!(reassemble_rows(parts, 4), Some(vec!["a", "b", "c", "d"]));
}

#[test]
fn arrival_order_does_not_matter() {
    let first = reassemble_rows(vec![(0usize, 10u32), (1, 11), (2, 12)], 3);
    let second = reassemble_rows(vec![(2usize, 12u32), (0, 10), (1, 11)], 3);
    let third = reassemble_rows(vec![(1usize, 11u32), (2, 12), (0, 10)], 3);
    assert_eq!(first, Some(vec![10, 11, 12]));
    assert_eq!(first, second);
    assert_eq!(second, third);
}

#[test]
fn no_rows_for_empty_image() {
    assert_eq!(reassemble_rows(Vec::<(usize, u8)>::new(), 0), Some(Vec::new()));
}

#[test]
fn duplicate_missing_or_stray_rows_are_refused() {
    assert_eq!(reassemble_rows(vec![(0usize, 1u8), (0, 2)], 2), None);
    assert_eq!(reassemble_rows(vec![(0usize, 1u8)], 2), None);
    assert_eq!(reassemble_rows(vec![(0usize, 1u8), (2, 2)], 2), None);
    assert_eq!(reassemble_rows(vec![(0usize, 1u8), (1, 2), (1, 3)], 2), None);
}

#[test]
fn collector_takes_rows_in_any_order() {
    let mut c: RowCollector<String> = RowCollector::new(3);
    assert_eq!(c.height(), 3);
    assert_eq!(c.accept(2, "bottom".to_string()), Ok(()));
    assert!(!c.is_complete());
    assert_eq!(c.accept(0, "top".to_string()), Ok(()));
    assert_eq!(c.accept(1, "middle".to_string()), Ok(()));
    assert!(c.is_complete());
    assert_eq!(c.into_rows(), Ok(vec!["top".to_string(), "middle".to_string(), "bottom".to_string()]));
}

#[test]
fn collector_reports_each_error() {
    let mut c: RowCollector<u8> = RowCollector::new(2);
    assert_eq!(c.accept(2, 9), Err(RowError::OutOfRange));
    assert_eq!(c.accept(1, 5), Ok(()));
    assert_eq!(c.accept(1, 6), Err(RowError::Duplicate));
    assert_eq!(c.into_rows(), Err(RowError::Missing));
}

#[test]
fn rejected_row_leaves_the_first_one_in_place() {
    let mut c: RowCollector<u8> = RowCollector::new(1);
    assert_eq!(c.accept(0, 5), Ok(()));
    assert_eq!(c.accept(0, 6), Err(RowError::Duplicate));
    assert_eq!(c.into_rows(), Ok(vec![5]));
}
