use segtree2::bounds::{into_slice_range, open, Limit, Overflow};

#[test]
fn open_reads_each_kind_of_limit() {
    assert_eq!(open(10, Limit::Unbounded, Limit::Unbounded), 0..10);
    assert_eq!(open(10, Limit::Included(2), Limit::Excluded(7)), 2..7);
    assert_eq!(open(10, Limit::Excluded(2), Limit::Included(7)), 3..8);
    assert_eq!(open(0, Limit::Unbounded, Limit::Unbounded), 0..0);
}

#[test]
fn into_slice_range_reads_each_kind_of_limit() {
    assert_eq!(into_slice_range(10, Limit::Unbounded, Limit::Unbounded), Ok(0..10));
    assert_eq!(into_slice_range(10, Limit::Included(2), Limit::Excluded(7)), Ok(2..7));
    assert_eq!(into_slice_range(10, Limit::Excluded(2), Limit::Included(7)), Ok(3..8));
}

#[test]
fn into_slice_range_reports_overflow() {
    assert_eq!(
        into_slice_range(10, Limit::Excluded(usize::MAX), Limit::Unbounded),
        Err(Overflow::Start)
    );
    assert_eq!(
        into_slice_range(10, Limit::Unbounded, Limit::Included(usize::MAX)),
        Err(Overflow::End)
    );
    assert_eq!(
        into_slice_range(10, Limit::Excluded(usize::MAX), Limit::Included(usize::MAX)),
        Err(Overflow::Start)
    );
    assert_eq!(
        into_slice_range(10, Limit::Included(usize::MAX), Limit::Excluded(usize::MAX)),
        Ok(usize::MAX..usize::MAX)
    );
}
