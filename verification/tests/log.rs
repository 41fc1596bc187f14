use redline::git::log::{page_step, relative_time, relative_time_from, PageStep};

#[test]
fn relative_time_buckets() {
    let now = 1_000_000;
    assert_eq!(relative_time_from(now - 5, now), "5s");
    assert_eq!(relative_time_from(now - 3600, now), "1h");
    assert_eq!(relative_time_from(now - 86_400 * 2, now), "2d");
    assert_eq!(relative_time_from(now - 86_400 * 60, now), "2mo");
}

#[test]
fn relative_time_bucket_edges() {
    let now = 10_000_000_000;
    assert_eq!(relative_time_from(now, now), "0s");
    assert_eq!(relative_time_from(now - 59, now), "59s");
    assert_eq!(relative_time_from(now - 60, now), "1m");
    assert_eq!(relative_time_from(now - 3599, now), "59m");
    assert_eq!(relative_time_from(now - 86_399, now), "23h");
    assert_eq!(relative_time_from(now - 86_400 * 29, now), "29d");
    assert_eq!(relative_time_from(now - 86_400 * 365, now), "12mo");
    // A commit in the future reads as negative seconds.
    assert_eq!(relative_time_from(now + 7, now), "-7s");
}

#[test]
fn relative_time_of_now_is_seconds() {
    let s = relative_time(i64::MAX);
    assert!(s.starts_with('-') && s.ends_with('s'), "{s}");
}

#[test]
fn page_step_skips_takes_then_stops() {
    let mut listed = Vec::new();
    for i in 0..10usize {
        match page_step(i, 3, 4, listed.len()) {
            PageStep::Skip => continue,
            PageStep::Stop => break,
            PageStep::Take => listed.push(i),
        }
    }
    assert_eq!(listed, vec![3, 4, 5, 6]);
    assert_eq!(page_step(0, 0, 0, 0), PageStep::Stop);
    assert_eq!(page_step(2, 5, 0, 0), PageStep::Skip);
}

fn page(total: usize, offset: usize, limit: usize) -> Vec<usize> {
    let mut listed = Vec::new();
    for i in 0..total {
        match page_step(i, offset, limit, listed.len()) {
            PageStep::Skip => continue,
            PageStep::Stop => break,
            PageStep::Take => listed.push(i),
        }
    }
    listed
}

#[test]
fn a_page_holds_min_of_limit_and_what_is_left() {
    assert_eq!(page(30, 0, 10), (0..10).collect::<Vec<_>>());
    assert_eq!(page(30, 20, 5), (20..25).collect::<Vec<_>>());
    assert_eq!(page(30, 28, 10), vec![28, 29]);
    assert!(page(30, 30, 10).is_empty());
    assert!(page(30, 40, 10).is_empty());
    assert!(page(30, 5, 0).is_empty());
}
