//! Counting a body in chunks.
use plecto::body::{process_body, BodyCount, BodyStep, ReadStatus, CHUNK};

#[test]
fn a_body_is_counted_to_its_end() {
    let body: usize = 64 << 20;
    let mut reads: Vec<ReadStatus> = (0..body / CHUNK)
        .map(|_| ReadStatus::Complete(CHUNK))
        .collect();
    reads.push(ReadStatus::Dropped);
    assert_eq!(process_body(&reads), Some(body as u64));
}

#[test]
fn the_count_does_not_depend_on_the_cut() {
    let one = vec![ReadStatus::Complete(10), ReadStatus::Dropped];
    let many = vec![
        ReadStatus::Complete(3),
        ReadStatus::Complete(0),
        ReadStatus::Complete(7),
        ReadStatus::Dropped,
    ];
    assert_eq!(process_body(&one), Some(10));
    assert_eq!(process_body(&many), Some(10));
}

#[test]
fn nothing_counts_after_the_end() {
    for end in [ReadStatus::Dropped, ReadStatus::Cancelled] {
        let reads = vec![ReadStatus::Complete(5), end, ReadStatus::Complete(9)];
        assert_eq!(process_body(&reads), Some(5));
    }
    assert_eq!(process_body(&Vec::new()), Some(0));
}

#[test]
fn a_count_that_does_not_fit_is_none() {
    let reads = vec![ReadStatus::Complete(usize::MAX), ReadStatus::Complete(1)];
    assert_eq!(process_body(&reads), None);
}

#[test]
fn each_read_says_what_to_do_next() {
    let mut count = BodyCount::new();
    assert_eq!(count.on_read(ReadStatus::Complete(4)), BodyStep::Read);
    assert_eq!(count.on_read(ReadStatus::Complete(2)), BodyStep::Read);
    assert_eq!(count.total, 6);
    assert_eq!(count.on_read(ReadStatus::Dropped), BodyStep::Finish(6));
    assert_eq!(count.on_read(ReadStatus::Cancelled), BodyStep::Finish(6));
}
