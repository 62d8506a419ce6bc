use themelios::controller::job::{
    first_pending_indexes, intervals_to_string, merge, parse_indexes_from_string,
    with_ordered_indexes,
};
use themelios::resources::Job;

#[test]
fn merge_unions_interval_lists() {
    let a = vec![(0u32, 2u32), (6, 7)];
    let b = vec![(3u32, 3u32), (10, 11)];
    assert_eq!(merge(&a, &b), vec![(0, 3), (6, 7), (10, 11)]);
}

#[test]
fn merge_is_associative_on_samples() {
    let a = vec![(0u32, 1u32), (8, 9)];
    let b = vec![(2u32, 3u32)];
    let c = vec![(5u32, 6u32), (10, 12)];
    let ab = merge(&a, &b);
    let bc = merge(&b, &c);
    assert_eq!(merge(&ab, &c), merge(&a, &bc));
}

#[test]
fn with_ordered_indexes_adds_singletons() {
    let oi = vec![(1u32, 2u32)];
    let news = vec![0u32, 4, 5];
    assert_eq!(with_ordered_indexes(&oi, &news), vec![(0, 2), (4, 5)]);
}

#[test]
fn parse_indexes_reads_compressed_strings() {
    assert_eq!(parse_indexes_from_string("0-2,4,6-7", 100), vec![(0, 2), (4, 4), (6, 7)]);
    assert_eq!(parse_indexes_from_string("", 100), vec![]);
    // clamp at the completion count, stop at an out-of-range start
    assert_eq!(parse_indexes_from_string("0-5", 3), vec![(0, 2)]);
    assert_eq!(parse_indexes_from_string("0,7,1", 5), vec![(0, 0)]);
    // adjacent tokens are merged into one interval
    assert_eq!(parse_indexes_from_string("0-1,2-3", 10), vec![(0, 3)]);
}

#[test]
fn intervals_print_canonically() {
    assert_eq!(intervals_to_string(&vec![(0u32, 2u32), (4, 4), (6, 7)]), "0-2,4,6-7");
    assert_eq!(intervals_to_string(&vec![]), "");
    let iv = vec![(0u32, 0u32), (2, 5)];
    let s = intervals_to_string(&iv);
    assert_eq!(parse_indexes_from_string(s.as_str(), 100), iv);
}

#[test]
fn first_pending_indexes_picks_lowest_gaps() {
    let job = Job::default();
    let pods = Vec::new();
    let active = Vec::new();
    let succ = vec![(1u32, 2u32)];
    assert_eq!(first_pending_indexes(3, 6, &pods, &active, &job, &succ), vec![0, 3, 4]);
    assert_eq!(first_pending_indexes(0, 6, &pods, &active, &job, &succ), Vec::<u32>::new());
    assert_eq!(first_pending_indexes(10, 3, &pods, &active, &job, &succ), vec![0]);
}
