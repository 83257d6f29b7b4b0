use imap_cleanup::identifiers::sort_unique;
use imap_cleanup::ranges::ranges;
use std::ops::RangeInclusive;

fn covered(found: &[RangeInclusive<u32>]) -> Vec<u32> {
    let mut values = Vec::new();
    for range in found {
        let mut v = *range.start();
        loop {
            values.push(v);
            if v == *range.end() {
                break;
            }
            v += 1;
        }
    }
    values
}

#[test]
fn range() {
    assert_eq!(ranges(&[1, 2, 3]), &[1..=3]);
    assert_eq!(ranges(&[1, 2, 3, 7, 8, 9]), &[1..=3, 7..=9]);
    assert_eq!(ranges(&[1, 2, 3, 5, 7, 8, 9]), &[1..=3, 5..=5, 7..=9]);

    assert_eq!(ranges(&[]), &[]);
    assert_eq!(ranges(&[1, 3]), &[1..=1, 3..=3]);
}

#[test]
fn empty_input_gives_no_ranges() {
    let none: Vec<u32> = Vec::new();
    assert!(ranges(&none).is_empty());
}

#[test]
fn single_value_gives_one_range() {
    assert_eq!(ranges(&[0]), vec![0..=0]);
    assert_eq!(ranges(&[42]), vec![42..=42]);
    assert_eq!(ranges(&[u32::MAX]), vec![u32::MAX..=u32::MAX]);
}

#[test]
fn one_run_gives_one_range() {
    let ids: Vec<u32> = (100..=5000).collect();
    assert_eq!(ranges(&ids), vec![100..=5000]);
}

#[test]
fn gap_of_one_value_splits() {
    assert_eq!(ranges(&[4, 6]), vec![4..=4, 6..=6]);
    assert_eq!(ranges(&[4, 5, 7, 8]), vec![4..=5, 7..=8]);
}

#[test]
fn ranges_end_at_the_largest_identifier() {
    assert_eq!(
        ranges(&[u32::MAX - 2, u32::MAX - 1, u32::MAX]),
        vec![u32::MAX - 2..=u32::MAX]
    );
    assert_eq!(ranges(&[0, u32::MAX]), vec![0..=0, u32::MAX..=u32::MAX]);
}

#[test]
fn ranges_are_ready_to_iterate() {
    let found = ranges(&[7, 8, 9]);
    assert_eq!(found.len(), 1);
    assert!(found[0].contains(&7));
    assert!(found[0].contains(&9));
    assert!(!found[0].is_empty());
    assert_eq!(found[0].clone().count(), 3);
}

#[test]
fn ranges_partition_the_input() {
    let ids = [2, 3, 4, 9, 11, 12, 20, 21, 22, 23, 40];
    let found = ranges(&ids);
    assert_eq!(covered(&found), ids.to_vec());
    assert_eq!(found.iter().map(|r| r.end() - r.start() + 1).sum::<u32>(), 11);
}

#[test]
fn ranges_are_apart_and_ascending() {
    let ids = [2, 3, 4, 9, 11, 12, 20, 21, 22, 23, 40];
    let found = ranges(&ids);
    assert_eq!(found, vec![2..=4, 9..=9, 11..=12, 20..=23, 40..=40]);
    for pair in found.windows(2) {
        assert!(pair[0].start() <= pair[0].end());
        assert!(*pair[0].end() as u64 + 1 < *pair[1].start() as u64);
    }
}

#[test]
fn unsorted_input_starts_a_range_at_every_break() {
    assert_eq!(ranges(&[3, 1, 2]), vec![3..=3, 1..=2]);
    assert_eq!(ranges(&[5, 4, 3]), vec![5..=5, 4..=4, 3..=3]);
    assert_eq!(ranges(&[u32::MAX, 0]), vec![u32::MAX..=u32::MAX, 0..=0]);
}

#[test]
fn repeated_value_starts_a_range() {
    assert_eq!(ranges(&[1, 1, 2]), vec![1..=1, 1..=2]);
    assert_eq!(ranges(&[7, 7]), vec![7..=7, 7..=7]);
}

#[test]
fn sort_unique_sorts() {
    assert_eq!(sort_unique(vec![3, 1, 2]), vec![1, 2, 3]);
    assert_eq!(sort_unique(vec![9, 7, 8, 1, 3, 2]), vec![1, 2, 3, 7, 8, 9]);
    assert_eq!(sort_unique(vec![u32::MAX, 0, 5]), vec![0, 5, u32::MAX]);
}

#[test]
fn sort_unique_drops_repetitions() {
    assert_eq!(sort_unique(vec![2, 2, 1, 2, 1]), vec![1, 2]);
    assert_eq!(sort_unique(vec![4, 4, 4]), vec![4]);
}

#[test]
fn sort_unique_of_nothing_is_nothing() {
    assert_eq!(sort_unique(Vec::new()), Vec::<u32>::new());
}

#[test]
fn sort_unique_keeps_what_is_ascending() {
    assert_eq!(sort_unique(vec![1, 2, 3, 10]), vec![1, 2, 3, 10]);
}

#[test]
fn sort_unique_ignores_order_and_repetition() {
    let one = sort_unique(vec![5, 1, 9, 1, 7]);
    let other = sort_unique(vec![9, 7, 7, 5, 1]);
    assert_eq!(one, other);
    assert_eq!(one, vec![1, 5, 7, 9]);
}

#[test]
fn sorted_search_result_compresses_to_the_fewest_ranges() {
    let found = sort_unique(vec![12, 3, 11, 1, 2, 10, 3]);
    assert_eq!(ranges(&found), vec![1..=3, 10..=12]);
}
