use rust_bpe::digram::digram_count;
use rust_bpe::rewrite::replace_digram;
use rust_bpe::select::{digram_entries, select, top_n_digrams};
use rust_bpe::sort::sort_by_count;
use rust_bpe::token::{digram_key, key_digram};
use std::collections::HashMap;

fn counted(text: &[u32]) -> HashMap<u64, u32> {
    let mut counts = HashMap::new();
    digram_count(text, &mut counts);
    counts
}

#[test]
fn digram_count_of_an_alternating_sequence() {
    let counts = counted(&[1, 2, 1, 2, 1]);
    assert_eq!(counts.get(&digram_key((1, 2))), Some(&2));
    assert_eq!(counts.get(&digram_key((2, 1))), Some(&2));
    assert_eq!(counts.len(), 2);
}

#[test]
fn digram_count_of_short_sequences() {
    assert!(counted(&[]).is_empty());
    assert!(counted(&[5]).is_empty());
    let two = counted(&[5, 6]);
    assert_eq!(two.len(), 1);
    assert_eq!(two.get(&digram_key((5, 6))), Some(&1));
    assert_eq!(two.get(&digram_key((6, 5))), None);
}

#[test]
fn digram_count_counts_overlapping_pairs() {
    let counts = counted(&[7, 7, 7, 7]);
    assert_eq!(counts.len(), 1);
    assert_eq!(counts.get(&digram_key((7, 7))), Some(&3));
}

#[test]
fn digram_count_adds_to_what_the_table_holds() {
    let mut counts = HashMap::new();
    counts.insert(digram_key((1, 2)), 10);
    counts.insert(digram_key((9, 9)), 4);
    digram_count(&[1, 2, 3, 1, 2], &mut counts);
    assert_eq!(counts.get(&digram_key((1, 2))), Some(&12));
    assert_eq!(counts.get(&digram_key((2, 3))), Some(&1));
    assert_eq!(counts.get(&digram_key((3, 1))), Some(&1));
    assert_eq!(counts.get(&digram_key((9, 9))), Some(&4));
    assert_eq!(counts.len(), 4);
}

#[test]
fn digram_count_keeps_large_identifiers_apart() {
    let counts = counted(&[u32::MAX, 0, u32::MAX, 0, 1]);
    assert_eq!(counts.get(&digram_key((u32::MAX, 0))), Some(&2));
    assert_eq!(counts.get(&digram_key((0, u32::MAX))), Some(&1));
    assert_eq!(counts.get(&digram_key((0, 1))), Some(&1));
    assert_eq!(counts.len(), 3);
}

#[test]
fn digram_entries_lists_each_digram_once() {
    let counts = counted(&[1, 2, 1, 2, 1, 3]);
    let mut entries = digram_entries(&counts);
    entries.sort();
    assert_eq!(entries, vec![((1, 2), 2), ((1, 3), 1), ((2, 1), 2)]);
    assert!(digram_entries(&HashMap::new()).is_empty());
}

#[test]
fn select_ranks_by_descending_count_above_the_minimum() {
    let entries = [((1, 1), 3), ((2, 2), 9), ((3, 3), 1), ((4, 4), 5), ((5, 5), 2)];
    assert_eq!(select(&entries, 10, 0), vec![((2, 2), 9), ((4, 4), 5), ((1, 1), 3), ((5, 5), 2), ((3, 3), 1)]);
    assert_eq!(select(&entries, 10, 2), vec![((2, 2), 9), ((4, 4), 5), ((1, 1), 3)]);
    assert_eq!(select(&entries, 2, 0), vec![((2, 2), 9), ((4, 4), 5)]);
    assert_eq!(select(&entries, 1, 4), vec![((2, 2), 9)]);
    assert_eq!(select(&entries, 0, 0), vec![]);
    assert_eq!(select(&entries, 3, 9), vec![]);
    assert_eq!(select(&[], 3, 0), vec![]);
}

#[test]
fn select_excludes_a_count_equal_to_the_minimum() {
    let entries = [((1, 1), 2), ((2, 2), 3)];
    assert_eq!(select(&entries, 5, 2), vec![((2, 2), 3)]);
    assert_eq!(select(&entries, 5, 3), vec![]);
    assert_eq!(select(&entries, 5, u32::MAX), vec![]);
}

#[test]
fn select_puts_the_later_of_equal_counts_first() {
    let entries = [((1, 1), 4), ((2, 2), 4), ((3, 3), 7), ((4, 4), 4)];
    assert_eq!(
        select(&entries, 10, 0),
        vec![((3, 3), 7), ((4, 4), 4), ((2, 2), 4), ((1, 1), 4)]
    );
    assert_eq!(select(&entries, 2, 0), vec![((3, 3), 7), ((4, 4), 4)]);
    assert_eq!(select(&entries, 3, 0), vec![((3, 3), 7), ((4, 4), 4), ((2, 2), 4)]);
}

#[test]
fn select_agrees_with_sorting() {
    // a longer list against the description: keep what is above the
    // minimum, sort by count, reverse, cut
    let mut entries = Vec::new();
    let mut state: u32 = 12345;
    for i in 0..200u32 {
        state = state.wrapping_mul(1103515245).wrapping_add(12345);
        entries.push(((i, i + 1), (state >> 16) % 17));
    }
    for &(n, min) in &[(0usize, 0u32), (1, 0), (5, 3), (50, 8), (200, 0), (1000, 2), (7, 16)] {
        let mut expected: Vec<((u32, u32), u32)> =
            entries.iter().copied().filter(|&(_, count)| count > min).collect();
        expected.sort_by_key(|&(_, count)| count);
        expected.reverse();
        expected.truncate(n);
        assert_eq!(select(&entries, n, min), expected);
    }
}

#[test]
fn top_n_digrams_is_bounded_and_descending() {
    let counts = counted(&[1, 2, 1, 2, 1, 2, 3, 4, 3, 4, 5, 5, 5]);
    // (1,2): 3, (2,1): 2, (3,4): 2, (5,5): 2, (2,3), (4,3), (4,5): 1
    for n in 0..9usize {
        for min in 0..4u32 {
            let top = top_n_digrams(&counts, n, min);
            assert!(top.len() <= n);
            let eligible = counts.values().filter(|&&count| count > min).count();
            assert_eq!(top.len(), n.min(eligible));
            for window in top.windows(2) {
                assert!(window[0].1 >= window[1].1);
                assert_ne!(window[0].0, window[1].0);
            }
            for (digram, count) in &top {
                assert!(*count > min);
                assert_eq!(counts.get(&digram_key(*digram)), Some(count));
            }
        }
    }
    assert_eq!(top_n_digrams(&counts, 1, 0), vec![((1, 2), 3)]);
    assert_eq!(top_n_digrams(&counts, 5, 2), vec![((1, 2), 3)]);
    let top4 = top_n_digrams(&counts, 4, 1);
    assert_eq!(top4[0], ((1, 2), 3));
    let mut rest: Vec<(u32, u32)> = top4[1..].iter().map(|entry| entry.0).collect();
    rest.sort();
    assert_eq!(rest, vec![(2, 1), (3, 4), (5, 5)]);
}

#[test]
fn top_n_digrams_of_an_empty_table() {
    assert!(top_n_digrams(&HashMap::new(), 3, 0).is_empty());
}

#[test]
fn replace_digram_takes_occurrences_from_the_left() {
    let mut out = Vec::new();
    replace_digram(&[1, 2, 3, 1, 2], (1, 2), 9, &mut out);
    assert_eq!(out, vec![9, 3, 9]);
    let mut out = Vec::new();
    replace_digram(&[7, 7, 7], (7, 7), 8, &mut out);
    assert_eq!(out, vec![8, 7]);
    let mut out = Vec::new();
    replace_digram(&[7, 7, 7, 7], (7, 7), 8, &mut out);
    assert_eq!(out, vec![8, 8]);
    let mut out = Vec::new();
    replace_digram(&[7, 7, 7, 7, 7], (7, 7), 8, &mut out);
    assert_eq!(out, vec![8, 8, 7]);
}

#[test]
fn replace_digram_without_an_occurrence_copies() {
    let mut out = Vec::new();
    replace_digram(&[1, 2, 3], (2, 1), 9, &mut out);
    assert_eq!(out, vec![1, 2, 3]);
    let mut out = Vec::new();
    replace_digram(&[], (2, 1), 9, &mut out);
    assert_eq!(out, Vec::<u32>::new());
    let mut out = Vec::new();
    replace_digram(&[2], (2, 1), 9, &mut out);
    assert_eq!(out, vec![2]);
}

#[test]
fn replace_digram_appends_to_the_buffer() {
    let mut out = vec![100, 101];
    replace_digram(&[1, 2, 1], (1, 2), 9, &mut out);
    assert_eq!(out, vec![100, 101, 9, 1]);
}

#[test]
fn replace_digram_does_not_chain_into_its_own_output() {
    // the new identifier is not read again in the same pass
    let mut out = Vec::new();
    replace_digram(&[9, 1, 2, 2], (9, 2), 9, &mut out);
    assert_eq!(out, vec![9, 1, 2, 2]);
    let mut out = Vec::new();
    replace_digram(&[1, 2, 2], (1, 2), 1, &mut out);
    assert_eq!(out, vec![1, 2]);
}

#[test]
fn key_and_digram_are_inverse() {
    for digram in [(0, 0), (0, 1), (1, 0), (65_535, 65_536), (u32::MAX, 0), (0, u32::MAX)] {
        assert_eq!(key_digram(digram_key(digram)), digram);
    }
}

#[test]
fn sort_by_count_is_ascending_and_stable() {
    assert_eq!(sort_by_count(vec![]), vec![]);
    assert_eq!(sort_by_count(vec![((1, 1), 3)]), vec![((1, 1), 3)]);
    assert_eq!(
        sort_by_count(vec![((1, 1), 3), ((2, 2), 1), ((3, 3), 3), ((4, 4), 0), ((5, 5), 1)]),
        vec![((4, 4), 0), ((2, 2), 1), ((5, 5), 1), ((1, 1), 3), ((3, 3), 3)]
    );
    let mut entries = Vec::new();
    let mut state: u32 = 99;
    for i in 0..1000u32 {
        state = state.wrapping_mul(1664525).wrapping_add(1013904223);
        entries.push(((i, state), (state >> 20) % 9));
    }
    let mut expected = entries.clone();
    expected.sort_by_key(|&(_, count)| count);
    assert_eq!(sort_by_count(entries), expected);
}
