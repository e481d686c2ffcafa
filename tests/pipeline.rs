use std::collections::HashSet;
use utillib::{build_buckets, edit_distance_le_one, find_near_duplicates, near_duplicate_pairs};

fn levenshtein(a: &[u32], b: &[u32]) -> usize {
    let mut prev: Vec<usize> = (0..=b.len()).collect();
    for i in 1..=a.len() {
        let mut cur = vec![i; b.len() + 1];
        for j in 1..=b.len() {
            let cost = if a[i - 1] == b[j - 1] { 0 } else { 1 };
            cur[j] = (prev[j] + 1).min(cur[j - 1] + 1).min(prev[j - 1] + cost);
        }
        prev = cur;
    }
    prev[b.len()]
}

fn all_sequences(alphabet: u32, max_len: usize) -> Vec<Vec<u32>> {
    let mut out = vec![Vec::new()];
    let mut layer = vec![Vec::new()];
    for _ in 0..max_len {
        let mut next = Vec::new();
        for s in layer.iter() {
            for c in 0..alphabet {
                let mut t = s.clone();
                t.push(c);
                next.push(t);
            }
        }
        out.extend(next.iter().cloned());
        layer = next;
    }
    out
}

#[test]
fn verifier_matches_levenshtein_binary_up_to_six() {
    let seqs = all_sequences(2, 6);
    for a in seqs.iter() {
        for b in seqs.iter() {
            assert_eq!(levenshtein(a, b) <= 1, edit_distance_le_one(a, b), "{:?} {:?}", a, b);
        }
    }
}

#[test]
fn verifier_matches_levenshtein_ternary_up_to_four() {
    let seqs = all_sequences(3, 4);
    for a in seqs.iter() {
        for b in seqs.iter() {
            assert_eq!(levenshtein(a, b) <= 1, edit_distance_le_one(a, b), "{:?} {:?}", a, b);
        }
    }
}

#[test]
fn verifier_is_symmetric() {
    let seqs = all_sequences(3, 4);
    for a in seqs.iter() {
        for b in seqs.iter() {
            assert_eq!(edit_distance_le_one(a, b), edit_distance_le_one(b, a));
        }
    }
}

fn table() -> Vec<(u32, Vec<u32>)> {
    vec![
        (10, vec![1, 2, 3, 4, 5, 6, 7, 8, 9]),
        (20, vec![1, 2, 3, 4, 5, 6, 0, 8, 9]),
        (30, vec![1, 2, 3, 4, 5, 6, 7, 8, 9, 9]),
        (40, vec![1, 2]),
        (50, vec![9, 9, 9, 9, 9, 9]),
        (5, vec![1, 2, 3, 4, 5, 6, 7, 8, 9]),
    ]
}

#[test]
fn pairs_are_found_once_and_ordered() {
    let (pairs, n_buckets) = find_near_duplicates(&table());
    let got: HashSet<(u32, u32)> = pairs.iter().copied().collect();
    assert_eq!(pairs.len(), got.len());
    let expected: HashSet<(u32, u32)> =
        [(10, 20), (10, 30), (5, 10), (5, 20), (5, 30)].iter().copied().collect();
    assert_eq!(expected, got);
    for &(a, b) in pairs.iter() {
        assert!(a < b);
        assert!(!got.contains(&(b, a)));
    }
    // keys: the shared head window, the tails of 10/5, 20 and 30, and 50's window
    assert_eq!(5, n_buckets);
}

#[test]
fn short_sentences_are_not_bucketed() {
    let (keys, members) = build_buckets(&vec![(1, vec![1, 2, 3, 4]), (2, vec![])]);
    assert!(keys.is_empty());
    assert!(members.is_empty());
}

#[test]
fn sentence_with_equal_windows_joins_its_bucket_twice() {
    let (keys, members) = build_buckets(&vec![(1, vec![4, 4, 4, 4, 4]), (2, vec![3, 3, 3, 3, 3, 3])]);
    assert_eq!(2, keys.len());
    assert_eq!(vec![vec![0, 0], vec![1, 1]], members);
}

#[test]
fn a_sentence_is_never_paired_with_itself() {
    let sentences = vec![(7, vec![1, 2, 3, 4, 5]), (8, vec![5, 5, 5, 5, 5, 5, 5])];
    let buckets = vec![vec![0, 0, 0], vec![1, 1]];
    assert!(near_duplicate_pairs(&sentences, &buckets).is_empty());
}

#[test]
fn pairs_in_two_buckets_are_reported_once() {
    let sentences = vec![(9, vec![1, 2, 3]), (4, vec![1, 2, 3, 4])];
    let buckets = vec![vec![0, 1], vec![1, 0], vec![0, 1, 0, 1]];
    assert_eq!(vec![(4, 9)], near_duplicate_pairs(&sentences, &buckets));
}
