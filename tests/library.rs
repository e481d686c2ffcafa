use std::collections::HashMap;
use utillib::{
    different_len_edit_dist, edit_distance_le_one, fnv_hash, fnv_hash_pair, fnv_hash_slice,
    from_vec, hash_pair, hash_slice, identical, jaccard_counts, map_word_to_id,
    map_words_to_vec_u32, process_line, same_len_edit_dist,
};

#[test]
fn test_from_vec() {
    assert_eq!(3, from_vec(&vec![1, 1, 1, 2, 2, 2, 3, 3, 3]).len());
}

#[test]
fn test_jaccard_counts() {
    let doc1 = vec![2, 3, 4, 2];
    let doc2 = vec![1, 5, 4, 2];
    let doc3 = vec![1];
    assert_eq!((2, 5), jaccard_counts(&doc1, &doc2));
    assert_eq!((3, 3), jaccard_counts(&doc1, &doc1));
    assert_eq!((0, 4), jaccard_counts(&doc1, &doc3));
    assert_eq!((0, 0), jaccard_counts(&vec![], &vec![]));
}

#[test]
fn test_process_line() {
    let s = "42 is the answer";
    assert_eq!(
        (42, 3, vec!["is".to_owned(), "the".to_owned(), "answer".to_owned()]),
        process_line(&s)
    );
}

#[test]
fn process_line_collapses_white_space() {
    let s = "  +7\tone  two\u{3000}three \n";
    assert_eq!(
        (7, 3, vec!["one".to_owned(), "two".to_owned(), "three".to_owned()]),
        process_line(&s)
    );
}

#[test]
fn process_line_with_identifier_only() {
    assert_eq!((4294967295, 0, Vec::<String>::new()), process_line("4294967295"));
}

#[test]
fn test_map_word_id() {
    let mut map = HashMap::<String, u32>::new();
    map.insert("Doctor".to_owned(), 0);
    map.insert("Who".to_owned(), 1);
    map.insert("TARDIS".to_owned(), 2);
    let next_word_id = 2;

    let doctor = "Doctor".to_owned();
    let clara = "Clara".to_owned();
    assert_eq!((0, 2), map_word_to_id(doctor, next_word_id, &mut map));
    assert_eq!((3, 3), map_word_to_id(clara, next_word_id, &mut map));
    assert!(map.contains_key(&"Clara".to_owned()));
}

#[test]
fn map_word_to_id_on_empty_map() {
    let mut map = HashMap::<String, u32>::new();
    assert_eq!((0, 0), map_word_to_id("first".to_owned(), 9, &mut map));
    assert_eq!(Some(&0), map.get("first"));
    assert_eq!(1, map.len());
}

#[test]
fn test_map_words_to_vec_u32() {
    let words = vec!["I'm".to_owned(), "the".to_owned(), "doctor".to_owned()];
    let next_word_id = 0;
    let mut map = HashMap::new();
    let (id_vec, next_id) = map_words_to_vec_u32(words, next_word_id, &mut map);
    assert_eq!(2, next_id);
    assert_eq!(vec![0, 1, 2], id_vec);
    assert_eq!(1, *map.get(&"the".to_owned()).unwrap());
}

#[test]
fn encoding_repeated_words_reuses_ids() {
    let words: Vec<String> = ["a", "b", "a", "c", "b", "a"].iter().map(|w| w.to_string()).collect();
    let mut map = HashMap::new();
    let (ids, next_id) = map_words_to_vec_u32(words.clone(), 0, &mut map);
    assert_eq!(vec![0, 1, 0, 2, 1, 0], ids);
    assert_eq!(2, next_id);
    for i in 0..words.len() {
        for j in 0..words.len() {
            assert_eq!(words[i] == words[j], ids[i] == ids[j]);
        }
    }
    let distinct_ids: std::collections::HashSet<u32> = ids.iter().copied().collect();
    let distinct_words: std::collections::HashSet<&String> = words.iter().collect();
    assert_eq!(distinct_words.len(), distinct_ids.len());
    let (again, next_again) = map_words_to_vec_u32(vec!["b".to_owned(), "d".to_owned()], next_id, &mut map);
    assert_eq!(vec![1, 3], again);
    assert_eq!(3, next_again);
}

#[test]
fn test_hash_slice() {
    let v = vec![1000, 212234, 3000, 4000000, 5, 6, 7, 8, 9, 10, 11, 12, 13, 14, 15, 16, 17, 18, 19, 1234567];
    assert!(1 != hash_slice(&v[1..5]));
}

#[test]
fn hash_slice_exact_values() {
    assert_eq!(1779033703, hash_slice(&[]));
    assert_eq!(1318796657, hash_slice(&[0]));
    assert_eq!(569551259, hash_slice(&[11, 12, 13, 14, 15]));
    assert_eq!(925819249, hash_slice(&[3000000000]));
}

#[test]
fn fnv_exact_values() {
    assert_eq!(4218009092, fnv_hash(1));
    assert_eq!(1268118805, fnv_hash(0));
    assert_eq!(2166136261, fnv_hash_slice(&[]));
    assert_eq!(3699944811, fnv_hash_slice(&[11, 12, 13, 14, 15]));
}

#[test]
fn hashes_ignore_window_order() {
    let w = [7, 1, 7, 400000, 3];
    let perms: [[u32; 5]; 4] = [
        [1, 3, 7, 7, 400000],
        [400000, 7, 3, 1, 7],
        [3, 7, 400000, 7, 1],
        [7, 7, 1, 3, 400000],
    ];
    for p in perms.iter() {
        assert_eq!(hash_slice(&w), hash_slice(p));
        assert_eq!(fnv_hash_slice(&w), fnv_hash_slice(p));
    }
}

#[test]
fn test_edit_distance_le_one() {
    let v1 = vec![0, 0, 0, 1, 0, 0];
    let v2 = vec![0, 0, 0, 1, 0, 1];
    let v3 = vec![0, 0, 0, 1, 0, 1, 2];
    assert!(!edit_distance_le_one(&v1, &Vec::new()));
    assert!(edit_distance_le_one(&v1, &v2));
    assert_eq!(6, v1.len());
    assert!(!edit_distance_le_one(&v1, &v3));
    assert_eq!(6, v1.len());
    assert!(edit_distance_le_one(&v2, &v3));
    assert_eq!(6, v2.len());
    assert!(!edit_distance_le_one(&v3, &v1));
    assert_eq!(6, v2.len());
}

#[test]
fn edit_distance_scenarios() {
    assert!(edit_distance_le_one(&vec![0, 0, 0, 1, 0, 0], &vec![0, 0, 0, 1, 0, 1]));
    assert!(!edit_distance_le_one(&vec![0, 0, 0, 1, 0, 0], &vec![0, 0, 0, 1, 0, 1, 2]));
    assert!(edit_distance_le_one(&vec![1, 2, 3, 4, 5], &vec![1, 2, 3, 4, 5, 5]));
    assert!(edit_distance_le_one(&vec![9], &Vec::new()));
    assert!(edit_distance_le_one(&Vec::new(), &Vec::new()));
    assert!(!edit_distance_le_one(&Vec::new(), &vec![1, 2]));
}

#[test]
fn test_different_len_edit_dist() {
    let v1 = vec![1, 2, 3, 4, 5, 5];
    let v2 = vec![1, 2, 3, 4, 5];
    let v3 = vec![1, 2, 3, 4];
    let v4 = vec![1, 1, 2, 3, 4];
    let v5 = vec![7, 2, 3, 4, 5, 5];
    let _ = v5;

    assert!(different_len_edit_dist(&v1, &v2));
    assert!(different_len_edit_dist(&v2, &v3));
    assert!(different_len_edit_dist(&v4, &v3));
    assert!(!different_len_edit_dist(&v1, &v4));
    assert!(!different_len_edit_dist(&v1, &v3));
}

#[test]
fn test_same_len_edit_dist() {
    let v1 = vec![1, 2, 3, 4, 5];
    let v2 = vec![1, 2, 3, 4, 2];
    let v3 = vec![2, 2, 3, 4, 2];
    assert!(same_len_edit_dist(&v1, &v2));
    assert!(!same_len_edit_dist(&v1, &v3));
    assert!(same_len_edit_dist(&v2, &v3));
}

#[test]
fn test_identical() {
    let v1 = vec![1, 2, 3, 4, 5];
    let v2 = vec![1, 2, 3, 4, 2];
    assert!(identical(&v1, &v1));
    assert!(!identical(&v1, &v2));
    assert!(identical(&vec![], &vec![]));
}

#[test]
fn test_hash_pair() {
    let v = vec![1, 2, 3, 4, 5, 11, 12, 13, 14, 15];
    let v_init = vec![1, 2, 3, 4, 5];
    let v_tail = vec![11, 12, 13, 14, 15];
    let hash_v = hash_pair(&v);
    let hash_init = hash_slice(&v_init[0..5]);
    let hash_tail = hash_slice(&v_tail[0..5]);

    assert_eq!((hash_init, hash_tail), hash_v);
}

#[test]
fn hash_pair_of_exactly_one_window() {
    let v = vec![11, 12, 13, 14, 15];
    assert_eq!((569551259, 569551259), hash_pair(&v));
    assert_eq!((3699944811, 3699944811), fnv_hash_pair(&v));
}

#[test]
fn test_fnv_hash() {
    assert!(1 != fnv_hash(1));
}

#[test]
fn test_fnv_hash_slice() {
    let v = vec![1, 2, 3, 4, 5, 11, 12, 13, 14, 15];
    let v_init = vec![1, 2, 3, 4, 5];
    let v_tail = vec![11, 12, 13, 14, 15];
    let (hash_init, hash_tail) = fnv_hash_pair(&v);
    assert_eq!(fnv_hash_slice(&v[5..10]), fnv_hash_slice(&v_tail[0..5]));
    assert_eq!(fnv_hash_slice(&v[0..5]), fnv_hash_slice(&v_init[0..5]));
    assert_eq!(fnv_hash_slice(&v_init[0..5]), hash_init);
    assert_eq!(fnv_hash_slice(&v_tail[0..5]), hash_tail);
}
