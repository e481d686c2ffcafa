use crate::bucket::{bucket_list, build_buckets, lemma_bucket_list_in_range, signature_keys};
use crate::edit::{edit_distance_le_one, within_one_edit};
use std::collections::HashSet;
use vstd::prelude::*;

verus! {

broadcast use vstd::std_specs::hash::group_hash_axioms;

/// The two identifiers, smaller first.
pub open spec fn canonical(a: u32, b: u32) -> (u32, u32) {
    if a < b {
        (a, b)
    } else {
        (b, a)
    }
}

/// The composite key under which a canonical pair is remembered.
pub open spec fn pair_key(p: (u32, u32)) -> int {
    p.0 as int * 0x1_0000_0000 + p.1 as int
}

/// Every member of every bucket names a sentence of the table.
pub open spec fn members_in_table(sentences: Seq<(u32, Vec<u32>)>, buckets: Seq<Vec<usize>>) -> bool {
    forall|b: int, i: int|
        0 <= b < buckets.len() && 0 <= i < buckets[b]@.len() ==> #[trigger] buckets[b]@[i]
            < sentences.len()
}

/// Positions `i < j` of bucket `b` hold two sentences with different
/// identifiers whose words are within one edit of each other.
pub open spec fn confirmed(
    sentences: Seq<(u32, Vec<u32>)>,
    buckets: Seq<Vec<usize>>,
    b: int,
    i: int,
    j: int,
) -> bool {
    &&& 0 <= b < buckets.len()
    &&& 0 <= i < j < buckets[b]@.len()
    &&& sentences[buckets[b]@[i] as int].0 != sentences[buckets[b]@[j] as int].0
    &&& within_one_edit(
        sentences[buckets[b]@[i] as int].1@,
        sentences[buckets[b]@[j] as int].1@,
    )
}

/// The canonical pair of identifiers at positions `i` and `j` of bucket `b`.
pub open spec fn pair_at(
    sentences: Seq<(u32, Vec<u32>)>,
    buckets: Seq<Vec<usize>>,
    b: int,
    i: int,
    j: int,
) -> (u32, u32) {
    canonical(sentences[buckets[b]@[i] as int].0, sentences[buckets[b]@[j] as int].0)
}

/// `p` is the canonical pair of two positions of one bucket that are
/// confirmed near-duplicates.
pub open spec fn found_in_buckets(
    sentences: Seq<(u32, Vec<u32>)>,
    buckets: Seq<Vec<usize>>,
    p: (u32, u32),
) -> bool {
    exists|b: int, i: int, j: int| #[trigger]
        confirmed(sentences, buckets, b, i, j) && p == pair_at(sentences, buckets, b, i, j)
}

/// `(b2, i2, j2)` comes before `(b, i, j)` in the order of the scan.
pub open spec fn scanned_before(b2: int, i2: int, j2: int, b: int, i: int, j: int) -> bool {
    b2 < b || (b2 == b && (i2 < i || (i2 == i && j2 < j)))
}

proof fn lemma_pair_key_injective(p: (u32, u32), q: (u32, u32))
    requires
        pair_key(p) == pair_key(q),
    ensures
        p == q,
{
    let m: int = 0x1_0000_0000;
    let (a, b, c, d) = (p.0 as int, p.1 as int, q.0 as int, q.1 as int);
    if a < c {
        assert(a * m + m <= c * m) by (nonlinear_arith)
            requires
                a < c,
                m > 0,
        ;
    } else if c < a {
        assert(c * m + m <= a * m) by (nonlinear_arith)
            requires
                c < a,
                m > 0,
        ;
    }
}

fn key_of(p: (u32, u32)) -> (r: u64)
    ensures
        r as int == pair_key(p),
{
    assert(p.0 as int * 0x1_0000_0000 + p.1 as int <= u64::MAX) by (nonlinear_arith)
        requires
            p.0 <= u32::MAX,
            p.1 <= u32::MAX,
    ;
    p.0 as u64 * 0x1_0000_0000 + p.1 as u64
}

/// Compares every two members of each bucket and collects the pairs of
/// identifiers whose sentences are within one edit of each other, each pair
/// once and with the smaller identifier first.
pub fn near_duplicate_pairs(sentences: &Vec<(u32, Vec<u32>)>, buckets: &Vec<Vec<usize>>) -> (r: Vec<
    (u32, u32),
>)
    requires
        members_in_table(sentences@, buckets@),
    ensures
        forall|k: int| 0 <= k < r@.len() ==> (#[trigger] r@[k]).0 < r@[k].1,
        forall|k: int| 0 <= k < r@.len() ==> (#[trigger] r@[k]).0 != r@[k].1,
        forall|k: int, l: int|
            0 <= k < r@.len() && 0 <= l < r@.len() ==> !((#[trigger] r@[k]).0 == (#[trigger] r@[l]).1
                && r@[k].1 == r@[l].0),
        r@.no_duplicates(),
        forall|k: int| 0 <= k < r@.len() ==> found_in_buckets(sentences@, buckets@, #[trigger] r@[k]),
        forall|b: int, i: int, j: int| #[trigger]
            confirmed(sentences@, buckets@, b, i, j) ==> r@.contains(
                pair_at(sentences@, buckets@, b, i, j),
            ),
{
    let ghost ss = sentences@;
    let ghost bs = buckets@;
    let mut pairs: Vec<(u32, u32)> = Vec::new();
    let mut seen: HashSet<u64> = HashSet::new();
    let mut b: usize = 0;
    while b < buckets.len()
        invariant
            ss == sentences@,
            bs == buckets@,
            members_in_table(ss, bs),
            b <= bs.len(),
            forall|x: u64| #[trigger]
                seen@.contains(x) <==> exists|k: int|
                    0 <= k < pairs@.len() && pair_key(#[trigger] pairs@[k]) == x as int,
            forall|k: int| 0 <= k < pairs@.len() ==> (#[trigger] pairs@[k]).0 < pairs@[k].1,
            pairs@.no_duplicates(),
            forall|k: int| 0 <= k < pairs@.len() ==> found_in_buckets(ss, bs, #[trigger] pairs@[k]),
            forall|b2: int, i2: int, j2: int|
                #[trigger] confirmed(ss, bs, b2, i2, j2) && b2 < b ==> pairs@.contains(
                    pair_at(ss, bs, b2, i2, j2),
                ),
        decreases bs.len() - b,
    {
        let members = &buckets[b];
        let n = members.len();
        let mut i: usize = 0;
        while i < n
            invariant
                ss == sentences@,
                bs == buckets@,
                members_in_table(ss, bs),
                b < bs.len(),
                members@ == bs[b as int]@,
                n == members@.len(),
                i <= n,
                forall|x: u64| #[trigger]
                    seen@.contains(x) <==> exists|k: int|
                        0 <= k < pairs@.len() && pair_key(#[trigger] pairs@[k]) == x as int,
                forall|k: int| 0 <= k < pairs@.len() ==> (#[trigger] pairs@[k]).0 < pairs@[k].1,
                pairs@.no_duplicates(),
                forall|k: int| 0 <= k < pairs@.len() ==> found_in_buckets(ss, bs, #[trigger] pairs@[k]),
                forall|b2: int, i2: int, j2: int|
                    #[trigger] confirmed(ss, bs, b2, i2, j2) && scanned_before(
                        b2,
                        i2,
                        j2,
                        b as int,
                        i as int,
                        0,
                    ) ==> pairs@.contains(pair_at(ss, bs, b2, i2, j2)),
            decreases n - i,
        {
            assert(members@[i as int] < ss.len());
            let ith = &sentences[members[i]];
            let mut j: usize = i + 1;
            while j < n
                invariant
                    ss == sentences@,
                    bs == buckets@,
                    members_in_table(ss, bs),
                    b < bs.len(),
                    members@ == bs[b as int]@,
                    n == members@.len(),
                    i < n,
                    i < j <= n,
                    *ith == ss[members@[i as int] as int],
                    forall|x: u64| #[trigger]
                        seen@.contains(x) <==> exists|k: int|
                            0 <= k < pairs@.len() && pair_key(#[trigger] pairs@[k]) == x as int,
                    forall|k: int|
                        0 <= k < pairs@.len() ==> (#[trigger] pairs@[k]).0 < pairs@[k].1,
                    pairs@.no_duplicates(),
                    forall|k: int| 0 <= k < pairs@.len() ==> found_in_buckets(ss, bs, #[trigger] pairs@[k]),
                    forall|b2: int, i2: int, j2: int|
                        #[trigger] confirmed(ss, bs, b2, i2, j2) && scanned_before(
                            b2,
                            i2,
                            j2,
                            b as int,
                            i as int,
                            j as int,
                        ) ==> pairs@.contains(pair_at(ss, bs, b2, i2, j2)),
                decreases n - j,
            {
                assert(members@[j as int] < ss.len());
                let jth = &sentences[members[j]];
                if ith.0 != jth.0 && edit_distance_le_one(&ith.1, &jth.1) {
                    let p = if ith.0 < jth.0 {
                        (ith.0, jth.0)
                    } else {
                        (jth.0, ith.0)
                    };
                    assert(confirmed(ss, bs, b as int, i as int, j as int));
                    assert(p == pair_at(ss, bs, b as int, i as int, j as int));
                    let key = key_of(p);
                    if !seen.contains(&key) {
                        proof {
                            assert forall|k: int| 0 <= k < pairs@.len() implies pairs@[k] != p by {
                                if pairs@[k] == p {
                                    assert(seen@.contains(key));
                                }
                            }
                        }
                        let ghost old_pairs = pairs@;
                        let ghost old_seen = seen@;
                        seen.insert(key);
                        pairs.push(p);
                        proof {
                            assert(pairs@ == old_pairs.push(p));
                            assert(pairs@[pairs@.len() - 1] == p);
                            assert forall|x: u64| #[trigger]
                                seen@.contains(x) <==> exists|k: int|
                                    0 <= k < pairs@.len() && pair_key(#[trigger] pairs@[k])
                                        == x as int by {
                                if seen@.contains(x) && x != key {
                                    assert(old_seen.contains(x));
                                    let k = choose|k: int|
                                        0 <= k < old_pairs.len() && pair_key(
                                            #[trigger] old_pairs[k],
                                        ) == x as int;
                                    assert(pairs@[k] == old_pairs[k]);
                                }
                                if x == key {
                                    assert(pair_key(pairs@[pairs@.len() - 1]) == x as int);
                                }
                                if exists|k: int|
                                    0 <= k < pairs@.len() && pair_key(#[trigger] pairs@[k])
                                        == x as int {
                                    let k = choose|k: int|
                                        0 <= k < pairs@.len() && pair_key(#[trigger] pairs@[k])
                                            == x as int;
                                    if k < old_pairs.len() {
                                        assert(old_pairs[k] == pairs@[k]);
                                    }
                                }
                            }
                            assert forall|q: (u32, u32)| old_pairs.contains(q) implies #[trigger] pairs@.contains(q) by {
                                let k = choose|k: int| 0 <= k < old_pairs.len() && old_pairs[k] == q;
                                assert(pairs@[k] == q);
                            }
                            assert(pairs@.contains(p));
                        }
                    } else {
                        proof {
                            let k = choose|k: int|
                                0 <= k < pairs@.len() && pair_key(#[trigger] pairs@[k]) == key as int;
                            lemma_pair_key_injective(pairs@[k], p);
                            assert(pairs@.contains(p));
                        }
                    }
                }
                j = j + 1;
            }
            i = i + 1;
        }
        b = b + 1;
    }
    pairs
}

/// Positions `i < j` of the bucket keyed `k` hold two sentences with
/// different identifiers whose words are within one edit of each other.
pub open spec fn confirmed_in_bucket(sentences: Seq<(u32, Vec<u32>)>, k: u32, i: int, j: int) -> bool {
    let l = bucket_list(sentences, k);
    &&& 0 <= i < j < l.len()
    &&& sentences[l[i] as int].0 != sentences[l[j] as int].0
    &&& within_one_edit(sentences[l[i] as int].1@, sentences[l[j] as int].1@)
}

/// The canonical pair of identifiers at positions `i` and `j` of the bucket
/// keyed `k`.
pub open spec fn pair_in_bucket(sentences: Seq<(u32, Vec<u32>)>, k: u32, i: int, j: int) -> (u32, u32) {
    let l = bucket_list(sentences, k);
    canonical(sentences[l[i] as int].0, sentences[l[j] as int].0)
}

/// `p` is the canonical pair of two positions of one bucket of the table
/// that are confirmed near-duplicates.
pub open spec fn found_in_table(sentences: Seq<(u32, Vec<u32>)>, p: (u32, u32)) -> bool {
    exists|k: u32, i: int, j: int| #[trigger]
        confirmed_in_bucket(sentences, k, i, j) && p == pair_in_bucket(sentences, k, i, j)
}

/// Buckets the sentences of the table by their leading and trailing window
/// digests and compares the members of each bucket. Returns the confirmed
/// pairs of identifiers, each once and smaller first, and the number of
/// buckets.
pub fn find_near_duplicates(sentences: &Vec<(u32, Vec<u32>)>) -> (r: (Vec<(u32, u32)>, usize))
    ensures
        r.1 == signature_keys(sentences@).len(),
        forall|k: int| 0 <= k < r.0@.len() ==> (#[trigger] r.0@[k]).0 < r.0@[k].1,
        forall|k: int| 0 <= k < r.0@.len() ==> (#[trigger] r.0@[k]).0 != r.0@[k].1,
        forall|k: int, l: int|
            0 <= k < r.0@.len() && 0 <= l < r.0@.len() ==> !((#[trigger] r.0@[k]).0
                == (#[trigger] r.0@[l]).1 && r.0@[k].1 == r.0@[l].0),
        r.0@.no_duplicates(),
        forall|k: int| 0 <= k < r.0@.len() ==> found_in_table(sentences@, #[trigger] r.0@[k]),
        forall|key: u32, i: int, j: int| #[trigger]
            confirmed_in_bucket(sentences@, key, i, j) ==> r.0@.contains(
                pair_in_bucket(sentences@, key, i, j),
            ),
{
    let ghost ss = sentences@;
    let (keys, buckets) = build_buckets(sentences);
    proof {
        assert forall|b: int, i: int|
            0 <= b < buckets@.len() && 0 <= i < buckets@[b]@.len() implies #[trigger] buckets@[b]@[i]
                < ss.len() by {
            lemma_bucket_list_in_range(ss, keys@[b]);
        }
    }
    let pairs = near_duplicate_pairs(sentences, &buckets);
    proof {
        keys@.unique_seq_to_set();
        assert forall|k: int| 0 <= k < pairs@.len() implies found_in_table(ss, #[trigger] pairs@[k]) by {
            assert(found_in_buckets(ss, buckets@, pairs@[k]));
            let (b, i, j) = choose|b: int, i: int, j: int| #[trigger]
                confirmed(ss, buckets@, b, i, j) && pairs@[k] == pair_at(ss, buckets@, b, i, j);
            assert(confirmed_in_bucket(ss, keys@[b], i, j));
        }
        assert forall|key: u32, i: int, j: int| #[trigger]
            confirmed_in_bucket(ss, key, i, j) implies pairs@.contains(
                pair_in_bucket(ss, key, i, j),
            ) by {
            if !signature_keys(ss).contains(key) {
                crate::bucket::lemma_absent_key_empty_bucket(ss, key);
            }
            assert(keys@.to_set().contains(key));
            let b = choose|b: int| 0 <= b < keys@.len() && keys@[b] == key;
            assert(confirmed(ss, buckets@, b, i, j));
        }
    }
    (pairs, keys.len())
}

} // verus!
