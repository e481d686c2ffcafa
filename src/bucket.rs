use crate::signature::{hash_pair, head_window, mul_digest, tail_window, WINDOW};
use std::collections::HashMap;
use vstd::prelude::*;

verus! {

broadcast use vstd::std_specs::hash::group_hash_axioms;

/// The bucket keys of a sentence: the digests of its leading and trailing
/// windows.
pub open spec fn signatures_of(s: Seq<u32>) -> (u32, u32) {
    (mul_digest(head_window(s)), mul_digest(tail_window(s)))
}

/// The positions in `ss` that go into the bucket keyed `k`, in order, once
/// for each of the sentence's two keys that equals `k`. Sentences shorter
/// than a window are not bucketed.
pub open spec fn bucket_list(ss: Seq<(u32, Vec<u32>)>, k: u32) -> Seq<usize>
    decreases ss.len(),
{
    if ss.len() == 0 {
        Seq::<usize>::empty()
    } else {
        let prev = bucket_list(ss.drop_last(), k);
        let i = (ss.len() - 1) as usize;
        let s = ss.last().1@;
        if s.len() < WINDOW {
            prev
        } else {
            let p1 = if signatures_of(s).0 == k {
                prev.push(i)
            } else {
                prev
            };
            if signatures_of(s).1 == k {
                p1.push(i)
            } else {
                p1
            }
        }
    }
}

/// Every key that some bucketed sentence of `ss` has.
pub open spec fn signature_keys(ss: Seq<(u32, Vec<u32>)>) -> Set<u32>
    decreases ss.len(),
{
    if ss.len() == 0 {
        Set::<u32>::empty()
    } else {
        let prev = signature_keys(ss.drop_last());
        let s = ss.last().1@;
        if s.len() < WINDOW {
            prev
        } else {
            prev.insert(signatures_of(s).0).insert(signatures_of(s).1)
        }
    }
}

/// The bucket table: `keys[b]` is the key of bucket `b`, `members[b]` its
/// list of sentence positions, and `index` finds a key's bucket.
spec fn table_wf(keys: Seq<u32>, members: Seq<Vec<usize>>, index: Map<u32, usize>) -> bool {
    &&& keys.len() == members.len()
    &&& keys.no_duplicates()
    &&& forall|b: int| 0 <= b < keys.len() ==> #[trigger] index.contains_key(keys[b]) && index[keys[b]] == b
    &&& forall|k: u32| #[trigger] index.contains_key(k) ==> keys.contains(k)
}

fn add_member(
    keys: &mut Vec<u32>,
    members: &mut Vec<Vec<usize>>,
    index: &mut HashMap<u32, usize>,
    key: u32,
    i: usize,
)
    requires
        table_wf(old(keys)@, old(members)@, old(index)@),
    ensures
        table_wf(final(keys)@, final(members)@, final(index)@),
        final(keys)@ == if old(keys)@.contains(key) {
            old(keys)@
        } else {
            old(keys)@.push(key)
        },
        forall|b: int|
            0 <= b < final(keys)@.len() ==> (#[trigger] final(members)@[b])@ == if final(keys)@[b]
                == key {
                (if b < old(keys)@.len() {
                    old(members)@[b]@
                } else {
                    Seq::<usize>::empty()
                }).push(i)
            } else {
                old(members)@[b]@
            },
{
    match index.get(&key) {
        Some(b) => {
            let b = *b;
            assert(keys@.contains(key));
            assert forall|c: int| 0 <= c < keys@.len() && keys@[c] == key implies c == b by {
                assert(index@.contains_key(keys@[c]));
            }
            members[b].push(i);
        },
        None => {
            assert(!keys@.contains(key)) by {
                if keys@.contains(key) {
                    let c = choose|c: int| 0 <= c < keys@.len() && keys@[c] == key;
                    assert(index@.contains_key(keys@[c]));
                }
            }
            let ghost k0 = keys@;
            let ghost i0 = index@;
            let b = keys.len();
            index.insert(key, b);
            keys.push(key);
            let mut list: Vec<usize> = Vec::new();
            list.push(i);
            members.push(list);
            proof {
                assert(keys@ == k0.push(key));
                assert forall|k: u32| #[trigger] index@.contains_key(k) implies keys@.contains(k) by {
                    if k == key {
                        assert(keys@[b as int] == key);
                    } else {
                        assert(i0.contains_key(k));
                        assert(k0.contains(k));
                        let c = choose|c: int| 0 <= c < k0.len() && k0[c] == k;
                        assert(keys@[c] == k);
                    }
                }
                assert forall|c: int| 0 <= c < keys@.len() implies #[trigger] index@.contains_key(keys@[c]) && index@[keys@[c]] == c by {
                    if c < k0.len() {
                        assert(keys@[c] == k0[c]);
                        assert(i0.contains_key(k0[c]));
                    }
                }
            }
        },
    }
}

/// A key that no sentence has keys an empty bucket.
pub proof fn lemma_absent_key_empty_bucket(ss: Seq<(u32, Vec<u32>)>, k: u32)
    requires
        !signature_keys(ss).contains(k),
    ensures
        bucket_list(ss, k) == Seq::<usize>::empty(),
    decreases ss.len(),
{
    if ss.len() > 0 {
        lemma_absent_key_empty_bucket(ss.drop_last(), k);
    }
}

/// Every position in a bucket list names a sentence of `ss`.
pub proof fn lemma_bucket_list_in_range(ss: Seq<(u32, Vec<u32>)>, k: u32)
    ensures
        forall|i: int| 0 <= i < bucket_list(ss, k).len() ==> #[trigger] bucket_list(ss, k)[i] < ss.len(),
    decreases ss.len(),
{
    if ss.len() > 0 {
        let prev = bucket_list(ss.drop_last(), k);
        lemma_bucket_list_in_range(ss.drop_last(), k);
        assert forall|i: int| 0 <= i < prev.push((ss.len() - 1) as usize).len() implies #[trigger] prev.push(
            (ss.len() - 1) as usize,
        )[i] < ss.len() by {
            if i < prev.len() {
                assert(prev[i] < ss.len() - 1);
            }
        }
        assert forall|i: int| 0 <= i < prev.push((ss.len() - 1) as usize).push((ss.len() - 1) as usize).len() implies #[trigger] prev.push(
            (ss.len() - 1) as usize,
        ).push((ss.len() - 1) as usize)[i] < ss.len() by {
            if i < prev.len() {
                assert(prev[i] < ss.len() - 1);
            }
        }
    }
}

/// Groups the sentences of the table into buckets: each sentence of at least
/// five words joins the bucket of its leading-window digest and the bucket of
/// its trailing-window digest. Returns the keys and, for each, the positions
/// of its members in the table.
pub fn build_buckets(sentences: &Vec<(u32, Vec<u32>)>) -> (r: (Vec<u32>, Vec<Vec<usize>>))
    ensures
        r.0@.len() == r.1@.len(),
        r.0@.no_duplicates(),
        r.0@.to_set() == signature_keys(sentences@),
        forall|b: int| 0 <= b < r.1@.len() ==> (#[trigger] r.1@[b])@ == bucket_list(sentences@, r.0@[b]),
{
    let ghost ss = sentences@;
    let mut keys: Vec<u32> = Vec::new();
    let mut members: Vec<Vec<usize>> = Vec::new();
    let mut index: HashMap<u32, usize> = HashMap::new();
    let mut i: usize = 0;
    proof {
        assert(keys@.to_set() =~= Set::<u32>::empty());
        assert(ss.take(0).len() == 0);
    }
    while i < sentences.len()
        invariant
            ss == sentences@,
            i <= ss.len(),
            table_wf(keys@, members@, index@),
            keys@.to_set() == signature_keys(ss.take(i as int)),
            forall|b: int| 0 <= b < members@.len() ==> (#[trigger] members@[b])@ == bucket_list(ss.take(i as int), keys@[b]),
        decreases ss.len() - i,
    {
        let ghost prefix = ss.take(i as int);
        proof {
            assert(ss.take(i + 1).drop_last() =~= prefix);
        }
        let words = &sentences[i].1;
        if words.len() >= WINDOW {
            let (h, t) = hash_pair(words);
            let ghost keys0 = keys@;
            let ghost members0 = members@;
            add_member(&mut keys, &mut members, &mut index, h, i);
            let ghost keys1 = keys@;
            let ghost members1 = members@;
            add_member(&mut keys, &mut members, &mut index, t, i);
            proof {
                assert(ss.take(i + 1).last() == ss[i as int]);
                assert forall|b: int| 0 <= b < keys1.len() implies keys@[b] == keys1[b] by {}
                assert forall|b: int| 0 <= b < keys0.len() implies keys1[b] == keys0[b] by {}
                assert(keys@.to_set() =~= keys0.to_set().insert(h).insert(t)) by {
                    broadcast use vstd::seq_lib::group_seq_properties;
                }
                assert(signatures_of(ss.take(i + 1).last().1@) == (h, t));
                assert forall|b: int| 0 <= b < members@.len() implies (#[trigger] members@[b])@
                    == bucket_list(ss.take(i + 1), keys@[b]) by {
                    let k = keys@[b];
                    let base0 = if b < keys0.len() {
                        members0[b]@
                    } else {
                        Seq::<usize>::empty()
                    };
                    if b < keys0.len() {
                        assert(keys0[b] == k);
                        assert(members0[b]@ == bucket_list(prefix, k));
                    } else {
                        assert(!keys0.contains(k)) by {
                            if keys0.contains(k) {
                                let c = choose|c: int| 0 <= c < keys0.len() && keys0[c] == k;
                                assert(keys@[c] == k);
                            }
                        }
                        assert(!keys0.to_set().contains(k));
                        lemma_absent_key_empty_bucket(prefix, k);
                    }
                    assert(base0 == bucket_list(prefix, k));
                    if b < keys1.len() {
                        assert(keys1[b] == k);
                        assert(members1[b]@ == if k == h {
                            base0.push(i)
                        } else {
                            base0
                        });
                        assert(members@[b]@ == if k == t {
                            members1[b]@.push(i)
                        } else {
                            members1[b]@
                        });
                    } else {
                        assert(k == t);
                        assert(k != h) by {
                            if !keys0.contains(h) {
                                assert(keys1[keys1.len() - 1] == h);
                            }
                            assert(keys1.contains(h));
                            if k == h {
                                let c = choose|c: int| 0 <= c < keys1.len() && keys1[c] == h;
                                assert(keys@[c] == k);
                            }
                        }
                        assert(members@[b]@ == Seq::<usize>::empty().push(i));
                    }
                }
            }
        } else {
            proof {
                assert forall|b: int| 0 <= b < members@.len() implies (#[trigger] members@[b])@
                    == bucket_list(ss.take(i + 1), keys@[b]) by {
                }
            }
        }
        i = i + 1;
    }
    proof {
        assert(ss.take(ss.len() as int) =~= ss);
    }
    (keys, members)
}

} // verus!
