use std::collections::HashSet;
use vstd::prelude::*;

verus! {

broadcast use vstd::std_specs::hash::group_hash_axioms;

/// The set of the values in `list`.
pub fn from_vec(list: &Vec<usize>) -> (r: HashSet<usize>)
    ensures
        r@ == list@.to_set(),
{
    let mut set: HashSet<usize> = HashSet::with_capacity(list.len());
    let mut i: usize = 0;
    while i < list.len()
        invariant
            i <= list.len(),
            set@ == list@.take(i as int).to_set(),
        decreases list.len() - i,
    {
        proof {
            assert(list@.take(i + 1) =~= list@.take(i as int).push(list@[i as int]));
            list@.take(i as int).lemma_push_to_set_commute(list@[i as int]);
        }
        set.insert(list[i]);
        i = i + 1;
    }
    proof {
        assert(list@.take(list.len() as int) =~= list@);
    }
    set
}

/// The sizes of the intersection and of the union of the sets of values of
/// the two lists: the numerator and denominator of their Jaccard index.
pub fn jaccard_counts(list1: &Vec<usize>, list2: &Vec<usize>) -> (r: (usize, usize))
    requires
        list1.len() + list2.len() <= usize::MAX,
    ensures
        r.0 == list1@.to_set().intersect(list2@.to_set()).len(),
        r.1 == list1@.to_set().union(list2@.to_set()).len(),
{
    broadcast use vstd::seq_lib::seq_to_set_is_finite;

    let set1 = from_vec(list1);
    let ghost s1 = set1@;
    let mut seen: HashSet<usize> = HashSet::new();
    let mut intersection: usize = 0;
    let mut union: usize = set1.len();
    let mut i: usize = 0;
    proof {
        assert(s1.intersect(seen@) =~= Set::<usize>::empty());
        assert(s1.union(seen@) =~= s1);
        assert(list2@.take(0).to_set() =~= Set::<usize>::empty());
        list1@.lemma_cardinality_of_set();
    }
    while i < list2.len()
        invariant
            s1 == set1@,
            s1 == list1@.to_set(),
            s1.finite(),
            i <= list2.len(),
            list1.len() + list2.len() <= usize::MAX,
            seen@ == list2@.take(i as int).to_set(),
            seen@.finite(),
            intersection == s1.intersect(seen@).len(),
            union == s1.union(seen@).len(),
            intersection <= i,
            union <= list1.len() + i,
        decreases list2.len() - i,
    {
        let x = list2[i];
        proof {
            assert(list2@.take(i + 1) =~= list2@.take(i as int).push(x));
            list2@.take(i as int).lemma_push_to_set_commute(x);
        }
        if !seen.contains(&x) {
            let ghost old_seen = seen@;
            seen.insert(x);
            if set1.contains(&x) {
                proof {
                    assert(s1.intersect(seen@) =~= s1.intersect(old_seen).insert(x));
                    assert(s1.union(seen@) =~= s1.union(old_seen));
                }
                intersection = intersection + 1;
            } else {
                proof {
                    assert(s1.intersect(seen@) =~= s1.intersect(old_seen));
                    assert(s1.union(seen@) =~= s1.union(old_seen).insert(x));
                }
                union = union + 1;
            }
        }
        i = i + 1;
    }
    proof {
        assert(list2@.take(list2.len() as int) =~= list2@);
    }
    (intersection, union)
}

} // verus!
