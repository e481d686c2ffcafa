use vstd::prelude::*;

verus! {

/// `a` and `b` have the same length and agree everywhere but at position `i`.
pub open spec fn agree_except(a: Seq<u32>, b: Seq<u32>, i: int) -> bool {
    &&& a.len() == b.len()
    &&& 0 <= i < a.len()
    &&& forall|j: int| 0 <= j < a.len() && j != i ==> a[j] == b[j]
}

/// `b` is `a` with exactly one position changed (or rewritten to the same value).
pub open spec fn one_substitution(a: Seq<u32>, b: Seq<u32>) -> bool {
    exists|i: int| #[trigger] agree_except(a, b, i)
}

/// `short` is `long` with exactly one element removed.
pub open spec fn one_deletion(long: Seq<u32>, short: Seq<u32>) -> bool {
    &&& long.len() == short.len() + 1
    &&& exists|i: int| 0 <= i < long.len() && #[trigger] long.remove(i) == short
}

/// Word-level edit distance of at most one: the sequences are equal, or one
/// substitution, insertion or deletion turns one into the other.
pub open spec fn within_one_edit(a: Seq<u32>, b: Seq<u32>) -> bool {
    ||| a == b
    ||| one_substitution(a, b)
    ||| one_deletion(a, b)
    ||| one_deletion(b, a)
}

/// Decides whether `v1` and `v2` are at word-level edit distance at most one.
pub fn edit_distance_le_one(v1: &Vec<u32>, v2: &Vec<u32>) -> (r: bool)
    ensures
        r == within_one_edit(v1@, v2@),
{
    let len1 = v1.len();
    let len2 = v2.len();
    if len1 > len2 {
        different_len_edit_dist(v1, v2)
    } else if len2 > len1 {
        let r = different_len_edit_dist(v2, v1);
        proof {
            lemma_within_one_edit_symmetric(v1@, v2@);
        }
        r
    } else {
        same_len_edit_dist(v1, v2)
    }
}

/// Edit distance at most one for a `v1` strictly longer than `v2`: walks both
/// from the end while they agree; at the first mismatch, one extra element of
/// `v1` is skipped and the remaining prefixes must agree.
pub fn different_len_edit_dist(v1: &Vec<u32>, v2: &Vec<u32>) -> (r: bool)
    requires
        v1.len() > v2.len(),
    ensures
        r == within_one_edit(v1@, v2@),
{
    let n1 = v1.len();
    let n2 = v2.len();
    let mut k: usize = 0;
    while k < n2
        invariant
            n1 == v1.len(),
            n2 == v2.len(),
            n1 > n2,
            k <= n2,
            forall|j: int| n2 - k <= j < n2 ==> v1@[j + (n1 - n2)] == #[trigger] v2@[j],
        decreases n2 - k,
    {
        if v1[n1 - 1 - k] != v2[n2 - 1 - k] {
            if n1 - n2 != 1 {
                proof {
                    lemma_length_gap(v1@, v2@);
                }
                return false;
            }
            // v1 is one longer: the extra element must sit just here
            let m = n2 - 1 - k;
            let r = v1[m] == v2[m] && same_prefix(v1, v2, m);
            proof {
                lemma_deletion_at_mismatch(v1@, v2@, m as int, r);
            }
            return r;
        }
        k = k + 1;
    }
    proof {
        if n1 - n2 == 1 {
            assert(v1@.remove(0) =~= v2@);
        } else {
            lemma_length_gap(v1@, v2@);
        }
    }
    n1 - n2 == 1
}

/// Edit distance at most one for sequences of equal length: walks both from
/// the end while they agree; at the first mismatch the remaining prefixes
/// must be identical.
pub fn same_len_edit_dist(v1: &Vec<u32>, v2: &Vec<u32>) -> (r: bool)
    requires
        v1.len() == v2.len(),
    ensures
        r == within_one_edit(v1@, v2@),
{
    let n = v1.len();
    let mut k: usize = n;
    while k > 0
        invariant
            n == v1.len(),
            n == v2.len(),
            k <= n,
            forall|j: int| k <= j < n ==> v1@[j] == v2@[j],
        decreases k,
    {
        if v1[k - 1] != v2[k - 1] {
            let r = same_prefix(v1, v2, k - 1);
            proof {
                lemma_substitution_at_mismatch(v1@, v2@, (k - 1) as int, r);
            }
            return r;
        }
        k = k - 1;
    }
    assert(v1@ =~= v2@);
    true
}

/// Whether the two sequences are equal.
pub fn identical(v1: &Vec<u32>, v2: &Vec<u32>) -> (r: bool)
    ensures
        r == (v1@ == v2@),
{
    if v1.len() != v2.len() {
        return false;
    }
    let r = same_prefix(v1, v2, v1.len());
    proof {
        assert(v1@.take(v1.len() as int) =~= v1@);
        assert(v2@.take(v2.len() as int) =~= v2@);
    }
    r
}

/// Whether the first `m` elements of the two sequences agree.
fn same_prefix(v1: &Vec<u32>, v2: &Vec<u32>, m: usize) -> (r: bool)
    requires
        m <= v1.len(),
        m <= v2.len(),
    ensures
        r == (v1@.take(m as int) == v2@.take(m as int)),
{
    let mut i: usize = 0;
    while i < m
        invariant
            m <= v1.len(),
            m <= v2.len(),
            i <= m,
            forall|j: int| 0 <= j < i ==> v1@[j] == v2@[j],
        decreases m - i,
    {
        if v1[i] != v2[i] {
            assert(v1@.take(m as int)[i as int] != v2@.take(m as int)[i as int]);
            return false;
        }
        i = i + 1;
    }
    assert(v1@.take(m as int) =~= v2@.take(m as int));
    true
}

proof fn lemma_length_gap(a: Seq<u32>, b: Seq<u32>)
    requires
        a.len() > b.len() + 1,
    ensures
        !within_one_edit(a, b),
{
}

proof fn lemma_substitution_at_mismatch(a: Seq<u32>, b: Seq<u32>, m: int, r: bool)
    requires
        a.len() == b.len(),
        0 <= m < a.len(),
        a[m] != b[m],
        forall|j: int| m < j < a.len() ==> a[j] == b[j],
        r == (a.take(m) == b.take(m)),
    ensures
        r == within_one_edit(a, b),
{
    if r {
        assert forall|j: int| 0 <= j < a.len() && j != m implies a[j] == b[j] by {
            if j < m {
                assert(a.take(m)[j] == b.take(m)[j]);
            }
        }
        assert(agree_except(a, b, m));
    }
    if one_substitution(a, b) {
        let i = choose|i: int| #[trigger] agree_except(a, b, i);
        assert(i == m);
        assert(a.take(m) =~= b.take(m));
    }
}

proof fn lemma_deletion_at_mismatch(a: Seq<u32>, b: Seq<u32>, m: int, r: bool)
    requires
        a.len() == b.len() + 1,
        0 <= m < b.len(),
        a[m + 1] != b[m],
        forall|j: int| m < j < b.len() ==> a[j + 1] == b[j],
        r == (a[m] == b[m] && a.take(m) == b.take(m)),
    ensures
        r == within_one_edit(a, b),
{
    if r {
        assert forall|j: int| 0 <= j < b.len() implies #[trigger] a.remove(m + 1)[j] == b[j] by {
            if j < m {
                assert(a.take(m)[j] == b.take(m)[j]);
            }
        }
        assert(a.remove(m + 1) =~= b);
    }
    if one_deletion(a, b) {
        let i = choose|i: int| 0 <= i < a.len() && #[trigger] a.remove(i) == b;
        if i <= m {
            assert(a.remove(i)[m] == a[m + 1]);
        }
        assert forall|j: int| 0 <= j < m implies a[j] == b[j] by {
            assert(a.remove(i)[j] == a[j]);
        }
        assert(a.remove(i)[m] == a[m]);
        assert(a.take(m) =~= b.take(m));
    }
}

/// Being within one edit of each other does not depend on the order of the
/// two sequences.
pub proof fn lemma_within_one_edit_symmetric(a: Seq<u32>, b: Seq<u32>)
    ensures
        within_one_edit(a, b) == within_one_edit(b, a),
{
    if one_substitution(a, b) {
        let i = choose|i: int| #[trigger] agree_except(a, b, i);
        assert(agree_except(b, a, i));
    }
    if one_substitution(b, a) {
        let i = choose|i: int| #[trigger] agree_except(b, a, i);
        assert(agree_except(a, b, i));
    }
}

/// Word-level Levenshtein distance: the fewest single-element insertions,
/// deletions and substitutions that turn `a` into `b`.
pub open spec fn levenshtein(a: Seq<u32>, b: Seq<u32>) -> nat
    decreases a.len() + b.len(),
{
    if a.len() == 0 {
        b.len()
    } else if b.len() == 0 {
        a.len()
    } else {
        let del = levenshtein(a.drop_last(), b) + 1;
        let ins = levenshtein(a, b.drop_last()) + 1;
        let sub = levenshtein(a.drop_last(), b.drop_last()) + if a.last() == b.last() {
            0nat
        } else {
            1nat
        };
        if del <= ins && del <= sub {
            del
        } else if ins <= sub {
            ins
        } else {
            sub
        }
    }
}

proof fn lemma_levenshtein_self(a: Seq<u32>)
    ensures
        levenshtein(a, a) == 0,
    decreases a.len(),
{
    if a.len() > 0 {
        lemma_levenshtein_self(a.drop_last());
    }
}

proof fn lemma_levenshtein_zero(a: Seq<u32>, b: Seq<u32>)
    requires
        levenshtein(a, b) == 0,
    ensures
        a == b,
    decreases a.len() + b.len(),
{
    if a.len() > 0 && b.len() > 0 {
        lemma_levenshtein_zero(a.drop_last(), b.drop_last());
        assert(a =~= a.drop_last().push(a.last()));
        assert(b =~= b.drop_last().push(b.last()));
    } else if a.len() == 0 {
        assert(b =~= a);
    }
}

proof fn lemma_substitution_levenshtein(a: Seq<u32>, b: Seq<u32>, i: int)
    requires
        agree_except(a, b, i),
    ensures
        levenshtein(a, b) <= 1,
    decreases a.len(),
{
    let n = a.len() - 1;
    if i == n {
        assert(a.drop_last() =~= b.drop_last());
        lemma_levenshtein_self(a.drop_last());
    } else {
        assert(agree_except(a.drop_last(), b.drop_last(), i));
        lemma_substitution_levenshtein(a.drop_last(), b.drop_last(), i);
        assert(a.last() == b.last());
    }
}

proof fn lemma_deletion_levenshtein(long: Seq<u32>, short: Seq<u32>, i: int)
    requires
        long.len() == short.len() + 1,
        0 <= i < long.len(),
        long.remove(i) == short,
    ensures
        levenshtein(long, short) <= 1,
        levenshtein(short, long) <= 1,
    decreases long.len(),
{
    let n = long.len() - 1;
    if i == n {
        assert(long.drop_last() =~= short);
        lemma_levenshtein_self(short);
        if short.len() > 0 {
            assert(levenshtein(short, long) <= levenshtein(short, long.drop_last()) + 1);
        }
    } else {
        assert(long.drop_last().remove(i) =~= short.drop_last());
        assert(short[n - 1] == long[n]);
        lemma_deletion_levenshtein(long.drop_last(), short.drop_last(), i);
    }
}

proof fn lemma_push_keeps_within_one_edit(a: Seq<u32>, b: Seq<u32>, x: u32)
    requires
        within_one_edit(a, b),
    ensures
        within_one_edit(a.push(x), b.push(x)),
{
    if a == b {
    } else if one_substitution(a, b) {
        let i = choose|i: int| #[trigger] agree_except(a, b, i);
        assert(agree_except(a.push(x), b.push(x), i));
    } else if one_deletion(a, b) {
        let i = choose|i: int| 0 <= i < a.len() && #[trigger] a.remove(i) == b;
        assert(a.push(x).remove(i) =~= b.push(x));
    } else {
        let i = choose|i: int| 0 <= i < b.len() && #[trigger] b.remove(i) == a;
        assert(b.push(x).remove(i) =~= a.push(x));
    }
}

/// Being within one edit is exactly having Levenshtein distance at most one.
pub proof fn lemma_within_one_edit_is_levenshtein_le_one(a: Seq<u32>, b: Seq<u32>)
    ensures
        within_one_edit(a, b) == (levenshtein(a, b) <= 1),
    decreases a.len() + b.len(),
{
    if a == b {
        lemma_levenshtein_self(a);
    } else if one_substitution(a, b) {
        let i = choose|i: int| #[trigger] agree_except(a, b, i);
        lemma_substitution_levenshtein(a, b, i);
    } else if one_deletion(a, b) {
        let i = choose|i: int| 0 <= i < a.len() && #[trigger] a.remove(i) == b;
        lemma_deletion_levenshtein(a, b, i);
    } else if one_deletion(b, a) {
        let i = choose|i: int| 0 <= i < b.len() && #[trigger] b.remove(i) == a;
        lemma_deletion_levenshtein(b, a, i);
    } else if levenshtein(a, b) <= 1 {
        // the recurrence then yields one of the edits above
        if a.len() == 0 {
            if b.len() == 0 {
                assert(a =~= b);
            }
            assert(b.len() == 1);
            assert(b.remove(0) =~= a);
        } else if b.len() == 0 {
            assert(a.len() == 1);
            assert(a.remove(0) =~= b);
        } else {
            let a1 = a.drop_last();
            let b1 = b.drop_last();
            assert(a =~= a1.push(a.last()));
            assert(b =~= b1.push(b.last()));
            if levenshtein(a1, b) + 1 <= 1 {
                lemma_levenshtein_zero(a1, b);
                assert(a.remove(a.len() - 1) =~= b);
            } else if levenshtein(a, b1) + 1 <= 1 {
                lemma_levenshtein_zero(a, b1);
                assert(b.remove(b.len() - 1) =~= a);
            } else if a.last() == b.last() {
                lemma_within_one_edit_is_levenshtein_le_one(a1, b1);
                lemma_push_keeps_within_one_edit(a1, b1, a.last());
            } else {
                lemma_levenshtein_zero(a1, b1);
                assert(agree_except(a, b, a.len() - 1));
            }
        }
    }
}

} // verus!
