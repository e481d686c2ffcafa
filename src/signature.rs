use vstd::arithmetic::div_mod::lemma_mul_mod_noop_left;
use vstd::prelude::*;

verus! {

/// Seed and multiplier base of the multiplicative digest.
pub const HASH_BASE: u32 = 1779033703;

/// Multiplier of the FNV-style per-element hash.
pub const FNV_PRIME: u32 = 16777619;

/// Starting value of the FNV-style hashes.
pub const FNV_OFFSET_BASIS: u32 = 2166136261;

/// Number of word ids in the leading and in the trailing window of a sentence.
pub const WINDOW: usize = 5;

/// 2^32: the arithmetic of the digests wraps modulo this.
pub open spec fn modulus() -> int {
    0x1_0000_0000
}

/// The factor that a word id `v` contributes to the multiplicative digest:
/// `HASH_BASE + 2 * v`, wrapped to 32 bits.
pub open spec fn mul_factor(v: u32) -> u32 {
    ((HASH_BASE as int + 2 * v as int) % modulus()) as u32
}

/// Multiplicative digest: `HASH_BASE` times the factor of every id, wrapped
/// to 32 bits.
pub open spec fn mul_digest(s: Seq<u32>) -> u32
    decreases s.len(),
{
    if s.len() == 0 {
        HASH_BASE
    } else {
        ((mul_digest(s.drop_last()) as int * mul_factor(s.last()) as int) % modulus()) as u32
    }
}

/// One FNV-1 round: xor in `octet`, then multiply by the prime, wrapped.
pub open spec fn fnv_step(h: u32, octet: u32) -> u32 {
    (((h ^ octet) as int * FNV_PRIME as int) % modulus()) as u32
}

/// The octet taken in round `i`: eight bits of `n` starting at bit `4 * i`.
pub open spec fn fnv_octet(n: u32, i: int) -> u32 {
    255u32 & (n >> ((4 * i) as u32))
}

/// The FNV-style hash of `n` after its first `i` rounds.
pub open spec fn fnv_rounds(n: u32, i: int) -> u32
    decreases i,
{
    if i <= 0 {
        FNV_OFFSET_BASIS
    } else {
        fnv_step(fnv_rounds(n, i - 1), fnv_octet(n, i - 1))
    }
}

/// The FNV-style hash of one word id: four rounds.
pub open spec fn fnv_of(n: u32) -> u32 {
    fnv_rounds(n, 4)
}

/// XOR-fold of the per-element FNV-style hashes, starting at the offset basis.
pub open spec fn xor_digest(s: Seq<u32>) -> u32
    decreases s.len(),
{
    if s.len() == 0 {
        FNV_OFFSET_BASIS
    } else {
        xor_digest(s.drop_last()) ^ fnv_of(s.last())
    }
}

/// The leading window of a sentence.
pub open spec fn head_window(s: Seq<u32>) -> Seq<u32> {
    s.subrange(0, WINDOW as int)
}

/// The trailing window of a sentence.
pub open spec fn tail_window(s: Seq<u32>) -> Seq<u32> {
    s.subrange(s.len() - WINDOW, s.len() as int)
}

/// FNV-style hash of one word id.
pub fn fnv_hash(n: u32) -> (r: u32)
    ensures
        r == fnv_of(n),
{
    let mut hash: u32 = FNV_OFFSET_BASIS;
    let mut i: u32 = 0;
    while i < 4
        invariant
            i <= 4,
            hash == fnv_rounds(n, i as int),
        decreases 4 - i,
    {
        let octet: u32 = 255 & (n >> (i * 4));
        hash = (hash ^ octet).wrapping_mul(FNV_PRIME);
        i = i + 1;
    }
    hash
}

fn fnv_hash_range(slice: &[u32], lo: usize, hi: usize) -> (r: u32)
    requires
        lo <= hi <= slice@.len(),
    ensures
        r == xor_digest(slice@.subrange(lo as int, hi as int)),
{
    let mut hash: u32 = FNV_OFFSET_BASIS;
    let mut i: usize = lo;
    proof {
        assert(slice@.subrange(lo as int, lo as int) =~= Seq::<u32>::empty());
    }
    while i < hi
        invariant
            lo <= i <= hi <= slice@.len(),
            hash == xor_digest(slice@.subrange(lo as int, i as int)),
        decreases hi - i,
    {
        proof {
            assert(slice@.subrange(lo as int, i + 1).drop_last()
                =~= slice@.subrange(lo as int, i as int));
        }
        hash = hash ^ fnv_hash(slice[i]);
        i = i + 1;
    }
    hash
}

/// FNV-style digest of a window: the per-element hashes XOR-folded together.
pub fn fnv_hash_slice(slice: &[u32]) -> (r: u32)
    ensures
        r == xor_digest(slice@),
{
    proof {
        assert(slice@.subrange(0, slice@.len() as int) =~= slice@);
    }
    fnv_hash_range(slice, 0, slice.len())
}

fn hash_range(slice: &[u32], lo: usize, hi: usize) -> (r: u32)
    requires
        lo <= hi <= slice@.len(),
    ensures
        r == mul_digest(slice@.subrange(lo as int, hi as int)),
{
    let mut hash: u32 = HASH_BASE;
    let mut i: usize = lo;
    proof {
        assert(slice@.subrange(lo as int, lo as int) =~= Seq::<u32>::empty());
    }
    while i < hi
        invariant
            lo <= i <= hi <= slice@.len(),
            hash == mul_digest(slice@.subrange(lo as int, i as int)),
        decreases hi - i,
    {
        proof {
            assert(slice@.subrange(lo as int, i + 1).drop_last()
                =~= slice@.subrange(lo as int, i as int));
        }
        let factor = HASH_BASE.wrapping_add(2u32.wrapping_mul(slice[i]));
        assert(factor == mul_factor(slice@[i as int]));
        hash = hash.wrapping_mul(factor);
        i = i + 1;
    }
    hash
}

/// Multiplicative digest of a window.
pub fn hash_slice(slice: &[u32]) -> (r: u32)
    ensures
        r == mul_digest(slice@),
{
    proof {
        assert(slice@.subrange(0, slice@.len() as int) =~= slice@);
    }
    hash_range(slice, 0, slice.len())
}

/// FNV-style digests of the leading and of the trailing five ids.
pub fn fnv_hash_pair(sentence_mapping: &Vec<u32>) -> (r: (u32, u32))
    requires
        sentence_mapping.len() >= WINDOW,
    ensures
        r.0 == xor_digest(head_window(sentence_mapping@)),
        r.1 == xor_digest(tail_window(sentence_mapping@)),
{
    let length = sentence_mapping.len();
    let s = sentence_mapping.as_slice();
    let hash_init = fnv_hash_range(s, 0, WINDOW);
    let hash_tail = fnv_hash_range(s, length - WINDOW, length);
    (hash_init, hash_tail)
}

/// Multiplicative digests of the leading and of the trailing five ids.
pub fn hash_pair(sentence_mapping: &Vec<u32>) -> (r: (u32, u32))
    requires
        sentence_mapping.len() >= WINDOW,
    ensures
        r.0 == mul_digest(head_window(sentence_mapping@)),
        r.1 == mul_digest(tail_window(sentence_mapping@)),
{
    let length = sentence_mapping.len();
    let s = sentence_mapping.as_slice();
    let hash_init = hash_range(s, 0, WINDOW);
    let hash_tail = hash_range(s, length - WINDOW, length);
    (hash_init, hash_tail)
}

proof fn lemma_mul_digest_remove(s: Seq<u32>, j: int)
    requires
        0 <= j < s.len(),
    ensures
        mul_digest(s) == ((mul_digest(s.remove(j)) as int * mul_factor(s[j]) as int)
            % modulus()) as u32,
    decreases s.len(),
{
    if j == s.len() - 1 {
        assert(s.remove(j) =~= s.drop_last());
    } else {
        let t = s.drop_last();
        assert(s.remove(j).drop_last() =~= t.remove(j));
        assert(s.remove(j).last() == s.last());
        lemma_mul_digest_remove(t, j);
        let x = mul_digest(t.remove(j)) as int;
        let a = mul_factor(s[j]) as int;
        let b = mul_factor(s.last()) as int;
        lemma_mul_mod_noop_left(x * a, b, modulus());
        lemma_mul_mod_noop_left(x * b, a, modulus());
        assert(x * a * b == x * b * a) by (nonlinear_arith);
    }
}

proof fn lemma_xor_digest_remove(s: Seq<u32>, j: int)
    requires
        0 <= j < s.len(),
    ensures
        xor_digest(s) == xor_digest(s.remove(j)) ^ fnv_of(s[j]),
    decreases s.len(),
{
    if j == s.len() - 1 {
        assert(s.remove(j) =~= s.drop_last());
    } else {
        let t = s.drop_last();
        assert(s.remove(j).drop_last() =~= t.remove(j));
        assert(s.remove(j).last() == s.last());
        lemma_xor_digest_remove(t, j);
        let x = xor_digest(t.remove(j));
        let a = fnv_of(s[j]);
        let b = fnv_of(s.last());
        assert((x ^ a) ^ b == (x ^ b) ^ a) by (bit_vector);
    }
}

/// The multiplicative digest depends only on the multiset of ids in the
/// window: any reordering gives the same digest.
pub proof fn lemma_mul_digest_order_insensitive(a: Seq<u32>, b: Seq<u32>)
    requires
        a.to_multiset() == b.to_multiset(),
    ensures
        mul_digest(a) == mul_digest(b),
    decreases a.len(),
{
    broadcast use vstd::seq_lib::group_to_multiset_ensures;

    a.to_multiset_ensures();
    b.to_multiset_ensures();
    if a.len() > 0 {
        let x = a.last();
        assert(a.drop_last().push(x) =~= a);
        assert(b.to_multiset().count(x) > 0);
        let j = choose|j: int| 0 <= j < b.len() && b[j] == x;
        assert(b.remove(j).to_multiset() =~= a.drop_last().to_multiset());
        lemma_mul_digest_order_insensitive(a.drop_last(), b.remove(j));
        lemma_mul_digest_remove(b, j);
    }
}

/// The FNV-style digest depends only on the multiset of ids in the window:
/// any reordering gives the same digest.
pub proof fn lemma_xor_digest_order_insensitive(a: Seq<u32>, b: Seq<u32>)
    requires
        a.to_multiset() == b.to_multiset(),
    ensures
        xor_digest(a) == xor_digest(b),
    decreases a.len(),
{
    broadcast use vstd::seq_lib::group_to_multiset_ensures;

    a.to_multiset_ensures();
    b.to_multiset_ensures();
    if a.len() > 0 {
        let x = a.last();
        assert(a.drop_last().push(x) =~= a);
        assert(b.to_multiset().count(x) > 0);
        let j = choose|j: int| 0 <= j < b.len() && b[j] == x;
        assert(b.remove(j).to_multiset() =~= a.drop_last().to_multiset());
        lemma_xor_digest_order_insensitive(a.drop_last(), b.remove(j));
        lemma_xor_digest_remove(b, j);
    }
}

} // verus!
