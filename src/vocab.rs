use std::collections::HashMap;
use vstd::prelude::*;

verus! {

/// Maps each word seen so far to its id.
pub type WordDict = HashMap<String, u32>;

/// A sentence encoded as word ids.
pub type WordIdVec = Vec<u32>;

/// What a word dictionary holds: each word, by its characters, and its id.
pub uninterp spec fn vocab_of(m: HashMap<String, u32>) -> Map<Seq<char>, u32>;

/// Relies on `HashMap::is_empty`: true exactly when the map holds no entry.
#[verifier::external_body]
fn dict_is_empty(m: &HashMap<String, u32>) -> (r: bool)
    ensures
        r == (vocab_of(*m).dom() == Set::<Seq<char>>::empty()),
{
    m.is_empty()
}

/// Relies on `HashMap::get`: the id stored under a key with the same
/// characters, if there is one.
#[verifier::external_body]
fn dict_get(m: &HashMap<String, u32>, w: &String) -> (r: Option<u32>)
    ensures
        r == (if vocab_of(*m).contains_key(w@) {
            Some(vocab_of(*m)[w@])
        } else {
            None::<u32>
        }),
{
    m.get(w).copied()
}

/// Relies on `HashMap::insert`: afterwards the word maps to `id`, and every
/// other entry is unchanged.
#[verifier::external_body]
fn dict_insert(m: &mut HashMap<String, u32>, w: String, id: u32)
    ensures
        vocab_of(*final(m)) == vocab_of(*old(m)).insert(w@, id),
{
    m.insert(w, id);
}

/// A vocabulary is well formed for counter `next` when every id is at most
/// `next` and no two words share an id.
pub open spec fn vocab_wf(v: Map<Seq<char>, u32>, next: u32) -> bool {
    &&& forall|w: Seq<char>| #[trigger] v.contains_key(w) ==> v[w] <= next
    &&& forall|w1: Seq<char>, w2: Seq<char>|
        v.contains_key(w1) && v.contains_key(w2) && #[trigger] v[w1] == #[trigger] v[w2]
            ==> w1 == w2
}

/// Encoding one word: the new vocabulary, the word's id and the new counter.
/// The first word ever gets id 0; a known word keeps its id; a new word gets
/// `next + 1`, which becomes the counter.
pub open spec fn encode_word(v: Map<Seq<char>, u32>, next: u32, w: Seq<char>) -> (Map<
    Seq<char>,
    u32,
>, u32, u32) {
    if v.dom() == Set::<Seq<char>>::empty() {
        (Map::<Seq<char>, u32>::empty().insert(w, 0), 0, 0)
    } else if v.contains_key(w) {
        (v, v[w], next)
    } else {
        (v.insert(w, (next + 1) as u32), (next + 1) as u32, (next + 1) as u32)
    }
}

/// Encoding a sequence of words in order: the final vocabulary, the ids and
/// the final counter.
pub open spec fn encode_words(v: Map<Seq<char>, u32>, next: u32, ws: Seq<Seq<char>>) -> (Map<
    Seq<char>,
    u32,
>, Seq<u32>, u32)
    decreases ws.len(),
{
    if ws.len() == 0 {
        (v, Seq::<u32>::empty(), next)
    } else {
        let (v1, ids, n1) = encode_words(v, next, ws.drop_last());
        let (v2, id, n2) = encode_word(v1, n1, ws.last());
        (v2, ids.push(id), n2)
    }
}

/// The characters of each word.
pub open spec fn word_views(words: Seq<String>) -> Seq<Seq<char>> {
    words.map_values(|s: String| s@)
}

/// Returns the id of `word` and the new counter, recording a new word in
/// `word_map`.
pub fn map_word_to_id(word: String, next_word_id: u32, word_map: &mut HashMap<String, u32>) -> (r:
    (u32, u32))
    requires
        next_word_id < u32::MAX,
    ensures
        (vocab_of(*final(word_map)), r.0, r.1) == encode_word(
            vocab_of(*old(word_map)),
            next_word_id,
            word@,
        ),
{
    if dict_is_empty(word_map) {
        dict_insert(word_map, word, 0);
        return (0, 0);
    }
    match dict_get(word_map, &word) {
        Some(id) => (id, next_word_id),
        None => {
            let id = next_word_id + 1;
            dict_insert(word_map, word, id);
            (id, id)
        },
    }
}

/// Encodes `words` in order against `word_map`: returns their ids and the new
/// counter.
pub fn map_words_to_vec_u32(
    words: Vec<String>,
    next_word_id: u32,
    word_map: &mut HashMap<String, u32>,
) -> (r: (Vec<u32>, u32))
    requires
        next_word_id + words.len() <= u32::MAX,
    ensures
        (vocab_of(*final(word_map)), r.0@, r.1) == encode_words(
            vocab_of(*old(word_map)),
            next_word_id,
            word_views(words@),
        ),
{
    let ghost v0 = vocab_of(*word_map);
    let ghost ws = word_views(words@);
    let mut word_ids: Vec<u32> = Vec::new();
    let mut next_id = next_word_id;
    let mut i: usize = 0;
    while i < words.len()
        invariant
            0 <= i <= words.len(),
            next_word_id + words.len() <= u32::MAX,
            ws == word_views(words@),
            next_id <= next_word_id + i,
            (vocab_of(*word_map), word_ids@, next_id) == encode_words(
                v0,
                next_word_id,
                ws.take(i as int),
            ),
        decreases words.len() - i,
    {
        proof {
            assert(ws.take(i + 1).drop_last() =~= ws.take(i as int));
        }
        let word = words[i].clone();
        let (current_word_id, id) = map_word_to_id(word, next_id, word_map);
        next_id = id;
        word_ids.push(current_word_id);
        i = i + 1;
    }
    proof {
        assert(ws.take(words.len() as int) =~= ws);
    }
    (word_ids, next_id)
}

proof fn lemma_encode_word(v: Map<Seq<char>, u32>, next: u32, w: Seq<char>)
    requires
        vocab_wf(v, next),
        next < u32::MAX,
    ensures
        ({
            let (v2, id, n2) = encode_word(v, next, w);
            &&& vocab_wf(v2, n2)
            &&& v2.contains_key(w) && v2[w] == id
            &&& n2 <= next + 1
            &&& forall|x: Seq<char>| #[trigger]
                v.contains_key(x) ==> v2.contains_key(x) && v2[x] == v[x]
            &&& v.contains_key(w) || forall|x: Seq<char>| #[trigger]
                v.contains_key(x) ==> v[x] != id
        }),
{
}

/// Encoding is consistent: two positions get the same id exactly when they
/// hold the same word, every word ends up in the vocabulary under the id it
/// was given, and the well-formedness of the vocabulary is kept.
pub proof fn lemma_encode_words_consistent(
    v: Map<Seq<char>, u32>,
    next: u32,
    ws: Seq<Seq<char>>,
)
    requires
        vocab_wf(v, next),
        next + ws.len() <= u32::MAX,
    ensures
        ({
            let (v2, ids, n2) = encode_words(v, next, ws);
            &&& ids.len() == ws.len()
            &&& vocab_wf(v2, n2)
            &&& n2 <= next + ws.len()
            &&& forall|i: int| #![auto] 0 <= i < ws.len() ==> v2.contains_key(ws[i]) && v2[ws[i]] == ids[i]
            &&& forall|i: int, j: int|
                0 <= i < ws.len() && 0 <= j < ws.len() ==> (#[trigger] ws[i] == #[trigger] ws[j]) == (ids[i] == ids[j])
            &&& forall|x: Seq<char>| #[trigger]
                v.contains_key(x) ==> v2.contains_key(x) && v2[x] == v[x]
        }),
    decreases ws.len(),
{
    if ws.len() > 0 {
        let p = ws.drop_last();
        lemma_encode_words_consistent(v, next, p);
        let (v1, ids1, n1) = encode_words(v, next, p);
        lemma_encode_word(v1, n1, ws.last());
        let (v2, ids, n2) = encode_words(v, next, ws);
        assert forall|i: int| #![auto] 0 <= i < ws.len() implies v2.contains_key(ws[i]) && v2[ws[i]] == ids[i] by {
            if i < ws.len() - 1 {
                assert(ws[i] == p[i]);
                assert(v1.contains_key(p[i]));
            }
        }
        assert forall|i: int, j: int|
            0 <= i < ws.len() && 0 <= j < ws.len() implies (#[trigger] ws[i] == #[trigger] ws[j]) == (ids[i] == ids[j]) by {
            if i < ws.len() - 1 {
                assert(ws[i] == p[i]);
                assert(v1.contains_key(p[i]));
            }
            if j < ws.len() - 1 {
                assert(ws[j] == p[j]);
                assert(v1.contains_key(p[j]));
            }
            assert(v2.contains_key(ws[i]) && v2[ws[i]] == ids[i]);
            assert(v2.contains_key(ws[j]) && v2[ws[j]] == ids[j]);
        }
        assert forall|x: Seq<char>| #[trigger] v.contains_key(x) implies v2.contains_key(x) && v2[x] == v[x] by {
            assert(v1.contains_key(x));
        }
    }
}

/// The number of distinct ids that encoding produces equals the number of
/// distinct words encoded.
pub proof fn lemma_encode_words_distinct_count(
    v: Map<Seq<char>, u32>,
    next: u32,
    ws: Seq<Seq<char>>,
)
    requires
        vocab_wf(v, next),
        next + ws.len() <= u32::MAX,
    ensures
        encode_words(v, next, ws).1.to_set().len() == ws.to_set().len(),
    decreases ws.len(),
{
    broadcast use vstd::seq_lib::group_seq_properties;
    broadcast use vstd::seq_lib::seq_to_set_is_finite;

    if ws.len() == 0 {
        assert(ws.to_set() =~= Set::<Seq<char>>::empty());
        assert(encode_words(v, next, ws).1.to_set() =~= Set::<u32>::empty());
    } else {
        let p = ws.drop_last();
        let w = ws.last();
        lemma_encode_words_distinct_count(v, next, p);
        lemma_encode_words_consistent(v, next, ws);
        let ids = encode_words(v, next, ws).1;
        let ids1 = encode_words(v, next, p).1;
        assert(p.push(w) =~= ws);
        assert(ids1.push(ids.last()) =~= ids);
        let k = ws.len() - 1;
        assert(p.contains(w) == ids1.contains(ids[k])) by {
            if p.contains(w) {
                let i = choose|i: int| 0 <= i < p.len() && p[i] == w;
                assert(ws[i] == ws[k]);
                assert(ids1[i] == ids[i]);
            }
            if ids1.contains(ids[k]) {
                let i = choose|i: int| 0 <= i < ids1.len() && ids1[i] == ids[k];
                assert(ids[i] == ids[k]);
                assert(ws[i] == ws[k]);
                assert(p[i] == w);
            }
        }
        p.lemma_push_to_set_commute(w);
        ids1.lemma_push_to_set_commute(ids[k]);
        assert(p.contains(w) == p.to_set().contains(w));
        assert(ids1.contains(ids[k]) == ids1.to_set().contains(ids[k]));
    }
}

} // verus!
