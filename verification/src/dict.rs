use vstd::prelude::*;
use radix_trie::Trie;
use radix_trie::TrieCommon;

verus! {

#[verifier::external_type_specification]
#[verifier::external_body]
#[verifier::reject_recursive_types(K)]
#[verifier::reject_recursive_types(V)]
pub struct ExTrie<K, V>(Trie<K, V>);

/// The set of complete words a dictionary trie stores, as character sequences.
pub uninterp spec fn trie_words(t: Trie<String, ()>) -> Set<Seq<char>>;

/// Some stored word extends the query: the query is a prefix of it.
pub open spec fn has_prefix_in(words: Set<Seq<char>>, s: Seq<char>) -> bool {
    exists|w: Seq<char>| #[trigger] words.contains(w) && s.is_prefix_of(w)
}

/// Relies on radix_trie's Trie::new: a freshly created trie stores no keys.
#[verifier::external_body]
pub(crate) fn trie_new() -> (t: Trie<String, ()>)
    ensures
        trie_words(t) == Set::<Seq<char>>::empty(),
{
    Trie::new()
}

/// Relies on radix_trie's Trie::insert: afterwards the stored keys are the
/// old ones together with the given one.
#[verifier::external_body]
pub(crate) fn trie_insert(t: &mut Trie<String, ()>, w: String)
    ensures
        trie_words(*final(t)) == trie_words(*old(t)).insert(w@),
{
    t.insert(w, ());
}

/// Relies on radix_trie's Trie::get: it returns Some exactly when the key is
/// a stored word.
#[verifier::external_body]
pub(crate) fn trie_is_word(t: &Trie<String, ()>, s: &String) -> (r: bool)
    ensures
        r == trie_words(*t).contains(s@),
{
    t.get(s).is_some()
}

/// Relies on radix_trie's Trie::get_raw_descendant: it finds a subtrie node
/// exactly when the query is empty or some stored key extends the query.
#[verifier::external_body]
pub(crate) fn trie_has_prefix(t: &Trie<String, ()>, s: &String) -> (r: bool)
    ensures
        r == (s@.len() == 0 || has_prefix_in(trie_words(*t), s@)),
{
    t.get_raw_descendant(s).is_some()
}

/// Relies on radix_trie's TrieCommon::is_empty: the stored pair count is
/// zero exactly when no key is stored.
#[verifier::external_body]
pub(crate) fn trie_is_empty(t: &Trie<String, ()>) -> (r: bool)
    ensures
        r == (trie_words(*t) == Set::<Seq<char>>::empty()),
{
    t.is_empty()
}

/// Whether the dictionary stores the query as a complete word.
pub fn is_word(t: &Trie<String, ()>, s: &String) -> (r: bool)
    ensures
        r == trie_words(*t).contains(s@),
{
    trie_is_word(t, s)
}

/// Whether some stored word has the query as a prefix, the query itself
/// included.  On an empty dictionary every query answers false, the empty
/// query too.
pub fn contains_prefix(t: &Trie<String, ()>, s: &String) -> (r: bool)
    ensures
        r == has_prefix_in(trie_words(*t), s@),
{
    if trie_is_empty(t) {
        proof {
            if has_prefix_in(trie_words(*t), s@) {
                let w = choose|w: Seq<char>|
                    #[trigger] trie_words(*t).contains(w) && s@.is_prefix_of(w);
            }
        }
        false
    } else {
        let r = trie_has_prefix(t, s);
        proof {
            if s@.len() == 0 {
                assert(exists|w: Seq<char>| trie_words(*t).contains(w)) by {
                    if forall|w: Seq<char>| !trie_words(*t).contains(w) {
                        assert(trie_words(*t) =~= Set::<Seq<char>>::empty());
                    }
                }
                let w = choose|w: Seq<char>| trie_words(*t).contains(w);
                assert(s@ =~= Seq::<char>::empty());
                assert(s@ =~= w.subrange(0, 0));
                assert(s@.is_prefix_of(w));
                assert(has_prefix_in(trie_words(*t), s@));
            }
        }
        r
    }
}

/// The words of a list, as a set of character sequences.
pub open spec fn word_set(ws: Seq<String>) -> Set<Seq<char>>
    decreases ws.len(),
{
    if ws.len() == 0 {
        Set::<Seq<char>>::empty()
    } else {
        word_set(ws.drop_last()).insert(ws.last()@)
    }
}

/// Load a word list, one entry per line of the source, into the prefix
/// dictionary.
pub fn build_trie(words: &Vec<String>) -> (t: Trie<String, ()>)
    ensures
        trie_words(t) == word_set(words@),
{
    let mut t = trie_new();
    let mut n: usize = 0;
    while n < words.len()
        invariant
            0 <= n <= words@.len(),
            trie_words(t) == word_set(words@.take(n as int)),
        decreases words@.len() - n,
    {
        let w = words[n].clone();
        trie_insert(&mut t, w);
        proof {
            assert(words@.take(n as int + 1).drop_last() =~= words@.take(n as int));
            assert(words@.take(n as int + 1).last() == words@[n as int]);
        }
        n = n + 1;
    }
    proof {
        assert(words@.take(words@.len() as int) =~= words@);
    }
    t
}

/// Prefix admissibility is monotone: when the whole string is still a live
/// prefix of some stored word, so is each of its leading pieces.  This is
/// the fact that makes prefix pruning sound.
pub proof fn lemma_prefix_monotone(words: Set<Seq<char>>, s: Seq<char>, k: int)
    requires
        has_prefix_in(words, s),
        0 <= k <= s.len(),
    ensures
        has_prefix_in(words, s.take(k)),
{
    let w = choose|w: Seq<char>| #[trigger] words.contains(w) && s.is_prefix_of(w);
    assert(s =~= w.subrange(0, s.len() as int));
    assert(s.take(k) =~= w.subrange(0, k));
    assert(s.take(k).is_prefix_of(w));
}

/// Soundness of pruning, over a whole path's string: when the accumulated
/// string still begins some stored word, every prefix walked through on the
/// way to it did too.
pub proof fn lemma_pruning_sound(words: Set<Seq<char>>, s: Seq<char>)
    requires
        has_prefix_in(words, s),
    ensures
        forall|k: int| 0 <= k <= s.len() ==> has_prefix_in(words, #[trigger] s.take(k)),
{
    assert forall|k: int| 0 <= k <= s.len() implies has_prefix_in(words, #[trigger] s.take(k)) by {
        lemma_prefix_monotone(words, s, k);
    }
}

} // verus!
