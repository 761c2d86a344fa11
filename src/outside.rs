//! The calls into outside crates that the library relies on, with what each
//! promises.
use itertools::Itertools;
use vstd::prelude::*;

verus! {

#[verifier::external_type_specification]
#[verifier::external_body]
#[verifier::reject_recursive_types(K)]
#[verifier::reject_recursive_types(V)]
pub struct ExTrie<K: Eq + Ord + Clone, V>(ptrie::Trie<K, V>);

#[verifier::external_type_specification]
#[verifier::external_body]
pub struct ExJieba(jieba_rs::Jieba);

/// What a prefix tree of character keys holds: a value per key.
pub uninterp spec fn trie_contents(t: ptrie::Trie<char, usize>) -> Map<Seq<char>, usize>;

/// Relies on `ptrie::Trie::new`: a tree with no keys.
#[verifier::external_body]
pub(crate) fn trie_new() -> (r: ptrie::Trie<char, usize>)
    ensures
        trie_contents(r).dom() == Set::<Seq<char>>::empty(),
{
    ptrie::Trie::new()
}

/// Relies on `ptrie::Trie::insert`: the key now maps to the value, replacing
/// any earlier value; other keys are untouched.
#[verifier::external_body]
pub(crate) fn trie_insert(t: &mut ptrie::Trie<char, usize>, key: &Vec<char>, from: usize, v: usize)
    requires
        from <= key.len(),
    ensures
        trie_contents(*final(t)) == trie_contents(*old(t)).insert(
            key@.subrange(from as int, key.len() as int),
            v,
        ),
{
    t.insert(key[from..].iter().copied(), v)
}

/// Relies on `ptrie::Trie::get`: the value stored under exactly this key.
#[verifier::external_body]
pub(crate) fn trie_get(t: &ptrie::Trie<char, usize>, key: &Vec<char>) -> (r: Option<usize>)
    ensures
        r == (if trie_contents(*t).contains_key(key@) {
            Some(trie_contents(*t)[key@])
        } else {
            None
        }),
{
    t.get(key.iter().copied()).copied()
}

/// Relies on `ptrie::Trie::find_postfixes`: the values of every key that
/// starts with `prefix`, and nothing else.
#[verifier::external_body]
pub(crate) fn trie_find_postfixes(t: &ptrie::Trie<char, usize>, prefix: &Vec<char>) -> (r: Vec<usize>)
    ensures
        forall|i: int|
            0 <= i < r@.len() ==> exists|k: Seq<char>|
                #![trigger trie_contents(*t)[k]]
                trie_contents(*t).contains_key(k) && prefix@.is_prefix_of(k) && trie_contents(
                    *t,
                )[k] == #[trigger] r@[i],
        forall|k: Seq<char>|
            trie_contents(*t).contains_key(k) && prefix@.is_prefix_of(k) ==> r@.contains(
                #[trigger] trie_contents(*t)[k],
            ),
{
    t.find_postfixes(prefix.iter().copied()).into_iter().copied().collect()
}

/// The words that the default dictionary segmentation cuts a text into.
pub uninterp spec fn segments_of(s: Seq<char>) -> Seq<Seq<char>>;

/// A word segmenter over the default dictionary.
pub struct Segmenter {
    jieba: jieba_rs::Jieba,
}

impl Segmenter {
    /// Relies on `jieba_rs::Jieba::new`: loads the default dictionary.
    #[verifier::external_body]
    pub fn new() -> (r: Segmenter) {
        Segmenter { jieba: jieba_rs::Jieba::new() }
    }

    /// Relies on `jieba_rs::Jieba::cut` without the hidden Markov model: the
    /// words of `s`. A `Segmenter` is only ever built on the default dictionary,
    /// so the words depend on the text alone.
    #[verifier::external_body]
    pub(crate) fn cut(&self, s: &str) -> (r: Vec<String>)
        ensures
            r@.map_values(|t: String| t@) == segments_of(s@),
    {
        self.jieba.cut(s, false).into_iter().map(|t| t.word.to_owned()).collect()
    }
}

/// Relies on `itertools::Itertools::unique`: each item once, at its first
/// occurrence, in order.
#[verifier::external_body]
pub(crate) fn unique_ids(v: Vec<usize>) -> (r: Vec<usize>)
    ensures
        r@ == first_occurrences(v@),
{
    v.into_iter().unique().collect()
}

/// `s` with every item after its first occurrence removed.
pub open spec fn first_occurrences(s: Seq<usize>) -> Seq<usize>
    decreases s.len(),
{
    if s.len() == 0 {
        s
    } else {
        let r = first_occurrences(s.drop_last());
        if r.contains(s.last()) {
            r
        } else {
            r.push(s.last())
        }
    }
}

/// Relies on `itertools::Itertools::k_largest_by_key` on the score: at most
/// three items of `items`, highest score first, and no item left out scores
/// more than the lowest one kept.
#[verifier::external_body]
pub(crate) fn top_three(items: Vec<(i128, usize)>) -> (r: Vec<(i128, usize)>)
    ensures
        r@.len() == (if items@.len() < 3 { items@.len() } else { 3 }),
        r@.to_multiset().subset_of(items@.to_multiset()),
        forall|i: int, j: int| 0 <= i < j < r@.len() ==> r@[j].0 <= r@[i].0,
        forall|x: (i128, usize)|
            r@.len() > 0 && items@.to_multiset().count(x) > r@.to_multiset().count(x) ==> x.0
                <= r@[r@.len() - 1].0,
{
    items.into_iter().k_largest_by_key(3, |x| x.0).collect()
}

/// The Unicode name of a character, if it has one.
pub uninterp spec fn unicode_name(c: char) -> Option<Seq<char>>;

/// Relies on `unicode_names2::name`: the character's Unicode name, written out.
#[verifier::external_body]
pub(crate) fn char_name(c: char) -> (r: Option<String>)
    ensures
        match r {
            Some(n) => unicode_name(c) == Some(n@),
            None => unicode_name(c) is None,
        },
{
    unicode_names2::name(c).map(|n| n.to_string())
}

/// `s` keeping only the first item of each key.
pub open spec fn first_by_key(s: Seq<(u64, usize)>) -> Seq<(u64, usize)>
    decreases s.len(),
{
    if s.len() == 0 {
        s
    } else {
        let r = first_by_key(s.drop_last());
        if exists|i: int| 0 <= i < r.len() && r[i].0 == s.last().0 {
            r
        } else {
            r.push(s.last())
        }
    }
}

/// Relies on `itertools::Itertools::unique_by` on the key: the first item of
/// each key, in order.
#[verifier::external_body]
pub(crate) fn unique_by_key(v: Vec<(u64, usize)>) -> (r: Vec<(u64, usize)>)
    ensures
        r@ == first_by_key(v@),
{
    v.into_iter().unique_by(|x| x.0).collect()
}

pub proof fn lemma_first_by_key_from(s: Seq<(u64, usize)>, x: (u64, usize))
    ensures
        first_by_key(s).contains(x) ==> s.contains(x),
    decreases s.len(),
{
    if s.len() > 0 {
        let r = first_by_key(s.drop_last());
        lemma_first_by_key_from(s.drop_last(), x);
        vstd::seq_lib::lemma_seq_contains_after_push(r, s.last(), x);
        assert(s =~= s.drop_last().push(s.last()));
        vstd::seq_lib::lemma_seq_contains_after_push(s.drop_last(), s.last(), x);
    }
}

} // verus!
