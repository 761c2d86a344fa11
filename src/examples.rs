//! Matching corpus sentences to word entries as examples.
//!
//! Scores are exact fixed-point numbers: a length bonus is counted in units of
//! `1 / LB_ONE`, priorities in units of `1 / PRIORITY_ONE`, and a sentence score
//! in units of `1 / (LB_ONE * PRIORITY_ONE)`.
use crate::entry::{chars_of, string_of, CommonEntry};
use crate::outside::{
    first_by_key, lemma_first_by_key_from, unique_by_key, first_occurrences, segments_of, top_three, trie_contents, trie_find_postfixes, trie_get,
    trie_insert, trie_new, unique_ids, Segmenter,
};
use crate::priority::PRIORITY_ONE;
use crate::selection::nested_view;
use crate::utils::{is_good_cjk, is_good_cjk_spec};
use vstd::prelude::*;
use vstd::string::*;

verus! {

/// A length bonus of 1.0.
pub const LB_ONE: u64 = 7_340_032;

/// `LB_ONE / 7`: the bonus of each qualifying character below the band.
pub const LB_STEP: u64 = 1_048_576;

/// The target band of qualifying characters.
pub const BAND_MIN: usize = 7;
pub const BAND_MAX: usize = 14;

/// How many characters of `s` are ideographic.
pub open spec fn qualifying_len(s: Seq<char>) -> nat
    decreases s.len(),
{
    if s.len() == 0 {
        0
    } else {
        qualifying_len(s.drop_last()) + (if is_good_cjk_spec(s.last() as u32) {
            1nat
        } else {
            0nat
        })
    }
}

/// `x` halved `k` times, rounding down each time.
pub open spec fn halvings(x: nat, k: nat) -> nat
    decreases k,
{
    if k == 0 {
        x
    } else {
        halvings(x, (k - 1) as nat) / 2
    }
}

/// 1.0 within the band, `l / 7` below it, and halved for each character above it.
pub open spec fn length_bonus_spec(l: nat) -> nat {
    if l < BAND_MIN {
        (l * LB_STEP) as nat
    } else if l <= BAND_MAX {
        LB_ONE as nat
    } else {
        halvings(LB_ONE as nat, (l - BAND_MAX) as nat)
    }
}

pub fn qualifying_count(s: &str) -> (r: usize)
    ensures
        r == qualifying_len(s@),
{
    let n = s.unicode_len();
    let mut r: usize = 0;
    let mut i: usize = 0;
    while i < n
        invariant
            i <= n,
            n == s@.len(),
            r == qualifying_len(s@.subrange(0, i as int)),
            r <= i,
        decreases n - i,
    {
        proof {
            assert(s@.subrange(0, i + 1).drop_last() =~= s@.subrange(0, i as int));
        }
        if is_good_cjk(s.get_char(i)) {
            r += 1;
        }
        i += 1;
    }
    proof {
        assert(s@.subrange(0, n as int) =~= s@);
    }
    r
}

/// The length bonus of a sentence with `l` qualifying characters.
pub fn length_bonus(l: usize) -> (r: u64)
    ensures
        r == length_bonus_spec(l as nat),
        r <= LB_ONE,
{
    if l < BAND_MIN {
        l as u64 * LB_STEP
    } else if l <= BAND_MAX {
        LB_ONE
    } else {
        let mut d: u64 = LB_ONE;
        let mut k: usize = 0;
        while k < l - BAND_MAX
            invariant
                k <= l - BAND_MAX,
                d == halvings(LB_ONE as nat, k as nat),
                d <= LB_ONE,
            decreases l - BAND_MAX - k,
        {
            d = d / 2;
            k += 1;
        }
        d
    }
}

/// A sentence at either end of the band gets the full bonus; one character
/// below the band gets strictly less, and so does one character above it.
pub proof fn lemma_length_bonus_band()
    ensures
        length_bonus_spec(BAND_MIN as nat) == LB_ONE,
        length_bonus_spec(BAND_MAX as nat) == LB_ONE,
        length_bonus_spec((BAND_MIN - 1) as nat) < length_bonus_spec(BAND_MIN as nat),
        length_bonus_spec((BAND_MAX + 1) as nat) < length_bonus_spec(BAND_MAX as nat),
{
    assert(halvings(LB_ONE as nat, 1) == halvings(LB_ONE as nat, 0) / 2);
}

/// The characters of `t` without the spaces at either end.
pub open spec fn trim_spaces(t: Seq<char>) -> Seq<char>
    decreases t.len(),
{
    if t.len() > 0 && t[0] == ' ' {
        trim_spaces(t.drop_first())
    } else if t.len() > 0 && t.last() == ' ' {
        trim_spaces(t.drop_last())
    } else {
        t
    }
}

/// The non-empty trimmed words of `ws`, in order.
pub open spec fn clean_tokens(ws: Seq<Seq<char>>) -> Seq<Seq<char>>
    decreases ws.len(),
{
    if ws.len() == 0 {
        Seq::empty()
    } else {
        let r = clean_tokens(ws.drop_last());
        let t = trim_spaces(ws.last());
        if t.len() > 0 {
            r.push(t)
        } else {
            r
        }
    }
}

/// `s` with every character that is not ideographic turned into a space.
pub open spec fn masked(s: Seq<char>) -> Seq<char> {
    Seq::new(s.len(), |i: int| if is_good_cjk_spec(s[i] as u32) { s[i] } else { ' ' })
}

/// The vocabulary of a sentence: its segmentation, with other characters
/// serving only as boundaries.
pub open spec fn sentence_tokens(s: Seq<char>) -> Seq<Seq<char>> {
    clean_tokens(segments_of(masked(s)))
}

/// A corpus sentence pair with its vocabulary.
#[derive(Clone, Debug)]
pub struct Example {
    pub tokens: Vec<String>,
    pub zh: String,
    pub en: String,
}

pub open spec fn strings_view(v: Seq<String>) -> Seq<Seq<char>> {
    v.map_values(|s: String| s@)
}

fn trimmed(t: &String) -> (r: String)
    ensures
        r@ == trim_spaces(t@),
{
    let cs = chars_of(t.as_str());
    let mut lo: usize = 0;
    let mut hi: usize = cs.len();
    proof {
        assert(cs@.subrange(0, cs.len() as int) =~= t@);
    }
    while lo < hi && (cs[lo] == ' ' || cs[hi - 1] == ' ')
        invariant
            lo <= hi <= cs.len(),
            cs@ == t@,
            trim_spaces(cs@.subrange(lo as int, hi as int)) == trim_spaces(t@),
        decreases hi - lo,
    {
        let ghost u = cs@.subrange(lo as int, hi as int);
        if cs[lo] == ' ' {
            proof {
                assert(u.drop_first() =~= cs@.subrange(lo + 1, hi as int));
            }
            lo += 1;
        } else {
            proof {
                assert(u.drop_last() =~= cs@.subrange(lo as int, hi - 1));
            }
            hi -= 1;
        }
    }
    let mut out: Vec<char> = Vec::new();
    let mut i: usize = lo;
    while i < hi
        invariant
            lo <= i <= hi <= cs.len(),
            out@ == cs@.subrange(lo as int, i as int),
        decreases hi - i,
    {
        out.push(cs[i]);
        proof {
            assert(out@ =~= cs@.subrange(lo as int, i + 1));
        }
        i += 1;
    }
    proof {
        assert(cs@.subrange(0, cs.len() as int) =~= t@);
        let u = cs@.subrange(lo as int, hi as int);
        assert(trim_spaces(u) == u);
    }
    string_of(&out)
}

impl Example {
    /// A sentence pair with its vocabulary worked out.
    pub fn new(zh: String, en: String, seg: &Segmenter) -> (r: Example)
        ensures
            r.zh@ == zh@,
            r.en@ == en@,
            strings_view(r.tokens@) == sentence_tokens(zh@),
    {
        let cs = chars_of(zh.as_str());
        let mut m: Vec<char> = Vec::new();
        let mut i: usize = 0;
        while i < cs.len()
            invariant
                i <= cs.len(),
                cs@ == zh@,
                m@.len() == i,
                forall|j: int| 0 <= j < i ==> m@[j] == masked(zh@)[j],
            decreases cs.len() - i,
        {
            let c = cs[i];
            if is_good_cjk(c) {
                m.push(c);
            } else {
                m.push(' ');
            }
            i += 1;
        }
        proof {
            assert(m@ =~= masked(zh@));
        }
        let ms = string_of(&m);
        let words = seg.cut(ms.as_str());
        let mut tokens: Vec<String> = Vec::new();
        let mut k: usize = 0;
        while k < words.len()
            invariant
                k <= words.len(),
                strings_view(words@) == segments_of(masked(zh@)),
                strings_view(tokens@) == clean_tokens(strings_view(words@.subrange(0, k as int))),
            decreases words.len() - k,
        {
            proof {
                assert(strings_view(words@.subrange(0, k + 1)).drop_last() =~= strings_view(
                    words@.subrange(0, k as int),
                ));
            }
            let t = trimmed(&words[k]);
            let ghost before = strings_view(tokens@);
            if t.as_str().unicode_len() > 0 {
                tokens.push(t);
                proof {
                    assert(strings_view(tokens@) =~= before.push(t@));
                }
            }
            k += 1;
        }
        proof {
            assert(words@.subrange(0, words.len() as int) =~= words@);
        }
        Example { tokens, zh, en }
    }
}

// ---------------------------------------------------------------------------
// The words of the output and their priorities.

/// The words among `entries`, in order, each with the priority of its entry.
pub open spec fn word_list(entries: Seq<CommonEntry>, prio: Seq<u64>) -> Seq<(Seq<char>, u64)>
    decreases entries.len(),
{
    if entries.len() == 0 || prio.len() == 0 {
        Seq::empty()
    } else {
        let r = word_list(entries.drop_last(), prio.drop_last());
        match entries.last() {
            CommonEntry::WordEntry(w) => r.push((w.id@, prio.last())),
            _ => r,
        }
    }
}

/// Each word's position in `list`; a later duplicate replaces an earlier one.
pub open spec fn word_positions(list: Seq<(Seq<char>, u64)>) -> Map<Seq<char>, usize>
    decreases list.len(),
{
    if list.len() == 0 {
        Map::empty()
    } else {
        word_positions(list.drop_last()).insert(list.last().0, (list.len() - 1) as usize)
    }
}

/// The output's words as values: each word's position among the words, and
/// the priority at each position.
pub struct WordTable {
    pub positions: Map<Seq<char>, usize>,
    pub priorities: Seq<u64>,
}

/// The table of the words among `entries`, whose priorities are `prio`.
pub open spec fn word_table(entries: Seq<CommonEntry>, prio: Seq<u64>) -> WordTable {
    WordTable {
        positions: word_positions(word_list(entries, prio)),
        priorities: word_list(entries, prio).map_values(|x: (Seq<char>, u64)| x.1),
    }
}

/// The position and priority of the word `s`, if it is one of the table's words.
pub open spec fn table_info(t: WordTable, s: Seq<char>) -> Option<(int, int)> {
    if t.positions.contains_key(s) {
        Some((t.positions[s] as int, t.priorities[t.positions[s] as int] as int))
    } else {
        None
    }
}

/// Lookup of the output's words by text: each word's position among the words
/// and its priority.
pub struct WordIndex {
    trie: ptrie::Trie<char, usize>,
    prio: Vec<u64>,
}

impl WordIndex {
    pub closed spec fn table(&self) -> WordTable {
        WordTable { positions: trie_contents(self.trie), priorities: self.prio@ }
    }

    pub open spec fn positions(&self) -> Map<Seq<char>, usize> {
        self.table().positions
    }

    pub open spec fn priorities(&self) -> Seq<u64> {
        self.table().priorities
    }

    pub open spec fn wf(&self) -> bool {
        forall|k: Seq<char>|
            #[trigger] self.positions().contains_key(k) ==> self.positions()[k]
                < self.priorities().len()
    }

    /// The position and priority of the word `t`, if it is one of the output's words.
    pub open spec fn info(&self, t: Seq<char>) -> Option<(int, int)> {
        table_info(self.table(), t)
    }

    /// The index of the words among `entries`, whose priorities are `prio`.
    pub fn build(entries: &Vec<CommonEntry>, prio: &Vec<u64>) -> (r: WordIndex)
        requires
            entries@.len() == prio@.len(),
        ensures
            r.wf(),
            r.table() == word_table(entries@, prio@),
            r.positions() == word_positions(word_list(entries@, prio@)),
            r.priorities() == word_list(entries@, prio@).map_values(|x: (Seq<char>, u64)| x.1),
    {
        let mut trie = trie_new();
        let mut ps: Vec<u64> = Vec::new();
        let mut k: usize = 0;
        proof {
            assert(trie_contents(trie) =~= Map::<Seq<char>, usize>::empty());
        }
        while k < entries.len()
            invariant
                k <= entries.len(),
                entries@.len() == prio@.len(),
                trie_contents(trie) == word_positions(
                    word_list(entries@.subrange(0, k as int), prio@.subrange(0, k as int)),
                ),
                ps@ == word_list(entries@.subrange(0, k as int), prio@.subrange(0, k as int)).map_values(
                    |x: (Seq<char>, u64)| x.1,
                ),
            decreases entries.len() - k,
        {
            let ghost l0 = word_list(entries@.subrange(0, k as int), prio@.subrange(0, k as int));
            proof {
                assert(entries@.subrange(0, k + 1).drop_last() =~= entries@.subrange(0, k as int));
                assert(prio@.subrange(0, k + 1).drop_last() =~= prio@.subrange(0, k as int));
            }
            match &entries[k] {
                CommonEntry::WordEntry(w) => {
                    let key = chars_of(w.id.as_str());
                    let n = ps.len();
                    trie_insert(&mut trie, &key, 0, n);
                    ps.push(prio[k]);
                    proof {
                        assert(key@.subrange(0, key@.len() as int) =~= key@);
                        let l1 = word_list(
                            entries@.subrange(0, k + 1),
                            prio@.subrange(0, k + 1),
                        );
                        assert(l1 == l0.push((w.id@, prio@[k as int])));
                        assert(l1.drop_last() =~= l0);
                        assert(ps@ =~= l1.map_values(|x: (Seq<char>, u64)| x.1));
                    }
                },
                _ => {},
            }
            k += 1;
        }
        proof {
            assert(entries@.subrange(0, entries.len() as int) =~= entries@);
            assert(prio@.subrange(0, prio.len() as int) =~= prio@);
            lemma_word_list_len(entries@, prio@);
            lemma_word_positions_below(word_list(entries@, prio@));
        }
        WordIndex { trie, prio: ps }
    }

    /// The position and priority of the word `t`, if it is one of the output's words.
    pub fn lookup(&self, t: &String) -> (r: Option<(usize, u64)>)
        requires
            self.wf(),
        ensures
            match r {
                Some((o, p)) => self.info(t@) == Some((o as int, p as int)),
                None => self.info(t@) is None,
            },
    {
        let key = chars_of(t.as_str());
        proof {
            assert(self.positions() == trie_contents(self.trie));
            assert(self.priorities() == self.prio@);
        }
        match trie_get(&self.trie, &key) {
            Some(o) => Some((o, self.prio[o])),
            None => None,
        }
    }
}

pub proof fn lemma_word_list_len(entries: Seq<CommonEntry>, prio: Seq<u64>)
    ensures
        word_list(entries, prio).len() <= entries.len(),
    decreases entries.len(),
{
    if entries.len() > 0 && prio.len() > 0 {
        lemma_word_list_len(entries.drop_last(), prio.drop_last());
    }
}

pub proof fn lemma_word_positions_below(list: Seq<(Seq<char>, u64)>)
    requires
        list.len() <= usize::MAX,
    ensures
        forall|k: Seq<char>|
            #[trigger] word_positions(list).contains_key(k) ==> word_positions(list)[k] < list.len(),
    decreases list.len(),
{
    if list.len() > 0 {
        lemma_word_positions_below(list.drop_last());
        let m0 = word_positions(list.drop_last());
        let m = word_positions(list);
        assert(m == m0.insert(list.last().0, (list.len() - 1) as usize));
        assert forall|k: Seq<char>| #[trigger] m.contains_key(k) implies m[k] < list.len() by {
            if k != list.last().0 {
                assert(m0.contains_key(k));
            }
        }
    }
}

// ---------------------------------------------------------------------------
// Scoring.

/// What a token of a sentence adds to its usefulness, in priority units: 0.2
/// for a word unknown to the output, already taught, or at least as important
/// as the target; else four times its priority gap to the target.
pub open spec fn token_value(info: Option<(int, int)>, ord: int, pr: int) -> int {
    match info {
        None => (PRIORITY_ONE / 5) as int,
        Some((o, p)) => if o <= ord || p >= pr {
            (PRIORITY_ONE / 5) as int
        } else {
            4 * (p - pr)
        },
    }
}

pub open spec fn usefulness(t: WordTable, tokens: Seq<Seq<char>>, ord: int, pr: int) -> int
    decreases tokens.len(),
{
    if tokens.len() == 0 {
        0
    } else {
        usefulness(t, tokens.drop_last(), ord, pr) + token_value(table_info(t, tokens.last()), ord, pr)
    }
}

/// `3 * lengthBonus + 5 * tokenBonus + usefulness`, in units of
/// `1 / (LB_ONE * PRIORITY_ONE)`.
pub open spec fn score_spec(ex: Example, word: Seq<char>, ord: int, pr: int, t: WordTable) -> int {
    3 * length_bonus_spec(qualifying_len(ex.zh@)) * PRIORITY_ONE + (if strings_view(
        ex.tokens@,
    ).contains(word) {
        5 * LB_ONE * PRIORITY_ONE
    } else {
        0
    }) + usefulness(t, strings_view(ex.tokens@), ord, pr) * LB_ONE
}

/// Every priority is at most that of a syllable.
pub open spec fn priorities_capped(idx: WordIndex) -> bool {
    forall|i: int| 0 <= i < idx.priorities().len() ==> #[trigger] idx.priorities()[i] <= 10_000_000
}

/// The score of `ex` as an example of `word`, the word at position `ord` among
/// the output's words, of priority `pr`.
pub fn example_score(ex: &Example, word: &String, ord: usize, pr: u64, idx: &WordIndex) -> (r: i128)
    requires
        idx.wf(),
        priorities_capped(*idx),
        pr <= 10_000_000,
    ensures
        r == score_spec(*ex, word@, ord as int, pr as int, idx.table()),
{
    let lb = length_bonus(qualifying_count(ex.zh.as_str()));
    let mut exact = false;
    let mut useful: i128 = 0;
    let mut i: usize = 0;
    let ghost tv = strings_view(ex.tokens@);
    while i < ex.tokens.len()
        invariant
            i <= ex.tokens.len(),
            tv == strings_view(ex.tokens@),
            idx.wf(),
            priorities_capped(*idx),
            pr <= 10_000_000,
            exact == tv.subrange(0, i as int).contains(word@),
            useful == usefulness(idx.table(), tv.subrange(0, i as int), ord as int, pr as int),
            -40_000_000 * i <= useful <= 200_000 * i,
        decreases ex.tokens.len() - i,
    {
        let t = &ex.tokens[i];
        proof {
            assert(tv.subrange(0, i + 1).drop_last() =~= tv.subrange(0, i as int));
            assert(tv.subrange(0, i + 1).last() == t@);
            vstd::seq_lib::lemma_seq_contains_after_push(tv.subrange(0, i as int), t@, word@);
            assert(tv.subrange(0, i + 1) =~= tv.subrange(0, i as int).push(t@));
        }
        if *t == *word {
            exact = true;
        }
        let v: i128 = match idx.lookup(t) {
            None => (PRIORITY_ONE / 5) as i128,
            Some((o, p)) => {
                proof {
                    assert(idx.positions().contains_key(t@));
                    assert(o < idx.priorities().len());
                    assert(idx.priorities()[o as int] <= 10_000_000);
                }
                if o <= ord || p >= pr {
                    (PRIORITY_ONE / 5) as i128
                } else {
                    4 * (p as i128 - pr as i128)
                }
            },
        };
        useful = useful + v;
        i += 1;
    }
    proof {
        assert(tv.subrange(0, ex.tokens.len() as int) =~= tv);
    }
    let n = ex.tokens.len();
    assert(-40_000_000 * (n as int) * (LB_ONE as int) <= useful * (LB_ONE as int) <= 200_000 * (n as int) * (LB_ONE as int)) by (nonlinear_arith)
        requires
            -40_000_000 * n <= useful <= 200_000 * n,
    ;
    let base: i128 = 3 * (lb as i128) * (PRIORITY_ONE as i128) + if exact {
        5 * (LB_ONE as i128) * (PRIORITY_ONE as i128)
    } else {
        0
    };
    base + useful * (LB_ONE as i128)
}

/// The score of the sentence at position `c` of `corpus`.
pub open spec fn score_at(corpus: Seq<Example>, c: usize, word: Seq<char>, ord: int, pr: int, t: WordTable) -> int {
    score_spec(corpus[c as int], word, ord, pr, t)
}

pub proof fn lemma_first_occurrences(s: Seq<usize>, x: usize)
    ensures
        first_occurrences(s).contains(x) <==> s.contains(x),
        first_occurrences(s).no_duplicates(),
    decreases s.len(),
{
    if s.len() > 0 {
        let r = first_occurrences(s.drop_last());
        lemma_first_occurrences(s.drop_last(), x);
        assert(s =~= s.drop_last().push(s.last()));
        vstd::seq_lib::lemma_seq_contains_after_push(s.drop_last(), s.last(), x);
        vstd::seq_lib::lemma_seq_contains_after_push(r, s.last(), x);
        if !r.contains(s.last()) {
            assert(r.push(s.last()).no_duplicates()) by {
                assert forall|i: int, j: int| 0 <= i < j < r.len() + 1 implies r.push(s.last())[i]
                    != r.push(s.last())[j] by {
                    if j == r.len() {
                        assert(r.contains(r[i]));
                    }
                }
            }
        }
    }
}

/// `r` is the best-first top three of the distinct candidates `u` by score as
/// examples of `w`: as many as there are, up to three, each once; none left out
/// scores more than the last one kept.
pub open spec fn best_of(
    r: Seq<usize>,
    u: Seq<usize>,
    corpus: Seq<Example>,
    w: Seq<char>,
    ord: int,
    pr: int,
    t: WordTable,
) -> bool {
    &&& r.len() == (if u.len() < 3 { u.len() } else { 3 })
    &&& r.no_duplicates()
    &&& forall|i: int| 0 <= i < r.len() ==> u.contains(#[trigger] r[i])
    &&& forall|i: int, j: int|
        0 <= i < j < r.len() ==> score_at(corpus, r[j], w, ord, pr, t) <= score_at(
            corpus,
            r[i],
            w,
            ord,
            pr,
            t,
        )
    &&& forall|c: usize|
        u.contains(c) && !r.contains(c) ==> score_at(corpus, c, w, ord, pr, t) <= score_at(
            corpus,
            r[r.len() - 1],
            w,
            ord,
            pr,
            t,
        )
}

/// `u` lists, once each, corpus sentences in which `w` occurs, and, for a
/// non-empty `w`, every one of them.
pub open spec fn candidates_of(u: Seq<usize>, corpus: Seq<Example>, w: Seq<char>) -> bool {
    &&& u.no_duplicates()
    &&& forall|c: usize| #[trigger] u.contains(c) ==> c < corpus.len() && occurs_in(w, corpus[c as int].zh@)
    &&& w.len() > 0 ==> forall|c: usize|
        c < corpus.len() && occurs_in(w, corpus[c as int].zh@) ==> #[trigger] u.contains(c)
}

/// Of the distinct candidate sentences `cands`, the (at most) three that score
/// highest as examples of `word`, best first.
#[verifier::rlimit(50)]
pub fn best_examples(
    cands: &Vec<usize>,
    corpus: &Vec<Example>,
    word: &String,
    ord: usize,
    pr: u64,
    idx: &WordIndex,
) -> (r: Vec<usize>)
    requires
        idx.wf(),
        priorities_capped(*idx),
        pr <= 10_000_000,
        forall|i: int| 0 <= i < cands@.len() ==> cands@[i] < corpus@.len(),
    ensures
        best_of(r@, first_occurrences(cands@), corpus@, word@, ord as int, pr as int, idx.table()),
{
    let mut copy: Vec<usize> = Vec::new();
    let mut i: usize = 0;
    while i < cands.len()
        invariant
            i <= cands.len(),
            copy@ == cands@.subrange(0, i as int),
        decreases cands.len() - i,
    {
        copy.push(cands[i]);
        proof {
            assert(copy@ =~= cands@.subrange(0, i + 1));
        }
        i += 1;
    }
    proof {
        assert(copy@ =~= cands@);
    }
    let u = unique_ids(copy);
    let ghost uv = u@;
    proof {
        assert forall|j: int| 0 <= j < uv.len() implies uv[j] < corpus@.len() by {
            lemma_first_occurrences(cands@, uv[j]);
            assert(uv.contains(uv[j]));
        }
    }
    let mut items: Vec<(i128, usize)> = Vec::new();
    let mut j: usize = 0;
    while j < u.len()
        invariant
            j <= u.len(),
            uv == u@,
            forall|q: int| 0 <= q < uv.len() ==> uv[q] < corpus@.len(),
            idx.wf(),
            priorities_capped(*idx),
            pr <= 10_000_000,
            items@.len() == j,
            forall|q: int| 0 <= q < j ==> #[trigger] items@[q].1 == uv[q] && items@[q].0 as int == score_at(corpus@, uv[q], word@, ord as int, pr as int, idx.table()),
        decreases u.len() - j,
    {
        let c = u[j];
        let v = example_score(&corpus[c], word, ord, pr, idx);
        items.push((v, c));
        j += 1;
    }
    let ghost iv = items@;
    proof {
        assert(iv.len() == uv.len());
        assert forall|q: int| 0 <= q < iv.len() implies #[trigger] iv[q].1 == uv[q] && iv[q].0 as int
            == score_at(corpus@, uv[q], word@, ord as int, pr as int, idx.table()) by {
            assert(items@[q] == iv[q]);
        }
    }
    let top = top_three(items);
    let mut r: Vec<usize> = Vec::new();
    let mut k: usize = 0;
    proof {
        top@.to_multiset_ensures();
        iv.to_multiset_ensures();
        assert forall|q: int| 0 <= q < top@.len() implies iv.contains(#[trigger] top@[q]) by {
            assert(top@.contains(top@[q]));
            assert(top@.to_multiset().count(top@[q]) > 0);
            assert(iv.to_multiset().count(top@[q]) > 0);
        }
    }
    while k < top.len()
        invariant
            k <= top.len(),
            r@.len() == k,
            forall|q: int| 0 <= q < k ==> #[trigger] r@[q] == top@[q].1,
            iv.len() == uv.len(),
            uv == u@,
            forall|q: int| 0 <= q < iv.len() ==> #[trigger] iv[q].1 == uv[q] && iv[q].0 as int
                == score_at(corpus@, uv[q], word@, ord as int, pr as int, idx.table()),
        decreases top.len() - k,
    {
        r.push(top[k].1);
        k += 1;
    }
    proof {
        let tv = top@;
        // every kept item is an item, so its score is that of its sentence
        assert forall|q: int| 0 <= q < tv.len() implies tv[q].0 as int == score_at(corpus@, tv[q].1, word@, ord as int, pr as int, idx.table()) && uv.contains(
            #[trigger] tv[q].1,
        ) by {
            assert(iv.contains(tv[q]));
            let w = choose|w: int| 0 <= w < iv.len() && iv[w] == tv[q];
            assert(iv[w].1 == uv[w]);
        }
        assert forall|q: int| 0 <= q < r@.len() implies uv.contains(#[trigger] r@[q]) by {
            assert(tv[q].1 == r@[q]);
        }
        // the items are distinct, so the kept ones are too
        lemma_first_occurrences(cands@, 0);
        assert(uv == first_occurrences(cands@));
        assert(uv.no_duplicates());
        assert(iv.len() == uv.len());
        assert(iv.no_duplicates()) by {
            assert forall|a: int, b: int| 0 <= a < iv.len() && 0 <= b < iv.len() && a != b implies iv[a]
                != iv[b] by {
                assert(iv[a].1 == uv[a]);
                assert(iv[b].1 == uv[b]);
                assert(uv[a] != uv[b]);
            }
        }
        iv.lemma_multiset_has_no_duplicates();
        assert forall|x: (i128, usize)| tv.to_multiset().contains(x) implies tv.to_multiset().count(x)
            == 1 by {
            assert(tv.to_multiset().count(x) <= iv.to_multiset().count(x));
        }
        tv.lemma_multiset_has_no_duplicates_conv();
        assert(r@.no_duplicates()) by {
            assert forall|a: int, b: int| 0 <= a < r@.len() && 0 <= b < r@.len() && a != b implies r@[a]
                != r@[b] by {
                assert(iv.contains(tv[a]));
                assert(iv.contains(tv[b]));
                let wa = choose|w: int| 0 <= w < iv.len() && iv[w] == tv[a];
                let wb = choose|w: int| 0 <= w < iv.len() && iv[w] == tv[b];
                assert(iv[wa].1 == uv[wa]);
                assert(iv[wb].1 == uv[wb]);
                if r@[a] == r@[b] {
                    assert(uv[wa] == uv[wb]);
                    assert(wa == wb);
                    assert(tv[a] == tv[b]);
                }
            }
        }
        assert forall|a: int, b: int| 0 <= a < b < r@.len() implies score_at(corpus@, r@[b], word@, ord as int, pr as int, idx.table()) <= score_at(corpus@, r@[a], word@, ord as int, pr as int, idx.table()) by {
            assert(tv[a].0 as int == score_at(corpus@, tv[a].1, word@, ord as int, pr as int, idx.table()));
            assert(tv[b].0 as int == score_at(corpus@, tv[b].1, word@, ord as int, pr as int, idx.table()));
        }
        assert forall|c: usize| uv.contains(c) && !r@.contains(c) implies score_at(corpus@, c, word@, ord as int, pr as int, idx.table()) <= score_at(corpus@, r@[r@.len() - 1], word@, ord as int, pr as int, idx.table()) by {
            let w = choose|w: int| 0 <= w < uv.len() && uv[w] == c;
            let x = iv[w];
            assert(iv.len() == uv.len());
            assert(0 <= w < iv.len());
            assert(iv[w].1 == uv[w] && iv[w].0 as int == score_at(corpus@, uv[w], word@, ord as int, pr as int, idx.table()));
            assert(x.1 == c && x.0 as int == score_at(corpus@, c, word@, ord as int, pr as int, idx.table()));
            assert(iv.contains(x));
            assert(iv.to_multiset().count(x) > 0);
            if tv.to_multiset().count(x) > 0 {
                assert(tv.contains(x));
                let q = choose|q: int| 0 <= q < tv.len() && tv[q] == x;
                assert(r@[q] == c);
                assert(r@.contains(c));
            }
            assert(tv.len() > 0);
            let last = tv.len() - 1;
            assert(tv[last].0 as int == score_at(corpus@, tv[last].1, word@, ord as int, pr as int, idx.table()));
            assert(r@[last] == tv[last].1);
        }
    }
    r
}

// ---------------------------------------------------------------------------
// The suffix index of the corpus and the matching pass.

/// `w` occurs in `s` as a run of consecutive characters.
pub open spec fn occurs_in(w: Seq<char>, s: Seq<char>) -> bool {
    exists|st: int|
        0 <= st && st + w.len() <= s.len() && #[trigger] s.subrange(st, st + w.len()) == w
}

/// `k` ends `s`.
pub open spec fn is_suffix(k: Seq<char>, s: Seq<char>) -> bool {
    exists|st: int| 0 <= st <= s.len() && k == #[trigger] s.subrange(st, s.len() as int)
}

/// Every key of `m` names a bucket of its own, which lists sentences that end
/// with the key.
pub open spec fn buckets_ok(corpus: Seq<Example>, m: Map<Seq<char>, usize>, b: Seq<Seq<usize>>) -> bool {
    &&& forall|k: Seq<char>|
        #[trigger] m.contains_key(k) ==> m[k] < b.len() && forall|j: int|
            0 <= j < b[m[k] as int].len() ==> b[m[k] as int][j] < corpus.len() && is_suffix(
                k,
                corpus[b[m[k] as int][j] as int].zh@,
            )
    &&& forall|k1: Seq<char>, k2: Seq<char>|
        m.contains_key(k1) && m.contains_key(k2) && #[trigger] m[k1] == #[trigger] m[k2] ==> k1 == k2
}

/// Every non-empty suffix of the sentences before `i`, and of sentence `i`
/// starting before `st`, is a key whose bucket lists that sentence.
pub open spec fn suffixes_filed(
    corpus: Seq<Example>,
    m: Map<Seq<char>, usize>,
    b: Seq<Seq<usize>>,
    i: int,
    st: int,
) -> bool {
    &&& forall|a: int, x: int|
        0 <= a < i && 0 <= x < corpus[a].zh@.len() ==> {
            let k = #[trigger] corpus[a].zh@.subrange(x, corpus[a].zh@.len() as int);
            m.contains_key(k) && b[m[k] as int].contains(a as usize)
        }
    &&& forall|x: int|
        0 <= x < st && i < corpus.len() ==> {
            let k = #[trigger] corpus[i].zh@.subrange(x, corpus[i].zh@.len() as int);
            m.contains_key(k) && b[m[k] as int].contains(i as usize)
        }
}

/// A prefix tree of every non-empty suffix of every sentence, each key leading
/// to the bucket of all sentences that end with it.
fn suffix_index(corpus: &Vec<Example>) -> (res: (ptrie::Trie<char, usize>, Vec<Vec<usize>>))
    ensures
        buckets_ok(corpus@, trie_contents(res.0), nested_view(&res.1)),
        suffixes_filed(corpus@, trie_contents(res.0), nested_view(&res.1), corpus@.len() as int, 0),
{
    let mut t = trie_new();
    let mut buckets: Vec<Vec<usize>> = Vec::new();
    let mut i: usize = 0;
    while i < corpus.len()
        invariant
            i <= corpus.len(),
            buckets_ok(corpus@, trie_contents(t), nested_view(&buckets)),
            suffixes_filed(corpus@, trie_contents(t), nested_view(&buckets), i as int, 0),
        decreases corpus.len() - i,
    {
        let cs = chars_of(corpus[i].zh.as_str());
        let mut st: usize = 0;
        while st < cs.len()
            invariant
                i < corpus.len(),
                st <= cs.len(),
                cs@ == corpus@[i as int].zh@,
                buckets_ok(corpus@, trie_contents(t), nested_view(&buckets)),
                suffixes_filed(corpus@, trie_contents(t), nested_view(&buckets), i as int, st as int),
            decreases cs.len() - st,
        {
            let mut key: Vec<char> = Vec::new();
            let mut q: usize = st;
            while q < cs.len()
                invariant
                    st <= q <= cs.len(),
                    key@ == cs@.subrange(st as int, q as int),
                decreases cs.len() - q,
            {
                key.push(cs[q]);
                proof {
                    assert(key@ =~= cs@.subrange(st as int, q + 1));
                }
                q += 1;
            }
            let ghost zh = corpus@[i as int].zh@;
            let ghost m0 = trie_contents(t);
            let ghost b0 = nested_view(&buckets);
            proof {
                assert(is_suffix(key@, zh)) by {
                    assert(key@ == zh.subrange(st as int, zh.len() as int));
                }
            }
            match trie_get(&t, &key) {
                Some(g) => {
                    let mut bk: Vec<usize> = Vec::new();
                    buckets.set_and_swap(g, &mut bk);
                    bk.push(i);
                    buckets.set(g, bk);
                    proof {
                        let b1 = nested_view(&buckets);
                        assert(b1 =~= b0.update(g as int, b0[g as int].push(i)));
                        assert forall|k: Seq<char>| #[trigger] m0.contains_key(k) implies m0[k] < b1.len()
                            && forall|j: int|
                            0 <= j < b1[m0[k] as int].len() ==> b1[m0[k] as int][j] < corpus@.len()
                                && is_suffix(k, corpus@[b1[m0[k] as int][j] as int].zh@) by {
                            if m0[k] == g {
                                assert(m0[key@] == g);
                                assert(k == key@);
                                assert forall|j: int| 0 <= j < b1[g as int].len() implies b1[g as int][j]
                                    < corpus@.len() && is_suffix(
                                    k,
                                    corpus@[b1[g as int][j] as int].zh@,
                                ) by {
                                    if j < b0[g as int].len() {
                                        assert(b1[g as int][j] == b0[g as int][j]);
                                    }
                                }
                            }
                        }
                        assert forall|a: int, x: int|
                            0 <= a < i && 0 <= x < corpus@[a].zh@.len() implies {
                            let k = #[trigger] corpus@[a].zh@.subrange(x, corpus@[a].zh@.len() as int);
                            m0.contains_key(k) && b1[m0[k] as int].contains(a as usize)
                        } by {
                            let k = corpus@[a].zh@.subrange(x, corpus@[a].zh@.len() as int);
                            vstd::seq_lib::lemma_seq_contains_after_push(b0[g as int], i, a as usize);
                        }
                        assert forall|x: int| 0 <= x < st + 1 && i < corpus@.len() implies {
                            let k = #[trigger] corpus@[i as int].zh@.subrange(
                                x,
                                corpus@[i as int].zh@.len() as int,
                            );
                            m0.contains_key(k) && b1[m0[k] as int].contains(i as usize)
                        } by {
                            let k = corpus@[i as int].zh@.subrange(x, corpus@[i as int].zh@.len() as int);
                            vstd::seq_lib::lemma_seq_contains_after_push(b0[g as int], i, i);
                            if x == st {
                                assert(k == key@);
                            }
                        }
                    }
                },
                None => {
                    let bi = buckets.len();
                    let mut bk: Vec<usize> = Vec::new();
                    bk.push(i);
                    buckets.push(bk);
                    trie_insert(&mut t, &key, 0, bi);
                    proof {
                        assert(key@.subrange(0, key@.len() as int) =~= key@);
                        let m1 = trie_contents(t);
                        let b1 = nested_view(&buckets);
                        assert(b1 =~= b0.push(seq![i]));
                        assert(m1 == m0.insert(key@, bi));
                        assert forall|k: Seq<char>| #[trigger] m1.contains_key(k) implies m1[k] < b1.len()
                            && forall|j: int|
                            0 <= j < b1[m1[k] as int].len() ==> b1[m1[k] as int][j] < corpus@.len()
                                && is_suffix(k, corpus@[b1[m1[k] as int][j] as int].zh@) by {
                            if k != key@ {
                                assert(m0.contains_key(k));
                                assert(b1[m0[k] as int] == b0[m0[k] as int]);
                            } else {
                                assert(b1[bi as int] == seq![i]);
                            }
                        }
                        assert forall|k1: Seq<char>, k2: Seq<char>|
                            m1.contains_key(k1) && m1.contains_key(k2) && #[trigger] m1[k1]
                                == #[trigger] m1[k2] implies k1 == k2 by {
                            if k1 != key@ && k2 != key@ {
                                assert(m0.contains_key(k1) && m0.contains_key(k2));
                            } else if k1 != key@ {
                                assert(m0.contains_key(k1));
                            } else if k2 != key@ {
                                assert(m0.contains_key(k2));
                            }
                        }
                        assert forall|a: int, x: int|
                            0 <= a < i && 0 <= x < corpus@[a].zh@.len() implies {
                            let k = #[trigger] corpus@[a].zh@.subrange(x, corpus@[a].zh@.len() as int);
                            m1.contains_key(k) && b1[m1[k] as int].contains(a as usize)
                        } by {
                            let k = corpus@[a].zh@.subrange(x, corpus@[a].zh@.len() as int);
                            assert(m0.contains_key(k));
                            if k != key@ {
                                assert(b1[m0[k] as int] == b0[m0[k] as int]);
                            }
                        }
                        assert forall|x: int| 0 <= x < st + 1 && i < corpus@.len() implies {
                            let k = #[trigger] corpus@[i as int].zh@.subrange(
                                x,
                                corpus@[i as int].zh@.len() as int,
                            );
                            m1.contains_key(k) && b1[m1[k] as int].contains(i as usize)
                        } by {
                            let k = corpus@[i as int].zh@.subrange(x, corpus@[i as int].zh@.len() as int);
                            if k == key@ {
                                assert(b1[bi as int] == seq![i]);
                                assert(b1[bi as int][0] == i);
                            } else {
                                assert(x < st);
                                assert(m0.contains_key(k));
                                assert(b1[m0[k] as int] == b0[m0[k] as int]);
                            }
                        }
                    }
                },
            }
            st += 1;
        }
        proof {
            let m = trie_contents(t);
            let bv = nested_view(&buckets);
            assert forall|a: int, x: int| 0 <= a < i + 1 && 0 <= x < corpus@[a].zh@.len() implies {
                let k = #[trigger] corpus@[a].zh@.subrange(x, corpus@[a].zh@.len() as int);
                m.contains_key(k) && bv[m[k] as int].contains(a as usize)
            } by {
                if a == i {
                    let k = corpus@[a].zh@.subrange(x, corpus@[a].zh@.len() as int);
                    assert(k == corpus@[i as int].zh@.subrange(x, corpus@[i as int].zh@.len() as int));
                }
            }
        }
        i += 1;
    }
    (t, buckets)
}

/// The sentences of the buckets `ids`, in order.
pub open spec fn gathered(b: Seq<Seq<usize>>, ids: Seq<usize>) -> Seq<usize>
    decreases ids.len(),
{
    if ids.len() == 0 {
        Seq::empty()
    } else {
        gathered(b, ids.drop_last()) + b[ids.last() as int]
    }
}

pub proof fn lemma_gathered(b: Seq<Seq<usize>>, ids: Seq<usize>, c: usize)
    ensures
        gathered(b, ids).contains(c) <==> exists|j: int| 0 <= j < ids.len() && #[trigger] b[ids[j] as int].contains(c),
    decreases ids.len(),
{
    if ids.len() > 0 {
        let g0 = gathered(b, ids.drop_last());
        let l = b[ids.last() as int];
        lemma_gathered(b, ids.drop_last(), c);
        let g = g0 + l;
        if g.contains(c) {
            let i = choose|i: int| 0 <= i < g.len() && g[i] == c;
            if i < g0.len() {
                assert(g0[i] == c);
                assert(g0.contains(c));
                let j = choose|j: int| 0 <= j < ids.len() - 1 && #[trigger] b[ids.drop_last()[j] as int].contains(c);
                assert(ids[j] == ids.drop_last()[j]);
                assert(b[ids[j] as int].contains(c));
            } else {
                assert(l[i - g0.len()] == c);
                assert(b[ids[ids.len() - 1] as int].contains(c));
            }
        }
        if exists|j: int| 0 <= j < ids.len() && #[trigger] b[ids[j] as int].contains(c) {
            let j = choose|j: int| 0 <= j < ids.len() && #[trigger] b[ids[j] as int].contains(c);
            if j < ids.len() - 1 {
                assert(ids.drop_last()[j] == ids[j]);
                assert(b[ids.drop_last()[j] as int].contains(c));
                assert(g0.contains(c));
                let i = choose|i: int| 0 <= i < g0.len() && g0[i] == c;
                assert(g[i] == c);
            } else {
                let i = choose|i: int| 0 <= i < l.len() && l[i] == c;
                assert(g[g0.len() + i] == c);
            }
        }
    }
}

/// The sentences listed in the buckets `ids`.
fn gather(buckets: &Vec<Vec<usize>>, ids: &Vec<usize>) -> (r: Vec<usize>)
    requires
        forall|j: int| 0 <= j < ids@.len() ==> ids@[j] < buckets@.len(),
    ensures
        r@ == gathered(nested_view(buckets), ids@),
{
    let ghost bv = nested_view(buckets);
    let mut r: Vec<usize> = Vec::new();
    let mut j: usize = 0;
    while j < ids.len()
        invariant
            j <= ids.len(),
            bv == nested_view(buckets),
            forall|q: int| 0 <= q < ids@.len() ==> ids@[q] < buckets@.len(),
            r@ == gathered(bv, ids@.subrange(0, j as int)),
        decreases ids.len() - j,
    {
        let bk = &buckets[ids[j]];
        let ghost r0 = r@;
        let mut q: usize = 0;
        while q < bk.len()
            invariant
                q <= bk.len(),
                r@ == r0 + bk@.subrange(0, q as int),
            decreases bk.len() - q,
        {
            r.push(bk[q]);
            proof {
                assert(r@ =~= r0 + bk@.subrange(0, q + 1));
            }
            q += 1;
        }
        proof {
            assert(ids@.subrange(0, j + 1).drop_last() =~= ids@.subrange(0, j as int));
            assert(bk@ == bv[ids@[j as int] as int]);
            assert(bk@.subrange(0, bk@.len() as int) =~= bk@);
        }
        j += 1;
    }
    proof {
        assert(ids@.subrange(0, ids@.len() as int) =~= ids@);
    }
    r
}

pub proof fn lemma_word_list_capped(entries: Seq<CommonEntry>, prio: Seq<u64>)
    requires
        forall|i: int| 0 <= i < prio.len() ==> #[trigger] prio[i] <= 10_000_000,
    ensures
        forall|j: int|
            0 <= j < word_list(entries, prio).len() ==> #[trigger] word_list(entries, prio)[j].1
                <= 10_000_000,
    decreases entries.len(),
{
    if entries.len() > 0 && prio.len() > 0 {
        lemma_word_list_capped(entries.drop_last(), prio.drop_last());
        assert(prio.last() == prio[prio.len() - 1]);
        let r = word_list(entries.drop_last(), prio.drop_last());
        match entries.last() {
            CommonEntry::WordEntry(w) => {
                assert(word_list(entries, prio) == r.push((w.id@, prio.last())));
                assert forall|j: int| 0 <= j < r.len() + 1 implies #[trigger] r.push((w.id@, prio.last()))[j].1
                    <= 10_000_000 by {
                    if j < r.len() {
                        assert(r.push((w.id@, prio.last()))[j] == r[j]);
                    }
                }
            },
            _ => {
                assert(word_list(entries, prio) == r);
            },
        }
    }
}

/// `r_w` is the best-first top three by score of the distinct sentences in
/// which `w` occurs.
pub open spec fn well_matched(
    r_w: Seq<usize>,
    corpus: Seq<Example>,
    w: Seq<char>,
    ord: int,
    pr: int,
    t: WordTable,
) -> bool {
    exists|u: Seq<usize>| candidates_of(u, corpus, w) && #[trigger] best_of(r_w, u, corpus, w, ord, pr, t)
}

/// For each entry, the corpus sentences chosen as its examples. A word, at
/// position `ord` among the words of `entries` and of priority `pr`, gets the
/// best three by `score_spec` (see [`best_of`]) of the distinct sentences in
/// which it occurs, scored against the table of all the words; other kinds
/// get none.
pub fn add_examples(entries: &Vec<CommonEntry>, prio: &Vec<u64>, corpus: &Vec<Example>) -> (r: Vec<
    Vec<usize>,
>)
    requires
        entries@.len() == prio@.len(),
        forall|i: int| 0 <= i < prio@.len() ==> #[trigger] prio@[i] <= 10_000_000,
    ensures
        r@.len() == entries@.len(),
        forall|k: int| 0 <= k < r@.len() && !(entries@[k] is WordEntry) ==> (#[trigger] r@[k])@.len() == 0,
        forall|k: int|
            0 <= k < r@.len() && entries@[k] is WordEntry ==> well_matched(
                    (#[trigger] r@[k])@,
                    corpus@,
                    entries@[k]->WordEntry_0.id@,
                    word_list(entries@.subrange(0, k), prio@.subrange(0, k)).len() as int,
                    prio@[k] as int,
                    word_table(entries@, prio@),
                ),
{
    let idx = WordIndex::build(entries, prio);
    proof {
        lemma_word_list_capped(entries@, prio@);
        assert forall|i: int| 0 <= i < idx.priorities().len() implies #[trigger] idx.priorities()[i]
            <= 10_000_000 by {
            assert(idx.priorities()[i] == word_list(entries@, prio@)[i].1);
        }
    }
    let (trie, buckets) = suffix_index(corpus);
    let ghost m = trie_contents(trie);
    let ghost bv = nested_view(&buckets);
    let ghost table = word_table(entries@, prio@);
    let mut r: Vec<Vec<usize>> = Vec::new();
    let mut ord: usize = 0;
    let mut k: usize = 0;
    proof {
        assert(entries@.subrange(0, 0) =~= Seq::<CommonEntry>::empty());
    }
    while k < entries.len()
        invariant
            k <= entries.len(),
            entries@.len() == prio@.len(),
            forall|i: int| 0 <= i < prio@.len() ==> #[trigger] prio@[i] <= 10_000_000,
            ord as int == word_list(entries@.subrange(0, k as int), prio@.subrange(0, k as int)).len(),
            ord <= k,
            idx.wf(),
            priorities_capped(idx),
            idx.table() == table,
            table == word_table(entries@, prio@),
            m == trie_contents(trie),
            bv == nested_view(&buckets),
            buckets_ok(corpus@, m, bv),
            suffixes_filed(corpus@, m, bv, corpus@.len() as int, 0),
            r@.len() == k,
            forall|q: int| 0 <= q < k && !(entries@[q] is WordEntry) ==> (#[trigger] r@[q])@.len() == 0,
            forall|q: int|
                0 <= q < k && entries@[q] is WordEntry ==> well_matched(
                    (#[trigger] r@[q])@,
                    corpus@,
                    entries@[q]->WordEntry_0.id@,
                    word_list(entries@.subrange(0, q), prio@.subrange(0, q)).len() as int,
                    prio@[q] as int,
                    word_table(entries@, prio@),
                ),
        decreases entries.len() - k,
    {
        let ghost l0 = word_list(entries@.subrange(0, k as int), prio@.subrange(0, k as int));
        proof {
            assert(entries@.subrange(0, k + 1).drop_last() =~= entries@.subrange(0, k as int));
            assert(prio@.subrange(0, k + 1).drop_last() =~= prio@.subrange(0, k as int));
            lemma_word_list_len(entries@.subrange(0, k as int), prio@.subrange(0, k as int));
        }
        let ghost r0 = r@;
        match &entries[k] {
            CommonEntry::WordEntry(w) => {
                let key = chars_of(w.id.as_str());
                let ids = trie_find_postfixes(&trie, &key);
                proof {
                    assert forall|j: int| 0 <= j < ids@.len() implies ids@[j] < buckets@.len() by {
                        let kk = choose|kk: Seq<char>|
                            #![trigger m[kk]]
                            m.contains_key(kk) && key@.is_prefix_of(kk) && m[kk] == ids@[j];
                    }
                }
                let cands = gather(&buckets, &ids);
                let ghost wv = w.id@;
                proof {
                    assert forall|q: int| 0 <= q < cands@.len() implies cands@[q] < corpus@.len()
                        && occurs_in(wv, corpus@[cands@[q] as int].zh@) by {
                        let c = cands@[q];
                        assert(cands@.contains(c));
                        lemma_gathered(bv, ids@, c);
                        let j = choose|j: int| 0 <= j < ids@.len() && #[trigger] bv[ids@[j] as int].contains(c);
                        let kk = choose|kk: Seq<char>|
                            #![trigger m[kk]]
                            m.contains_key(kk) && key@.is_prefix_of(kk) && m[kk] == ids@[j];
                        let jj = choose|jj: int| 0 <= jj < bv[m[kk] as int].len() && bv[m[kk] as int][jj] == c;
                        let zh = corpus@[c as int].zh@;
                        assert(is_suffix(kk, zh));
                        let st = choose|st: int| 0 <= st <= zh.len() && kk == #[trigger] zh.subrange(st, zh.len() as int);
                        assert(zh.subrange(st, st + wv.len()) =~= wv);
                    }
                }
                let best = best_examples(&cands, corpus, &w.id, ord, prio[k], &idx);
                proof {
                    let u = first_occurrences(cands@);
                    lemma_first_occurrences(cands@, 0);
                    assert forall|c: usize| #[trigger] u.contains(c) implies c < corpus@.len() && occurs_in(
                        wv,
                        corpus@[c as int].zh@,
                    ) by {
                        lemma_first_occurrences(cands@, c);
                        let q = choose|q: int| 0 <= q < cands@.len() && cands@[q] == c;
                    }
                    if wv.len() > 0 {
                        assert forall|c: usize|
                            c < corpus@.len() && occurs_in(wv, corpus@[c as int].zh@) implies #[trigger] u.contains(
                            c,
                        ) by {
                            let zh = corpus@[c as int].zh@;
                            let st = choose|st: int|
                                0 <= st && st + wv.len() <= zh.len() && #[trigger] zh.subrange(
                                    st,
                                    st + wv.len(),
                                ) == wv;
                            let kk = zh.subrange(st, zh.len() as int);
                            assert(m.contains_key(kk) && bv[m[kk] as int].contains(c));
                            assert(key@.is_prefix_of(kk)) by {
                                assert(kk.subrange(0, wv.len() as int) =~= zh.subrange(st, st + wv.len()));
                            }
                            assert(ids@.contains(m[kk]));
                            let j = choose|j: int| 0 <= j < ids@.len() && ids@[j] == m[kk];
                            assert(bv[ids@[j] as int].contains(c));
                            lemma_gathered(bv, ids@, c);
                            lemma_first_occurrences(cands@, c);
                        }
                    }
                    assert(candidates_of(u, corpus@, wv));
                    assert(best_of(best@, u, corpus@, wv, ord as int, prio@[k as int] as int, table));
                }
                let ghost u_k = first_occurrences(cands@);
                r.push(best);
                proof {
                    assert(r@[k as int]@ == best@);
                    assert(candidates_of(u_k, corpus@, entries@[k as int]->WordEntry_0.id@));
                    assert(best_of(
                        r@[k as int]@,
                        u_k,
                        corpus@,
                        entries@[k as int]->WordEntry_0.id@,
                        word_list(entries@.subrange(0, k as int), prio@.subrange(0, k as int)).len() as int,
                        prio@[k as int] as int,
                        word_table(entries@, prio@),
                    ));
                    assert(well_matched(
                        r@[k as int]@,
                        corpus@,
                        entries@[k as int]->WordEntry_0.id@,
                        word_list(entries@.subrange(0, k as int), prio@.subrange(0, k as int)).len() as int,
                        prio@[k as int] as int,
                        word_table(entries@, prio@),
                    ));
                }
                ord += 1;
                proof {
                    let l1 = word_list(entries@.subrange(0, k + 1), prio@.subrange(0, k + 1));
                    assert(l1 == l0.push((w.id@, prio@[k as int])));
                }
            },
            _ => {
                r.push(Vec::new());
                proof {
                    let l1 = word_list(entries@.subrange(0, k + 1), prio@.subrange(0, k + 1));
                    assert(l1 == l0);
                }
            },
        }
        proof {
            assert forall|q: int| 0 <= q < k + 1 && entries@[q] is WordEntry implies well_matched(
                    (#[trigger] r@[q])@,
                    corpus@,
                    entries@[q]->WordEntry_0.id@,
                    word_list(entries@.subrange(0, q), prio@.subrange(0, q)).len() as int,
                    prio@[q] as int,
                    word_table(entries@, prio@),
                ) by {
                if q < k {
                    assert(r@[q] == r0[q]);
                }
            }
        }
        k += 1;
    }
    r
}

// ---------------------------------------------------------------------------
// Choosing the corpus.

/// A sentence pair of the bilingual corpus, with the ids of both sentences.
#[derive(Clone, Debug)]
pub struct TatoebaRecord {
    pub zh_id: u64,
    pub zh: String,
    pub en_id: u64,
    pub en: String,
}

/// The records from the last to the first, keyed by source sentence.
pub open spec fn newest_first(recs: Seq<TatoebaRecord>) -> Seq<(u64, usize)> {
    Seq::new(
        recs.len(),
        |j: int| (recs[recs.len() - 1 - j].zh_id, (recs.len() - 1 - j) as usize),
    )
}

/// A pair short enough to serve as an example.
pub open spec fn short_enough(rec: TatoebaRecord) -> bool {
    rec.zh@.len() < 27 && rec.en@.len() < 61
}

/// The positions in `s` of the records that are short enough, in order.
pub open spec fn short_positions(recs: Seq<TatoebaRecord>, s: Seq<(u64, usize)>) -> Seq<usize>
    decreases s.len(),
{
    if s.len() == 0 {
        Seq::empty()
    } else {
        let r = short_positions(recs, s.drop_last());
        if short_enough(recs[s.last().1 as int]) {
            r.push(s.last().1)
        } else {
            r
        }
    }
}

/// The corpus drawn from the records: read from the last record back, the
/// first record of each source sentence, kept when it is short enough.
pub open spec fn corpus_selection(recs: Seq<TatoebaRecord>) -> Seq<usize> {
    short_positions(recs, first_by_key(newest_first(recs)))
}

/// The positions of the records that make up the corpus, in corpus order.
pub fn select_corpus(records: &Vec<TatoebaRecord>) -> (r: Vec<usize>)
    ensures
        r@ == corpus_selection(records@),
        forall|i: int| 0 <= i < r@.len() ==> r@[i] < records@.len(),
{
    let n = records.len();
    let mut keys: Vec<(u64, usize)> = Vec::new();
    let mut j: usize = 0;
    while j < n
        invariant
            j <= n,
            n == records@.len(),
            keys@.len() == j,
            forall|q: int| 0 <= q < j ==> #[trigger] keys@[q] == newest_first(records@)[q],
        decreases n - j,
    {
        keys.push((records[n - 1 - j].zh_id, n - 1 - j));
        j += 1;
    }
    proof {
        assert(keys@ =~= newest_first(records@));
    }
    let ghost nf = keys@;
    let u = unique_by_key(keys);
    let ghost uv = u@;
    proof {
        assert forall|q: int| 0 <= q < uv.len() implies uv[q].1 < n by {
            assert(uv.contains(uv[q]));
            lemma_first_by_key_from(nf, uv[q]);
            let w = choose|w: int| 0 <= w < nf.len() && nf[w] == uv[q];
        }
    }
    let mut r: Vec<usize> = Vec::new();
    let mut q: usize = 0;
    while q < u.len()
        invariant
            q <= u.len(),
            n == records@.len(),
            uv == u@,
            forall|t: int| 0 <= t < uv.len() ==> uv[t].1 < n,
            r@ == short_positions(records@, uv.subrange(0, q as int)),
            forall|i: int| 0 <= i < r@.len() ==> r@[i] < n,
        decreases u.len() - q,
    {
        proof {
            assert(uv.subrange(0, q + 1).drop_last() =~= uv.subrange(0, q as int));
            assert(uv.subrange(0, q + 1).last() == uv[q as int]);
        }
        let i = u[q].1;
        let rec = &records[i];
        if rec.zh.as_str().unicode_len() < 27 && rec.en.as_str().unicode_len() < 61 {
            r.push(i);
        }
        q += 1;
    }
    proof {
        assert(uv.subrange(0, uv.len() as int) =~= uv);
    }
    r
}

} // verus!
