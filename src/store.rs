//! The entry store: the single table of canonical entries, keyed by identity.
use crate::entry::{
    Definition, chars_of, string_of_char, word_merge, CharWriting, CommonEntry, EntryId, IdKind, Pinyin,
    SyllableEntry, WordEntry, WritingView,
};
use crate::examples::occurs_in;
use crate::graph::{lemma_position_unique, position_of};
use crate::outside::{char_name, unicode_name};
use crate::outside::{trie_contents, trie_get, trie_insert, trie_new};
use vstd::prelude::*;

verus! {

/// The character that tags the kind of an identity in the index.
pub open spec fn kind_tag(k: IdKind) -> char {
    match k {
        IdKind::Word => 'W',
        IdKind::Syllable => 'S',
        IdKind::Grammar => 'G',
    }
}

/// The index key of an identity: its kind tag, then its text.
pub open spec fn id_key(id: (IdKind, Seq<char>)) -> Seq<char> {
    seq![kind_tag(id.0)] + id.1
}

/// No two entries share an identity.
pub open spec fn ids_unique(s: Seq<CommonEntry>) -> bool {
    forall|i: int, j: int|
        0 <= i < s.len() && 0 <= j < s.len() && i != j ==> s[i].id_view() != s[j].id_view()
}

/// `m` maps the key of each entry's identity to the entry's position, and nothing else.
pub open spec fn index_matches(s: Seq<CommonEntry>, m: Map<Seq<char>, usize>) -> bool {
    &&& forall|j: int|
        0 <= j < s.len() ==> #[trigger] m.contains_key(id_key(s[j].id_view())) && m[id_key(
            s[j].id_view(),
        )] == j
    &&& forall|k: Seq<char>|
        #[trigger] m.contains_key(k) ==> m[k] < s.len() && id_key(s[m[k] as int].id_view()) == k
}

pub proof fn lemma_id_key_injective(a: (IdKind, Seq<char>), b: (IdKind, Seq<char>))
    requires
        id_key(a) == id_key(b),
    ensures
        a == b,
{
    assert(id_key(a)[0] == kind_tag(a.0));
    assert(id_key(b)[0] == kind_tag(b.0));
    assert(a.1 =~= id_key(a).subrange(1, id_key(a).len() as int));
    assert(b.1 =~= id_key(b).subrange(1, id_key(b).len() as int));
}

/// Why an incoming record could not be folded into the table.
#[derive(Debug, Clone, Copy, PartialEq, Eq, Structural)]
pub enum MergeError {
    /// Only word entries merge; a second syllable or grammar record for an
    /// identity already present is a fault of the source that produced it.
    NotMergeable,
}

/// The index key of `id`.
fn key_of(id: &EntryId) -> (r: Vec<char>)
    ensures
        r@ == id_key(id@),
{
    let mut r: Vec<char> = Vec::new();
    let tag = match id.kind() {
        IdKind::Word => 'W',
        IdKind::Syllable => 'S',
        IdKind::Grammar => 'G',
    };
    r.push(tag);
    let mut t = chars_of(id.text().as_str());
    r.append(&mut t);
    proof {
        assert(r@ =~= id_key(id@));
    }
    r
}

/// The table of canonical entries, in order of first sighting.
pub struct EntryStore {
    entries: Vec<CommonEntry>,
    index: ptrie::Trie<char, usize>,
}

impl View for EntryStore {
    type V = Seq<CommonEntry>;

    closed spec fn view(&self) -> Seq<CommonEntry> {
        self.entries@
    }
}

/// How `upsert` changes the table `s` into `t` for the record `e`.
pub open spec fn upserted(
    s: Seq<CommonEntry>,
    e: CommonEntry,
    t: Seq<CommonEntry>,
    r: Result<(), MergeError>,
) -> bool {
    &&& (forall|j: int| 0 <= j < s.len() ==> s[j].id_view() != e.id_view()) ==> (r is Ok && t
        == s.push(e))
    &&& forall|j: int|
        0 <= j < s.len() && s[j].id_view() == e.id_view() ==> if s[j] is WordEntry
            && e is WordEntry {
            &&& r is Ok
            &&& t.len() == s.len()
            &&& t[j] is WordEntry
            &&& word_merge(s[j]->WordEntry_0, e->WordEntry_0, t[j]->WordEntry_0)
            &&& forall|k: int| 0 <= k < s.len() && k != j ==> t[k] == s[k]
        } else {
            r is Err && t == s
        }
}

impl EntryStore {
    pub closed spec fn wf(&self) -> bool {
        index_matches(self.entries@, trie_contents(self.index))
    }

    /// Identities in a well-formed store are unique.
    pub proof fn lemma_unique(&self)
        requires
            self.wf(),
        ensures
            ids_unique(self@),
    {
        let m = trie_contents(self.index);
        assert forall|i: int, j: int|
            0 <= i < self@.len() && 0 <= j < self@.len() && i != j implies self@[i].id_view()
            != self@[j].id_view() by {
            assert(m.contains_key(id_key(self@[i].id_view())));
            assert(m.contains_key(id_key(self@[j].id_view())));
        }
    }

    pub fn new() -> (r: EntryStore)
        ensures
            r.wf(),
            r@.len() == 0,
    {
        EntryStore { entries: Vec::new(), index: trie_new() }
    }

    pub fn len(&self) -> (r: usize)
        ensures
            r == self@.len(),
    {
        self.entries.len()
    }

    pub fn entries(&self) -> (r: &Vec<CommonEntry>)
        ensures
            r@ == self@,
    {
        &self.entries
    }

    pub fn into_entries(self) -> (r: Vec<CommonEntry>)
        ensures
            r@ == self@,
    {
        self.entries
    }

    /// The position of the entry with identity `id`, if there is one.
    pub fn find(&self, id: &EntryId) -> (r: Option<usize>)
        requires
            self.wf(),
        ensures
            match r {
                Some(i) => i < self@.len() && self@[i as int].id_view() == id@,
                None => forall|j: int| 0 <= j < self@.len() ==> self@[j].id_view() != id@,
            },
    {
        let key = key_of(id);
        let r = trie_get(&self.index, &key);
        proof {
            let m = trie_contents(self.index);
            match r {
                Some(i) => {
                    lemma_id_key_injective(self.entries@[i as int].id_view(), id@);
                },
                None => {
                    assert forall|j: int| 0 <= j < self@.len() implies self@[j].id_view()
                        != id@ by {
                        assert(m.contains_key(id_key(self.entries@[j].id_view())));
                    }
                },
            }
        }
        r
    }

    /// The entry with identity `id`, if there is one.
    pub fn get(&self, id: &EntryId) -> (r: Option<&CommonEntry>)
        requires
            self.wf(),
        ensures
            match r {
                Some(e) => exists|i: int| 0 <= i < self@.len() && self@[i] == *e && e.id_view() == id@,
                None => forall|j: int| 0 <= j < self@.len() ==> self@[j].id_view() != id@,
            },
    {
        match self.find(id) {
            Some(i) => Some(&self.entries[i]),
            None => None,
        }
    }

    /// Adds a record: it becomes the canonical entry of its identity when there
    /// is none yet, and is merged into the existing one otherwise.
    pub fn upsert(&mut self, e: CommonEntry) -> (r: Result<(), MergeError>)
        requires
            old(self).wf(),
        ensures
            final(self).wf(),
            upserted(old(self)@, e, final(self)@, r),
    {
        let id = e.id();
        match self.find(&id) {
            None => {
                let n = self.entries.len();
                let key = key_of(&id);
                let ghost s = self@;
                assert(s == self.entries@);
                let ghost m = trie_contents(self.index);
                assert(forall|j: int| 0 <= j < s.len() ==> s[j].id_view() != id@);
                self.entries.push(e);
                trie_insert(&mut self.index, &key, 0, n);
                proof {
                    assert(key@.subrange(0, key@.len() as int) =~= key@);
                    let t = self.entries@;
                    let m2 = trie_contents(self.index);
                    assert forall|j: int| 0 <= j < t.len() implies #[trigger] m2.contains_key(
                        id_key(t[j].id_view()),
                    ) && m2[id_key(t[j].id_view())] == j by {
                        if j < s.len() {
                            assert(t[j] == s[j]);
                            assert(m.contains_key(id_key(s[j].id_view())));
                            if id_key(s[j].id_view()) == key@ {
                                lemma_id_key_injective(s[j].id_view(), id@);
                                assert(s[j].id_view() != id@);
                            }
                            assert(id_key(s[j].id_view()) != key@);
                        } else {
                            assert(t[j] == e);
                            assert(id_key(t[j].id_view()) == key@);
                        }
                    }
                    assert forall|k: Seq<char>| #[trigger] m2.contains_key(k) implies m2[k] < t.len()
                        && id_key(t[m2[k] as int].id_view()) == k by {
                        if k != key@ {
                            assert(m.contains_key(k));
                        }
                    }
                }
                Ok(())
            },
            Some(i) => {
                let ghost s = self.entries@;
                let mut cur = CommonEntry::SyllableEntry(
                    SyllableEntry { id: Pinyin(String::new()), audio_file: String::new() },
                );
                self.entries.set_and_swap(i, &mut cur);
                let (back, r) = match cur {
                    CommonEntry::WordEntry(mut w) => match e {
                        CommonEntry::WordEntry(o) => {
                            w.merge(o);
                            (CommonEntry::WordEntry(w), Ok(()))
                        },
                        _ => (CommonEntry::WordEntry(w), Err(MergeError::NotMergeable)),
                    },
                    other => (other, Err(MergeError::NotMergeable)),
                };
                self.entries.set(i, back);
                proof {
                    let t = self.entries@;
                    self.lemma_unique_of(s);
                    if r is Err {
                        assert(t =~= s);
                    } else {
                        assert forall|j: int| 0 <= j < t.len() implies t[j].id_view()
                            == s[j].id_view() by {}
                        let m = trie_contents(self.index);
                        assert forall|j: int| 0 <= j < t.len() implies #[trigger] m.contains_key(
                            id_key(t[j].id_view()),
                        ) && m[id_key(t[j].id_view())] == j by {
                            assert(m.contains_key(id_key(s[j].id_view())));
                        }
                    }
                }
                r
            },
        }
    }

    proof fn lemma_unique_of(&self, s: Seq<CommonEntry>)
        requires
            index_matches(s, trie_contents(self.index)),
        ensures
            ids_unique(s),
    {
        let m = trie_contents(self.index);
        assert forall|i: int, j: int|
            0 <= i < s.len() && 0 <= j < s.len() && i != j implies s[i].id_view()
            != s[j].id_view() by {
            assert(m.contains_key(id_key(s[i].id_view())));
            assert(m.contains_key(id_key(s[j].id_view())));
        }
    }
}

/// The writing slot a multi-character word gets for its character `c`: the
/// first slot of the entry for `c` when there is one, else a placeholder.
pub open spec fn slot_for(s: Seq<CommonEntry>, c: char) -> WritingView {
    match position_of(s, (IdKind::Word, seq![c])) {
        Some(j) => if s[j] is WordEntry && s[j]->WordEntry_0.writing@.len() > 0 {
            s[j]->WordEntry_0.writing@[0]@
        } else {
            WritingView::Placeholder(c as u32)
        },
        None => WritingView::Placeholder(c as u32),
    }
}

/// `b` is `a` with only its writing changed.
pub open spec fn same_but_writing(a: WordEntry, b: WordEntry) -> bool {
    b == WordEntry { writing: b.writing, ..a }
}

/// `b` is `a` with only its readings changed.
pub open spec fn same_but_pinyin(a: WordEntry, b: WordEntry) -> bool {
    b == WordEntry { pinyin: b.pinyin, ..a }
}

/// The entries of `s` that are not to be deleted, in order.
pub open spec fn kept(s: Seq<CommonEntry>) -> Seq<CommonEntry>
    decreases s.len(),
{
    if s.len() == 0 {
        s
    } else {
        let r = kept(s.drop_last());
        if s.last().deletable() {
            r
        } else {
            r.push(s.last())
        }
    }
}

pub proof fn lemma_index_same_ids(s: Seq<CommonEntry>, t: Seq<CommonEntry>, m: Map<Seq<char>, usize>)
    requires
        index_matches(s, m),
        s.len() == t.len(),
        forall|j: int| 0 <= j < s.len() ==> #[trigger] t[j].id_view() == s[j].id_view(),
    ensures
        index_matches(t, m),
{
    assert forall|j: int| 0 <= j < t.len() implies #[trigger] m.contains_key(id_key(t[j].id_view()))
        && m[id_key(t[j].id_view())] == j by {
        assert(m.contains_key(id_key(s[j].id_view())));
    }
    assert forall|k: Seq<char>| #[trigger] m.contains_key(k) implies m[k] < t.len() && id_key(
        t[m[k] as int].id_view(),
    ) == k by {
        assert(t[m[k] as int].id_view() == s[m[k] as int].id_view());
    }
}

impl EntryStore {
    /// Gives each word of more than one character one writing slot per
    /// character, copied from the entry of that character when it has one.
    pub fn fill_writings(&mut self)
        requires
            old(self).wf(),
        ensures
            final(self).wf(),
            final(self)@.len() == old(self)@.len(),
            forall|k: int|
                #![trigger final(self)@[k]]
                0 <= k < old(self)@.len() ==> if old(self)@[k] is WordEntry
                    && old(self)@[k]->WordEntry_0.id@.len() > 1 {
                    let (a, b) = (old(self)@[k]->WordEntry_0, final(self)@[k]->WordEntry_0);
                    &&& final(self)@[k] is WordEntry
                    &&& same_but_writing(a, b)
                    &&& b.writing@.map_values(|w: CharWriting| w@) == Seq::new(
                        a.id@.len(),
                        |i: int| slot_for(old(self)@, a.id@[i]),
                    )
                } else {
                    final(self)@[k] == old(self)@[k]
                },
    {
        let ghost s0 = self@;
        proof {
            self.lemma_unique();
        }
        let n = self.entries.len();
        let mut k: usize = 0;
        while k < n
            invariant
                k <= n,
                n == s0.len(),
                self.wf(),
                ids_unique(s0),
                self@.len() == n,
                forall|j: int| 0 <= j < n ==> #[trigger] self@[j].id_view() == s0[j].id_view(),
                forall|j: int|
                    #![trigger self@[j]]
                    0 <= j < n && (j >= k || !(s0[j] is WordEntry && s0[j]->WordEntry_0.id@.len() > 1))
                        ==> self@[j] == s0[j],
                forall|j: int|
                    #![trigger self@[j]]
                    0 <= j < k && s0[j] is WordEntry && s0[j]->WordEntry_0.id@.len() > 1 ==> {
                        let (a, b) = (s0[j]->WordEntry_0, self@[j]->WordEntry_0);
                        &&& self@[j] is WordEntry
                        &&& same_but_writing(a, b)
                        &&& b.writing@.map_values(|w: CharWriting| w@) == Seq::new(
                            a.id@.len(),
                            |i: int| slot_for(s0, a.id@[i]),
                        )
                    },
            decreases n - k,
        {
            let id: Option<String> = match &self.entries[k] {
                CommonEntry::WordEntry(w) => if w.id.as_str().unicode_len() > 1 {
                    Some(w.id.clone())
                } else {
                    None
                },
                _ => None,
            };
            if let Some(id) = id {
                let len = id.as_str().unicode_len();
                let mut slots: Vec<CharWriting> = Vec::new();
                let mut i: usize = 0;
                while i < len
                    invariant
                        i <= len,
                        len == id@.len(),
                        id@ == s0[k as int]->WordEntry_0.id@,
                        self.wf(),
                        ids_unique(s0),
                        self@.len() == n,
                        n == s0.len(),
                        k < n,
                        forall|j: int| 0 <= j < n ==> #[trigger] self@[j].id_view() == s0[j].id_view(),
                        forall|j: int|
                            #![trigger self@[j]]
                            0 <= j < n && (j >= k || !(s0[j] is WordEntry && s0[j]->WordEntry_0.id@.len() > 1))
                                ==> self@[j] == s0[j],
                        slots@.len() == i,
                        forall|q: int| 0 <= q < i ==> #[trigger] slots@[q]@ == slot_for(s0, id@[q]),
                    decreases len - i,
                {
                    let c = id.as_str().get_char(i);
                    let cid = EntryId::Word(string_of_char(c));
                    let slot = match self.find(&cid) {
                        Some(j) => {
                            proof {
                                lemma_position_unique(s0, cid@, j as int);
                                assert(s0[j as int].id_view() == (IdKind::Word, seq![c]));
                                assert(self@[j as int] == s0[j as int]);
                            }
                            match &self.entries[j] {
                                CommonEntry::WordEntry(x) => if x.writing.len() > 0 {
                                    x.writing[0].copy()
                                } else {
                                    CharWriting::Char(c)
                                },
                                _ => CharWriting::Char(c),
                            }
                        },
                        None => {
                            proof {
                                assert forall|j: int| 0 <= j < s0.len() implies s0[j].id_view()
                                    != (IdKind::Word, seq![c]) by {
                                    assert(self@[j].id_view() == s0[j].id_view());
                                }
                            }
                            CharWriting::Char(c)
                        },
                    };
                    slots.push(slot);
                    i += 1;
                }
                let ghost s1 = self@;
                let mut cur = CommonEntry::SyllableEntry(
                    SyllableEntry { id: Pinyin(String::new()), audio_file: String::new() },
                );
                self.entries.set_and_swap(k, &mut cur);
                let back = match cur {
                    CommonEntry::WordEntry(mut w) => {
                        w.writing = slots;
                        CommonEntry::WordEntry(w)
                    },
                    other => other,
                };
                self.entries.set(k, back);
                proof {
                    assert(s1[k as int] == s0[k as int]);
                    assert(self@[k as int].id_view() == s0[k as int].id_view());
                    lemma_index_same_ids(s1, self@, trie_contents(self.index));
                    let b = self@[k as int]->WordEntry_0;
                    assert(b.writing@.map_values(|w: CharWriting| w@) =~= Seq::new(
                        s0[k as int]->WordEntry_0.id@.len(),
                        |i: int| slot_for(s0, s0[k as int]->WordEntry_0.id@[i]),
                    ));
                }
            }
            k += 1;
        }
    }

    /// Whether entry `k` is a word without any reading.
    pub fn needs_reading(&self, k: usize) -> (r: bool)
        requires
            k < self@.len(),
        ensures
            r == (self@[k as int] is WordEntry && self@[k as int]->WordEntry_0.pinyin@.len() == 0),
    {
        match &self.entries[k] {
            CommonEntry::WordEntry(w) => w.pinyin.len() == 0,
            _ => false,
        }
    }

    /// Gives entry `k` the reading `p` if it is a word without any reading.
    pub fn supply_reading(&mut self, k: usize, p: Pinyin)
        requires
            old(self).wf(),
            k < old(self)@.len(),
        ensures
            final(self).wf(),
            final(self)@.len() == old(self)@.len(),
            forall|j: int| 0 <= j < old(self)@.len() && j != k ==> final(self)@[j] == old(self)@[j],
            if old(self)@[k as int] is WordEntry && old(self)@[k as int]->WordEntry_0.pinyin@.len()
                == 0 {
                &&& final(self)@[k as int] is WordEntry
                &&& same_but_pinyin(
                    old(self)@[k as int]->WordEntry_0,
                    final(self)@[k as int]->WordEntry_0,
                )
                &&& final(self)@[k as int]->WordEntry_0.pinyin@ == seq![p]
            } else {
                final(self)@[k as int] == old(self)@[k as int]
            },
    {
        if self.needs_reading(k) {
            let ghost s0 = self@;
            let mut cur = CommonEntry::SyllableEntry(
                SyllableEntry { id: Pinyin(String::new()), audio_file: String::new() },
            );
            self.entries.set_and_swap(k, &mut cur);
            let back = match cur {
                CommonEntry::WordEntry(mut w) => {
                    w.pinyin.push(p);
                    CommonEntry::WordEntry(w)
                },
                other => other,
            };
            self.entries.set(k, back);
            proof {
                assert(self@[k as int]->WordEntry_0.pinyin@ =~= seq![p]);
                assert forall|j: int| 0 <= j < s0.len() implies #[trigger] self@[j].id_view()
                    == s0[j].id_view() by {}
                lemma_index_same_ids(s0, self@, trie_contents(self.index));
            }
        }
    }

    /// Drops the entries that are to be deleted, keeping the order of the rest.
    pub fn remove_deletable(&mut self)
        requires
            old(self).wf(),
        ensures
            final(self).wf(),
            final(self)@ == kept(old(self)@),
    {
        let ghost s0 = self@;
        proof {
            self.lemma_unique();
        }
        let mut src: Vec<CommonEntry> = Vec::new();
        std::mem::swap(&mut src, &mut self.entries);
        let n = src.len();
        let mut rev: Vec<CommonEntry> = Vec::new();
        while src.len() > 0
            invariant
                src@.len() + rev@.len() == n,
                n == s0.len(),
                src@ == s0.subrange(0, src@.len() as int),
                forall|j: int| 0 <= j < rev@.len() ==> #[trigger] rev@[j] == s0[n - 1 - j],
            decreases src.len(),
        {
            let e = src.pop().unwrap();
            rev.push(e);
            proof {
                assert(src@ =~= s0.subrange(0, src@.len() as int));
            }
        }
        let mut out: Vec<CommonEntry> = Vec::new();
        let mut index = trie_new();
        proof {
            assert(s0.subrange(0, 0) =~= Seq::<CommonEntry>::empty());
            assert(index_matches(out@, trie_contents(index)));
        }
        while rev.len() > 0
            invariant
                rev@.len() <= n,
                n == s0.len(),
                ids_unique(s0),
                forall|j: int| 0 <= j < rev@.len() ==> #[trigger] rev@[j] == s0[n - 1 - j],
                out@ == kept(s0.subrange(0, n - rev@.len())),
                index_matches(out@, trie_contents(index)),
                forall|j: int| 0 <= j < out@.len() ==> exists|q: int|
                    0 <= q < n - rev@.len() && #[trigger] out@[j] == s0[q],
            decreases rev.len(),
        {
            let ghost m = n - rev@.len();
            let e = rev.pop().unwrap();
            proof {
                assert(e == s0[m]);
                assert(s0.subrange(0, m + 1).drop_last() =~= s0.subrange(0, m));
            }
            if !e.to_delete() {
                let id = e.id();
                let key = key_of(&id);
                let pos = out.len();
                let ghost o0 = out@;
                let ghost t0 = trie_contents(index);
                out.push(e);
                trie_insert(&mut index, &key, 0, pos);
                proof {
                    assert(key@.subrange(0, key@.len() as int) =~= key@);
                    let t = trie_contents(index);
                    assert forall|j: int| 0 <= j < o0.len() implies o0[j].id_view() != id@ by {
                        let q = choose|q: int| 0 <= q < m && o0[j] == s0[q];
                    }
                    assert forall|j: int| 0 <= j < out@.len() implies #[trigger] t.contains_key(
                        id_key(out@[j].id_view()),
                    ) && t[id_key(out@[j].id_view())] == j by {
                        if j < o0.len() {
                            assert(out@[j] == o0[j]);
                            assert(t0.contains_key(id_key(o0[j].id_view())));
                            if id_key(o0[j].id_view()) == key@ {
                                lemma_id_key_injective(o0[j].id_view(), id@);
                            }
                        }
                    }
                    assert forall|kk: Seq<char>| #[trigger] t.contains_key(kk) implies t[kk] < out@.len()
                        && id_key(out@[t[kk] as int].id_view()) == kk by {
                        if kk != key@ {
                            assert(t0.contains_key(kk));
                        }
                    }
                    assert forall|j: int| 0 <= j < out@.len() implies exists|q: int|
                        0 <= q < m + 1 && #[trigger] out@[j] == s0[q] by {
                        if j < o0.len() {
                            let q = choose|q: int| 0 <= q < m && o0[j] == s0[q];
                            assert(out@[j] == s0[q]);
                        } else {
                            assert(out@[j] == s0[m]);
                        }
                    }
                }
            }
        }
        proof {
            assert(s0.subrange(0, n as int) =~= s0);
        }
        self.entries = out;
        self.index = index;
    }
}

/// The upper-case hexadecimal digits, in order.
pub open spec fn hex_table() -> Seq<char> {
    seq!['0', '1', '2', '3', '4', '5', '6', '7', '8', '9', 'A', 'B', 'C', 'D', 'E', 'F']
}

/// `n` in upper-case hexadecimal, without leading zeros.
pub open spec fn hex_digits(n: nat) -> Seq<char>
    decreases n,
{
    if n < 16 {
        seq![hex_table()[n as int]]
    } else {
        hex_digits(n / 16).push(hex_table()[(n % 16) as int])
    }
}

fn upper_hex(n: u64) -> (r: Vec<char>)
    ensures
        r@ == hex_digits(n as nat),
    decreases n,
{
    let table: Vec<char> = vec!['0', '1', '2', '3', '4', '5', '6', '7', '8', '9', 'A', 'B', 'C', 'D', 'E', 'F'];
    proof {
        assert(table@ =~= hex_table());
    }
    if n < 16 {
        let mut r: Vec<char> = Vec::new();
        r.push(table[n as usize]);
        proof {
            assert(r@ =~= hex_digits(n as nat));
        }
        r
    } else {
        let mut r = upper_hex(n / 16);
        r.push(table[(n % 16) as usize]);
        r
    }
}

/// Whether `w` occurs in `s` as a run of consecutive characters.
fn contains_run(w: &Vec<char>, s: &Vec<char>) -> (r: bool)
    ensures
        r == occurs_in(w@, s@),
{
    if w.len() > s.len() {
        return false;
    }
    let mut st: usize = 0;
    while st <= s.len() - w.len()
        invariant
            w.len() <= s.len(),
            forall|b: int| 0 <= b < st ==> #[trigger] s@.subrange(b, b + w@.len()) != w@,
        decreases s.len() - st,
    {
        let mut i: usize = 0;
        let mut same = true;
        while i < w.len()
            invariant
                i <= w.len(),
                st + w.len() <= s.len(),
                same == (forall|q: int| 0 <= q < i ==> s@[st + q] == w@[q]),
            decreases w.len() - i,
        {
            if s[st + i] != w[i] {
                same = false;
            }
            i += 1;
        }
        if same {
            proof {
                assert(s@.subrange(st as int, st + w@.len()) =~= w@);
            }
            return true;
        }
        proof {
            let q = choose|q: int| 0 <= q < w.len() && s@[st + q] != w@[q];
            assert(s@.subrange(st as int, st + w@.len())[q] != w@[q]);
        }
        st += 1;
    }
    false
}

/// The gloss a character gets from its Unicode name, unless the name only
/// restates its code point.
pub open spec fn name_gloss(c: char) -> Option<Seq<char>> {
    match unicode_name(c) {
        Some(n) => if occurs_in(hex_digits(c as u32 as nat), n) {
            None
        } else {
            Some(n)
        },
        None => None,
    }
}

/// `b` is `a` with only its definitions changed.
pub open spec fn same_but_definitions(a: WordEntry, b: WordEntry) -> bool {
    b == WordEntry { definitions: b.definitions, ..a }
}

impl EntryStore {
    /// Gives each single-character word without a definition the gloss of its
    /// Unicode name, when there is one.
    pub fn add_name_definitions(&mut self)
        requires
            old(self).wf(),
        ensures
            final(self).wf(),
            final(self)@.len() == old(self)@.len(),
            forall|k: int|
                #![trigger final(self)@[k]]
                0 <= k < old(self)@.len() ==> {
                    let e = old(self)@[k];
                    if e is WordEntry && e->WordEntry_0.id@.len() == 1
                        && e->WordEntry_0.definitions@.len() == 0 && name_gloss(
                        e->WordEntry_0.id@[0],
                    ) is Some {
                        let b = final(self)@[k]->WordEntry_0;
                        &&& final(self)@[k] is WordEntry
                        &&& same_but_definitions(e->WordEntry_0, b)
                        &&& b.definitions@.len() == 1
                        &&& b.definitions@[0].pinyin is None
                        &&& b.definitions@[0].english@.len() == 1
                        &&& Some(b.definitions@[0].english@[0]@) == name_gloss(e->WordEntry_0.id@[0])
                    } else {
                        final(self)@[k] == e
                    }
                },
    {
        let ghost s0 = self@;
        let n = self.entries.len();
        let mut k: usize = 0;
        while k < n
            invariant
                k <= n,
                n == s0.len(),
                self.wf(),
                self@.len() == n,
                forall|j: int| k <= j < n ==> #[trigger] self@[j] == s0[j],
                forall|j: int|
                    #![trigger self@[j]]
                    0 <= j < k ==> {
                        let e = s0[j];
                        if e is WordEntry && e->WordEntry_0.id@.len() == 1
                            && e->WordEntry_0.definitions@.len() == 0 && name_gloss(
                            e->WordEntry_0.id@[0],
                        ) is Some {
                            let b = self@[j]->WordEntry_0;
                            &&& self@[j] is WordEntry
                            &&& same_but_definitions(e->WordEntry_0, b)
                            &&& b.definitions@.len() == 1
                            &&& b.definitions@[0].pinyin is None
                            &&& b.definitions@[0].english@.len() == 1
                            &&& Some(b.definitions@[0].english@[0]@) == name_gloss(
                                e->WordEntry_0.id@[0],
                            )
                        } else {
                            self@[j] == e
                        }
                    },
            decreases n - k,
        {
            let c: Option<char> = match &self.entries[k] {
                CommonEntry::WordEntry(w) => if w.id.as_str().unicode_len() == 1
                    && w.definitions.len() == 0 {
                    Some(w.id.as_str().get_char(0))
                } else {
                    None
                },
                _ => None,
            };
            let mut gloss: Option<String> = None;
            if let Some(c) = c {
                if let Some(name) = char_name(c) {
                    let hex = upper_hex(c as u32 as u64);
                    let nc = chars_of(name.as_str());
                    if !contains_run(&hex, &nc) {
                        gloss = Some(name);
                    }
                }
            }
            if let Some(g) = gloss {
                let ghost s1 = self@;
                let mut cur = CommonEntry::SyllableEntry(
                    SyllableEntry { id: Pinyin(String::new()), audio_file: String::new() },
                );
                self.entries.set_and_swap(k, &mut cur);
                let back = match cur {
                    CommonEntry::WordEntry(mut w) => {
                        let mut english: Vec<String> = Vec::new();
                        english.push(g);
                        w.definitions.push(Definition { pinyin: None, english });
                        CommonEntry::WordEntry(w)
                    },
                    other => other,
                };
                self.entries.set(k, back);
                proof {
                    assert forall|j: int| 0 <= j < n implies #[trigger] self@[j].id_view()
                        == s1[j].id_view() by {}
                    lemma_index_same_ids(s1, self@, trie_contents(self.index));
                }
            }
            k += 1;
        }
    }
}

} // verus!
