//! Dependencies of entries, and the dependency graph of a store.
use crate::entry::{ids_view, CommonEntry, EntryId, IdKind, Triplet, word_dependencies};
use crate::outside::{segments_of, Segmenter};
use crate::selection::{graph_ok, nested_view, select, selection};
use crate::store::{ids_unique, EntryStore};
use vstd::prelude::*;

verus! {

/// The words of a text, as word identities.
pub open spec fn word_ids(words: Seq<Seq<char>>) -> Seq<(IdKind, Seq<char>)> {
    words.map_values(|t: Seq<char>| (IdKind::Word, t))
}

/// The identities an entry depends on.
pub open spec fn entry_deps(e: CommonEntry) -> Seq<(IdKind, Seq<char>)> {
    match e {
        CommonEntry::WordEntry(w) => word_dependencies(w.id@, ids_view(w.dependencies@)),
        CommonEntry::SyllableEntry(_) => Seq::empty(),
        CommonEntry::GrammarEntry(g) => word_ids(segments_of(g.structure.zh@)) + word_ids(
            segments_of(g.example.zh@),
        ),
    }
}

/// The position of the entry with identity `id` in `s`, if any.
pub open spec fn position_of(s: Seq<CommonEntry>, id: (IdKind, Seq<char>)) -> Option<int> {
    if exists|j: int| 0 <= j < s.len() && s[j].id_view() == id {
        Some(choose|j: int| 0 <= j < s.len() && s[j].id_view() == id)
    } else {
        None
    }
}

/// The positions of the identities of `ids` that are present in `s`, in order;
/// absent ones are left out.
pub open spec fn present_positions(s: Seq<CommonEntry>, ids: Seq<(IdKind, Seq<char>)>) -> Seq<
    usize,
>
    decreases ids.len(),
{
    if ids.len() == 0 {
        Seq::empty()
    } else {
        let r = present_positions(s, ids.drop_last());
        match position_of(s, ids.last()) {
            Some(j) => r.push(j as usize),
            None => r,
        }
    }
}

/// The dependency graph of a table: for each entry, the positions of the
/// entries it depends on.
pub open spec fn table_graph(s: Seq<CommonEntry>) -> Seq<Seq<usize>> {
    Seq::new(s.len(), |k: int| present_positions(s, entry_deps(s[k])))
}

impl Triplet {
    /// The words of the source text, as word identities.
    pub fn dependencies(&self, seg: &Segmenter) -> (r: Vec<EntryId>)
        ensures
            ids_view(r@) == word_ids(segments_of(self.zh@)),
    {
        let words = seg.cut(self.zh.as_str());
        let mut r: Vec<EntryId> = Vec::new();
        let mut i: usize = 0;
        while i < words.len()
            invariant
                i <= words.len(),
                r@.len() == i,
                forall|j: int| 0 <= j < i ==> #[trigger] r@[j]@ == (IdKind::Word, words@[j]@),
            decreases words.len() - i,
        {
            r.push(EntryId::Word(words[i].clone()));
            i += 1;
        }
        proof {
            assert(ids_view(r@) =~= word_ids(segments_of(self.zh@)));
        }
        r
    }
}

impl CommonEntry {
    /// The identities the entry depends on.
    pub fn dependencies(&self, seg: &Segmenter) -> (r: Vec<EntryId>)
        ensures
            ids_view(r@) == entry_deps(*self),
    {
        match self {
            CommonEntry::WordEntry(w) => w.dependencies(),
            CommonEntry::SyllableEntry(_) => {
                let r: Vec<EntryId> = Vec::new();
                proof {
                    assert(ids_view(r@) =~= Seq::<(IdKind, Seq<char>)>::empty());
                }
                r
            },
            CommonEntry::GrammarEntry(g) => {
                let mut a = g.structure.dependencies(seg);
                let mut b = g.example.dependencies(seg);
                let ghost (va, vb) = (ids_view(a@), ids_view(b@));
                a.append(&mut b);
                proof {
                    assert(ids_view(a@) =~= va + vb);
                }
                a
            },
        }
    }
}

/// With unique identities, the position found for an identity is the one
/// `position_of` names.
pub proof fn lemma_position_unique(s: Seq<CommonEntry>, id: (IdKind, Seq<char>), i: int)
    requires
        ids_unique(s),
        0 <= i < s.len(),
        s[i].id_view() == id,
    ensures
        position_of(s, id) == Some(i),
{
    let j = choose|j: int| 0 <= j < s.len() && s[j].id_view() == id;
}

impl EntryStore {
    /// The positions of the present entries among `ids`, in order.
    pub fn positions(&self, ids: &Vec<EntryId>) -> (r: Vec<usize>)
        requires
            self.wf(),
        ensures
            r@ == present_positions(self@, ids_view(ids@)),
            forall|i: int| 0 <= i < r@.len() ==> r@[i] < self@.len(),
    {
        proof {
            self.lemma_unique();
        }
        let mut r: Vec<usize> = Vec::new();
        let mut i: usize = 0;
        while i < ids.len()
            invariant
                i <= ids.len(),
                self.wf(),
                ids_unique(self@),
                r@ == present_positions(self@, ids_view(ids@.subrange(0, i as int))),
                forall|j: int| 0 <= j < r@.len() ==> r@[j] < self@.len(),
            decreases ids.len() - i,
        {
            proof {
                assert(ids_view(ids@.subrange(0, i + 1)).drop_last() =~= ids_view(
                    ids@.subrange(0, i as int),
                ));
                assert(ids_view(ids@.subrange(0, i + 1)).last() == ids@[i as int]@);
            }
            match self.find(&ids[i]) {
                Some(j) => {
                    proof {
                        lemma_position_unique(self@, ids@[i as int]@, j as int);
                    }
                    r.push(j);
                },
                None => {},
            }
            i += 1;
        }
        proof {
            assert(ids@.subrange(0, ids.len() as int) =~= ids@);
        }
        r
    }

    /// The dependency graph of the table.
    pub fn dependency_graph(&self, seg: &Segmenter) -> (r: Vec<Vec<usize>>)
        requires
            self.wf(),
        ensures
            nested_view(&r) == table_graph(self@),
    {
        let n = self.len();
        let mut r: Vec<Vec<usize>> = Vec::new();
        let mut k: usize = 0;
        while k < n
            invariant
                k <= n,
                n == self@.len(),
                self.wf(),
                r@.len() == k,
                forall|j: int| 0 <= j < k ==> #[trigger] r@[j]@ == present_positions(
                    self@,
                    entry_deps(self@[j]),
                ),
            decreases n - k,
        {
            let deps = self.entries()[k].dependencies(seg);
            let p = self.positions(&deps);
            r.push(p);
            k += 1;
        }
        proof {
            assert(nested_view(&r) =~= table_graph(self@));
        }
        r
    }

    /// Selects at most `cap` entries of the table, by position: see
    /// [`select`]. `prio` holds the priority of each entry.
    pub fn select_entries(&self, prio: &Vec<u64>, seg: &Segmenter, cap: usize, threshold: u64) -> (r:
        Vec<usize>)
        requires
            self.wf(),
            prio@.len() == self@.len(),
        ensures
            r@ == selection(prio@, table_graph(self@), cap as nat, threshold),
    {
        let g = self.dependency_graph(seg);
        proof {
            let tg = table_graph(self@);
            assert forall|i: int| 0 <= i < tg.len() implies crate::selection::ids_below(
                #[trigger] tg[i],
                tg.len() as int,
            ) by {
                lemma_present_below(self@, entry_deps(self@[i]));
            }
        }
        select(prio, &g, cap, threshold)
    }
}

pub proof fn lemma_present_below(s: Seq<CommonEntry>, ids: Seq<(IdKind, Seq<char>)>)
    ensures
        crate::selection::ids_below(present_positions(s, ids), s.len() as int),
    decreases ids.len(),
{
    if ids.len() > 0 {
        lemma_present_below(s, ids.drop_last());
        match position_of(s, ids.last()) {
            Some(j) => {
                let j2 = choose|j: int| 0 <= j < s.len() && s[j].id_view() == ids.last();
            },
            None => {},
        }
    }
}

} // verus!
