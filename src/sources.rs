//! Records of individual sources and the candidate entries they make.
use crate::entry::{
    placeholders, readings_view, CapPinyin, CharWriting, CommonEntry, Definition, Pinyin,
    WordEntry,
};
use crate::entry::{chars_of, string_of};
use crate::reading::{char_is_whitespace, trim_str, white_space, whitespace_trimmed};
use vstd::prelude::*;

verus! {

/// A word of the leveled vocabulary lists, its reading already normalized.
#[derive(Clone, Debug)]
pub struct HskEntry {
    pub tr: String,
    pub zh: String,
    pub pinyin: Pinyin,
    pub def: String,
    pub level: Option<u8>,
}

/// A candidate that carries only an identity, a reading and a level.
pub open spec fn leveled_word(w: WordEntry, id: Seq<char>, reading: Seq<char>, level: Option<u8>) -> bool {
    &&& w.id@ == id
    &&& readings_view(w.pinyin@) == seq![reading]
    &&& w.hsk_lev == level
    &&& w.definitions@.len() == 0
    &&& w.simple_definitions@.len() == 0
    &&& w.freq@.len() == 0
    &&& w.dependencies@.len() == 0
    &&& w.writing@.map_values(|x: CharWriting| x@) == placeholders(id)
    &&& w.traditional is None
    &&& w.audio_file is None
    &&& w.examples@.len() == 0
    &&& w.extra@.len() == 0
}

impl HskEntry {
    pub fn to_word_entry(&self) -> (r: WordEntry)
        ensures
            leveled_word(r, self.zh@, self.pinyin@, self.level),
    {
        let mut w = WordEntry::from_id(self.zh.clone());
        w.hsk_lev = self.level;
        w.pinyin.push(self.pinyin.copy());
        proof {
            assert(readings_view(w.pinyin@) =~= seq![self.pinyin@]);
        }
        w
    }
}

/// The words of the level lists, in order, each tagged with the level of its
/// list: the list at position `i` holds level `i + 1`.
pub open spec fn hsk_words(lists: Seq<Seq<HskEntry>>) -> Seq<(Seq<char>, Seq<char>, u8)>
    decreases lists.len(),
{
    if lists.len() == 0 {
        Seq::empty()
    } else {
        hsk_words(lists.drop_last()) + lists.last().map_values(
            |e: HskEntry| (e.zh@, e.pinyin@, lists.len() as u8),
        )
    }
}

/// The candidates of the level lists, given in order from level 1; every word
/// of a list gets the level of its list, whatever its record said.
pub fn get_hsks(lists: &Vec<Vec<HskEntry>>) -> (r: Vec<CommonEntry>)
    requires
        lists@.len() < 256,
    ensures
        ({
            let ws = hsk_words(lists@.map_values(|l: Vec<HskEntry>| l@));
            &&& r@.len() == ws.len()
            &&& forall|j: int|
                0 <= j < r@.len() ==> #[trigger] r@[j] is WordEntry && leveled_word(
                    r@[j]->WordEntry_0,
                    ws[j].0,
                    ws[j].1,
                    Some(ws[j].2),
                )
        }),
{
    let ghost lv = lists@.map_values(|l: Vec<HskEntry>| l@);
    let mut r: Vec<CommonEntry> = Vec::new();
    let mut i: usize = 0;
    while i < lists.len()
        invariant
            i <= lists.len(),
            lists@.len() < 256,
            lv == lists@.map_values(|l: Vec<HskEntry>| l@),
            r@.len() == hsk_words(lv.subrange(0, i as int)).len(),
            forall|j: int|
                0 <= j < r@.len() ==> #[trigger] r@[j] is WordEntry && leveled_word(
                    r@[j]->WordEntry_0,
                    hsk_words(lv.subrange(0, i as int))[j].0,
                    hsk_words(lv.subrange(0, i as int))[j].1,
                    Some(hsk_words(lv.subrange(0, i as int))[j].2),
                ),
        decreases lists.len() - i,
    {
        let level: u8 = (i + 1) as u8;
        let list = &lists[i];
        let ghost before = hsk_words(lv.subrange(0, i as int));
        let ghost tail = lv[i as int].map_values(|e: HskEntry| (e.zh@, e.pinyin@, (i + 1) as u8));
        proof {
            assert(lv.subrange(0, i + 1).drop_last() =~= lv.subrange(0, i as int));
            assert(hsk_words(lv.subrange(0, i + 1)) == before + tail);
        }
        proof {
            assert(tail.len() == list@.len());
        }
        let mut j: usize = 0;
        while j < list.len()
            invariant
                j <= list.len(),
                list@ == lv[i as int],
                level == (i + 1) as u8,
                tail.len() == list@.len(),
                forall|q: int| 0 <= q < list@.len() ==> #[trigger] tail[q] == (list@[q].zh@, list@[q].pinyin@, level),
                r@.len() == before.len() + j,
                forall|q: int|
                    0 <= q < r@.len() ==> #[trigger] r@[q] is WordEntry && leveled_word(
                        r@[q]->WordEntry_0,
                        (before + tail)[q].0,
                        (before + tail)[q].1,
                        Some((before + tail)[q].2),
                    ),
            decreases list.len() - j,
        {
            let mut e = list[j].clone_entry();
            e.level = Some(level);
            let w = e.to_word_entry();
            let ghost r0 = r@;
            r.push(CommonEntry::WordEntry(w));
            proof {
                let q = before.len() + j;
                assert((before + tail)[q] == tail[j as int]);
                assert(tail[j as int] == (list@[j as int].zh@, list@[j as int].pinyin@, (i + 1) as u8));
                assert forall|q2: int| 0 <= q2 < r@.len() implies #[trigger] r@[q2] is WordEntry
                    && leveled_word(
                    r@[q2]->WordEntry_0,
                    (before + tail)[q2].0,
                    (before + tail)[q2].1,
                    Some((before + tail)[q2].2),
                ) by {
                    if q2 < r0.len() {
                        assert(r@[q2] == r0[q2]);
                    }
                }
            }
            j += 1;
        }
        i += 1;
    }
    proof {
        assert(lv.subrange(0, lists@.len() as int) =~= lv);
    }
    r
}

impl HskEntry {
    pub fn clone_entry(&self) -> (r: HskEntry)
        ensures
            r.tr@ == self.tr@,
            r.zh@ == self.zh@,
            r.pinyin@ == self.pinyin@,
            r.def@ == self.def@,
            r.level == self.level,
    {
        HskEntry {
            tr: self.tr.clone(),
            zh: self.zh.clone(),
            pinyin: self.pinyin.copy(),
            def: self.def.clone(),
            level: self.level,
        }
    }
}

/// A recording found on disk: the text it speaks and its file.
#[derive(Clone, Debug)]
pub struct AudioPath {
    pub id: String,
    pub path: String,
}

impl AudioPath {
    /// A word candidate that knows only its recording.
    pub fn to_word_entry(self) -> (r: WordEntry)
        ensures
            r.id@ == self.id@,
            r.audio_file == Some(self.path),
            r.pinyin@.len() == 0,
            r.definitions@.len() == 0,
            r.hsk_lev is None,
            r.writing@.map_values(|x: CharWriting| x@) == placeholders(self.id@),
    {
        let mut w = WordEntry::from_id(self.id);
        w.audio_file = Some(self.path);
        w
    }
}

/// An entry of the dictionary: both script forms, the reading as written, and
/// the cleaned-up senses.
#[derive(Clone, Debug)]
pub struct CedictEntry {
    pub simplified: String,
    pub traditional: String,
    pub pinyin: String,
    pub definitions: Vec<String>,
}

impl CedictEntry {
    /// The word candidate of the entry; `reading` and `cap_reading` are its
    /// reading normalized, without and with its capitalization.
    pub fn to_word_entry(self, reading: Pinyin, cap_reading: CapPinyin) -> (r: WordEntry)
        ensures
            r.id@ == self.simplified@,
            r.traditional == Some(self.traditional),
            readings_view(r.pinyin@) == seq![reading@],
            self.definitions@.len() == 0 ==> r.definitions@.len() == 0,
            self.definitions@.len() > 0 ==> r.definitions@ == seq![
                Definition { pinyin: Some(cap_reading), english: self.definitions },
            ],
            r.hsk_lev is None,
            r.writing@.map_values(|x: CharWriting| x@) == placeholders(self.simplified@),
    {
        let CedictEntry { simplified, traditional, pinyin: _, definitions } = self;
        let mut w = WordEntry::from_id(simplified);
        w.traditional = Some(traditional);
        w.pinyin.push(reading);
        proof {
            assert(readings_view(w.pinyin@) =~= seq![reading@]);
        }
        if definitions.len() > 0 {
            w.definitions.push(Definition { pinyin: Some(cap_reading), english: definitions });
            proof {
                assert(w.definitions@ =~= seq![
                    Definition { pinyin: Some(cap_reading), english: definitions },
                ]);
            }
        }
        w
    }
}

/// The characters trimmed from a gloss: white space, commas and semicolons.
pub open spec fn gloss_edge(c: char) -> bool {
    white_space(c) || c == ',' || c == ';'
}

/// `s` without the gloss-edge characters at either end.
pub open spec fn trim_edges(s: Seq<char>) -> Seq<char>
    decreases s.len(),
{
    if s.len() > 0 && gloss_edge(s[0]) {
        trim_edges(s.drop_first())
    } else if s.len() > 0 && gloss_edge(s.last()) {
        trim_edges(s.drop_last())
    } else {
        s
    }
}

/// The characters of `s` outside parentheses, `depth` being how deep the
/// text before `s` left off; a parenthesis itself is dropped with its contents.
pub open spec fn unparenthesized(s: Seq<char>, depth: int) -> Seq<char>
    decreases s.len(),
{
    if s.len() == 0 {
        s
    } else {
        let d1 = depth + (if s[0] == '(' { 1int } else { 0int });
        let rest = unparenthesized(s.drop_first(), d1 - (if s[0] == ')' { 1int } else { 0int }));
        if d1 == 0 {
            seq![s[0]] + rest
        } else {
            rest
        }
    }
}

/// `s` cut at every semicolon, each piece trimmed of white space.
pub open spec fn semicolon_pieces(s: Seq<char>) -> Seq<Seq<char>>
    decreases s.len(),
{
    if s.len() == 0 {
        seq![Seq::empty()]
    } else {
        let r = semicolon_pieces(s.drop_last());
        if s.last() == ';' {
            r.push(Seq::empty())
        } else {
            r.update(r.len() - 1, r.last().push(s.last()))
        }
    }
}

/// The gloss and original meaning of an entry of the character dictionary.
#[derive(Clone, Debug)]
pub struct Dong {
    pub gloss: Option<String>,
    pub original_meaning: Option<String>,
}

pub open spec fn gloss_spec(gloss: Option<String>) -> Option<Seq<char>> {
    match gloss {
        None => None,
        Some(g) => {
            let t = trim_edges(unparenthesized(g@, 0));
            if t.len() == 0 {
                None
            } else {
                Some(t)
            }
        },
    }
}

fn trim_edge_chars(cs: &Vec<char>) -> (r: Vec<char>)
    ensures
        r@ == trim_edges(cs@),
{
    let mut lo: usize = 0;
    let mut hi: usize = cs.len();
    proof {
        assert(cs@.subrange(0, cs.len() as int) =~= cs@);
    }
    while lo < hi && (cs[lo] == ',' || cs[lo] == ';' || char_is_whitespace(cs[lo]) || cs[hi - 1]
        == ',' || cs[hi - 1] == ';' || char_is_whitespace(cs[hi - 1]))
        invariant
            lo <= hi <= cs.len(),
            trim_edges(cs@.subrange(lo as int, hi as int)) == trim_edges(cs@),
        decreases hi - lo,
    {
        let ghost u = cs@.subrange(lo as int, hi as int);
        if cs[lo] == ',' || cs[lo] == ';' || char_is_whitespace(cs[lo]) {
            proof {
                assert(u.drop_first() =~= cs@.subrange(lo + 1, hi as int));
            }
            lo += 1;
        } else {
            proof {
                assert(u.drop_last() =~= cs@.subrange(lo as int, hi - 1));
            }
            hi -= 1;
        }
    }
    let mut out: Vec<char> = Vec::new();
    let mut i: usize = lo;
    while i < hi
        invariant
            lo <= i <= hi <= cs.len(),
            out@ == cs@.subrange(lo as int, i as int),
        decreases hi - i,
    {
        out.push(cs[i]);
        proof {
            assert(out@ =~= cs@.subrange(lo as int, i + 1));
        }
        i += 1;
    }
    proof {
        let u = cs@.subrange(lo as int, hi as int);
        assert(trim_edges(u) == u);
    }
    out
}

impl Dong {
    /// The gloss without its parenthesized parts and edge punctuation, if
    /// anything is left.
    pub fn get_gloss(&self) -> (r: Option<String>)
        ensures
            match r {
                Some(s) => gloss_spec(self.gloss) == Some(s@),
                None => gloss_spec(self.gloss) is None,
            },
    {
        match &self.gloss {
            None => None,
            Some(g) => {
                let cs = chars_of(g.as_str());
                let mut kept: Vec<char> = Vec::new();
                let mut np: i128 = 0;
                let mut i: usize = 0;
                proof {
                    assert(cs@.subrange(0, cs.len() as int) =~= g@);
                }
                while i < cs.len()
                    invariant
                        i <= cs.len(),
                        cs@ == g@,
                        -(i as int) <= np <= i as int,
                        unparenthesized(g@, 0) == kept@ + unparenthesized(
                            cs@.subrange(i as int, cs.len() as int),
                            np as int,
                        ),
                    decreases cs.len() - i,
                {
                    let c = cs[i];
                    let ghost t = cs@.subrange(i as int, cs.len() as int);
                    let ghost k0 = kept@;
                    proof {
                        assert(t.drop_first() =~= cs@.subrange(i + 1, cs.len() as int));
                        assert(t[0] == c);
                    }
                    if c == '(' {
                        np += 1;
                    }
                    if np == 0 {
                        kept.push(c);
                    }
                    if c == ')' {
                        np -= 1;
                    }
                    proof {
                        if kept@.len() > k0.len() {
                            assert(kept@ + unparenthesized(t.drop_first(), np as int) =~= k0 + (
                            seq![c] + unparenthesized(t.drop_first(), np as int)));
                        }
                    }
                    i += 1;
                }
                proof {
                    assert(cs@.subrange(cs.len() as int, cs.len() as int) =~= Seq::<char>::empty());
                    assert(kept@ + Seq::<char>::empty() =~= kept@);
                }
                let t = trim_edge_chars(&kept);
                if t.len() == 0 {
                    None
                } else {
                    Some(string_of(&t))
                }
            },
        }
    }

    /// The senses of the gloss, split at semicolons and trimmed.
    pub fn get_glosses(&self) -> (r: Vec<String>)
        ensures
            match gloss_spec(self.gloss) {
                None => r@.len() == 0,
                Some(g) => r@.map_values(|s: String| s@) == semicolon_pieces(g).map_values(
                    |p: Seq<char>| whitespace_trimmed(p),
                ),
            },
    {
        match self.get_gloss() {
            None => Vec::new(),
            Some(g) => {
                let cs = chars_of(g.as_str());
                let mut pieces: Vec<Vec<char>> = Vec::new();
                let mut cur: Vec<char> = Vec::new();
                let mut i: usize = 0;
                while i < cs.len()
                    invariant
                        i <= cs.len(),
                        pieces@.map_values(|v: Vec<char>| v@).push(cur@) == semicolon_pieces(
                            cs@.subrange(0, i as int),
                        ),
                    decreases cs.len() - i,
                {
                    let ghost p0 = pieces@.map_values(|v: Vec<char>| v@);
                    let ghost c0 = cur@;
                    proof {
                        assert(cs@.subrange(0, i + 1).drop_last() =~= cs@.subrange(0, i as int));
                    }
                    if cs[i] == ';' {
                        let mut fresh: Vec<char> = Vec::new();
                        std::mem::swap(&mut fresh, &mut cur);
                        pieces.push(fresh);
                        proof {
                            assert(pieces@.map_values(|v: Vec<char>| v@).push(cur@) =~= p0.push(
                                c0,
                            ).push(Seq::empty()));
                        }
                    } else {
                        cur.push(cs[i]);
                        proof {
                            assert(pieces@.map_values(|v: Vec<char>| v@).push(cur@) =~= p0.push(
                                c0,
                            ).update(p0.len() as int, c0.push(cs@[i as int])));
                        }
                    }
                    i += 1;
                }
                let ghost p1 = pieces@.map_values(|v: Vec<char>| v@);
                pieces.push(cur);
                proof {
                    assert(cs@.subrange(0, cs.len() as int) =~= g@);
                    assert(pieces@.map_values(|v: Vec<char>| v@) =~= semicolon_pieces(g@));
                }
                let ghost all = pieces@.map_values(|v: Vec<char>| v@);
                let mut r: Vec<String> = Vec::new();
                let mut k: usize = 0;
                while k < pieces.len()
                    invariant
                        k <= pieces.len(),
                        all == pieces@.map_values(|v: Vec<char>| v@),
                        r@.len() == k,
                        forall|q: int| 0 <= q < k ==> #[trigger] r@[q]@ == whitespace_trimmed(all[q]),
                    decreases pieces.len() - k,
                {
                    let s = string_of(&pieces[k]);
                    r.push(trim_str(s.as_str()));
                    k += 1;
                }
                proof {
                    assert(r@.map_values(|s: String| s@) =~= all.map_values(
                        |p: Seq<char>| whitespace_trimmed(p),
                    ));
                }
                r
            },
        }
    }

    /// The original meaning, trimmed, if anything is left.
    pub fn get_original(&self) -> (r: Option<String>)
        ensures
            match r {
                Some(s) => self.original_meaning matches Some(om) && s@ == whitespace_trimmed(om@)
                    && s@.len() > 0,
                None => self.original_meaning matches Some(om) ==> whitespace_trimmed(om@).len()
                    == 0,
            },
    {
        match &self.original_meaning {
            None => None,
            Some(om) => {
                let og = trim_str(om.as_str());
                if og.as_str().unicode_len() == 0 {
                    None
                } else {
                    Some(og)
                }
            },
        }
    }
}

} // verus!
