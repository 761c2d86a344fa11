//! Entry identities and the three kinds of study entries.
use vstd::prelude::*;
use vstd::seq_lib::{lemma_multiset_commutative, lemma_seq_contains_after_push};
use vstd::string::*;
use crate::utils::{good_cjk, is_good_cjk, is_good_cjk_spec};

verus! {

/// A normalized phonetic reading.
#[derive(Clone, Debug, Eq, Hash)]
pub struct Pinyin(pub String);

impl View for Pinyin {
    type V = Seq<char>;

    open spec fn view(&self) -> Seq<char> {
        self.0@
    }
}

impl PartialEq for Pinyin {
    fn eq(&self, o: &Pinyin) -> (r: bool) {
        self.0 == o.0
    }
}

impl vstd::std_specs::cmp::PartialEqSpecImpl for Pinyin {
    open spec fn obeys_eq_spec() -> bool {
        true
    }

    open spec fn eq_spec(&self, o: &Pinyin) -> bool {
        self@ == o@
    }
}

impl Pinyin {
    /// Wraps a reading that is already in normalized form.
    pub fn from_normalized(s: String) -> (r: Pinyin)
        ensures
            r@ == s@,
    {
        Pinyin(s)
    }

    pub fn as_str(&self) -> (r: &str)
        ensures
            r@ == self@,
    {
        self.0.as_str()
    }

    pub fn copy(&self) -> (r: Pinyin)
        ensures
            r@ == self@,
    {
        Pinyin(self.0.clone())
    }

    pub fn same(&self, o: &Pinyin) -> (r: bool)
        ensures
            r == (self@ == o@),
    {
        self.0 == o.0
    }
}

/// A reading that remembers whether it was written capitalized (a proper noun).
#[derive(Clone, Debug, PartialEq, Eq, Hash)]
pub struct CapPinyin {
    pub py: String,
    pub cap: bool,
}

impl CapPinyin {
    /// The reading as it is, not capitalized.
    pub fn from_reading(p: Pinyin) -> (r: CapPinyin)
        ensures
            r.py@ == p@,
            !r.cap,
    {
        CapPinyin { py: p.0, cap: false }
    }

    pub fn is_capitalized(&self) -> (r: bool)
        ensures
            r == self.cap,
    {
        self.cap
    }

    pub fn same(&self, o: &CapPinyin) -> (r: bool)
        ensures
            r == (self.py@ == o.py@ && self.cap == o.cap),
    {
        self.py == o.py && self.cap == o.cap
    }
}

/// The kind of an entry, part of its identity.
#[derive(Clone, Copy, Debug, PartialEq, Eq, Structural, Hash)]
pub enum IdKind {
    Word,
    Syllable,
    Grammar,
}

/// The identity of an entry: its kind and its text. It is the merge and lookup key.
#[derive(Clone, Debug, Eq, Hash)]
pub enum EntryId {
    Word(String),
    Syllable(String),
    Grammar(String),
}

impl View for EntryId {
    type V = (IdKind, Seq<char>);

    open spec fn view(&self) -> (IdKind, Seq<char>) {
        match self {
            EntryId::Word(s) => (IdKind::Word, s@),
            EntryId::Syllable(s) => (IdKind::Syllable, s@),
            EntryId::Grammar(s) => (IdKind::Grammar, s@),
        }
    }
}

impl EntryId {
    pub fn kind(&self) -> (r: IdKind)
        ensures
            r == self@.0,
    {
        match self {
            EntryId::Word(_) => IdKind::Word,
            EntryId::Syllable(_) => IdKind::Syllable,
            EntryId::Grammar(_) => IdKind::Grammar,
        }
    }

    /// The text of the identity, without its kind.
    pub fn text(&self) -> (r: &String)
        ensures
            r@ == self@.1,
    {
        match self {
            EntryId::Word(s) => s,
            EntryId::Syllable(s) => s,
            EntryId::Grammar(s) => s,
        }
    }

    pub fn copy(&self) -> (r: EntryId)
        ensures
            r@ == self@,
    {
        match self {
            EntryId::Word(s) => EntryId::Word(s.clone()),
            EntryId::Syllable(s) => EntryId::Syllable(s.clone()),
            EntryId::Grammar(s) => EntryId::Grammar(s.clone()),
        }
    }

    pub fn same(&self, o: &EntryId) -> (r: bool)
        ensures
            r == (self@ == o@),
    {
        match self {
            EntryId::Word(a) => match o {
                EntryId::Word(b) => *a == *b,
                _ => false,
            },
            EntryId::Syllable(a) => match o {
                EntryId::Syllable(b) => *a == *b,
                _ => false,
            },
            EntryId::Grammar(a) => match o {
                EntryId::Grammar(b) => *a == *b,
                _ => false,
            },
        }
    }
}

impl PartialEq for EntryId {
    fn eq(&self, o: &EntryId) -> (r: bool) {
        self.same(o)
    }
}

impl vstd::std_specs::cmp::PartialEqSpecImpl for EntryId {
    open spec fn obeys_eq_spec() -> bool {
        true
    }

    open spec fn eq_spec(&self, o: &EntryId) -> bool {
        self@ == o@
    }
}

/// One sense group: an optional reading it belongs to and its glosses.
#[derive(Clone, Debug)]
pub struct Definition {
    pub pinyin: Option<CapPinyin>,
    pub english: Vec<String>,
}

/// One stroke of a character: its outline path and where it starts.
#[derive(Clone, Debug)]
pub struct Stroke {
    pub path: String,
    pub start_x: i32,
    pub start_y: i32,
}

/// A stroke as values.
pub struct StrokeView {
    pub path: Seq<char>,
    pub start_x: i32,
    pub start_y: i32,
}

impl View for Stroke {
    type V = StrokeView;

    open spec fn view(&self) -> StrokeView {
        StrokeView { path: self.path@, start_x: self.start_x, start_y: self.start_y }
    }
}

impl Stroke {
    pub fn copy(&self) -> (r: Stroke)
        ensures
            r@ == self@,
    {
        Stroke { path: self.path.clone(), start_x: self.start_x, start_y: self.start_y }
    }
}

/// What a writing slot holds, as values.
pub enum WritingView {
    Strokes(Seq<StrokeView>),
    Placeholder(u32),
}

/// The writing of one character: resolved stroke data, or only the character.
#[derive(Clone, Debug)]
pub enum CharWriting {
    Strokes(Vec<Stroke>),
    Char(char),
}

impl View for CharWriting {
    type V = WritingView;

    open spec fn view(&self) -> WritingView {
        match self {
            CharWriting::Strokes(v) => WritingView::Strokes(v@.map_values(|s: Stroke| s@)),
            CharWriting::Char(c) => WritingView::Placeholder(*c as u32),
        }
    }
}

impl CharWriting {
    pub fn is_placeholder(&self) -> (r: bool)
        ensures
            r == (self is Char),
    {
        match self {
            CharWriting::Char(_) => true,
            CharWriting::Strokes(_) => false,
        }
    }

    pub fn copy(&self) -> (r: CharWriting)
        ensures
            r@ == self@,
    {
        match self {
            CharWriting::Char(c) => CharWriting::Char(*c),
            CharWriting::Strokes(v) => {
                let mut r: Vec<Stroke> = Vec::new();
                let mut i: usize = 0;
                while i < v.len()
                    invariant
                        i <= v.len(),
                        r.len() == i,
                        forall|j: int| 0 <= j < i ==> r@[j]@ == v@[j]@,
                    decreases v.len() - i,
                {
                    r.push(v[i].copy());
                    i += 1;
                }
                proof {
                    assert(r@.map_values(|s: Stroke| s@) =~= v@.map_values(|s: Stroke| s@));
                }
                CharWriting::Strokes(r)
            },
        }
    }
}

/// A bilingual example: source text, translation, and reading.
#[derive(Clone, Debug)]
pub struct Triplet {
    pub zh: String,
    pub en: String,
    pub py: Pinyin,
}

/// The readings of a list, as values.
pub open spec fn readings_view(v: Seq<Pinyin>) -> Seq<Seq<char>> {
    v.map_values(|p: Pinyin| p@)
}

/// The identities of a list, as values.
pub open spec fn ids_view(v: Seq<EntryId>) -> Seq<(IdKind, Seq<char>)> {
    v.map_values(|e: EntryId| e@)
}

/// `a` followed by each item of `b` that is not already there, in order.
pub open spec fn add_missing<A>(a: Seq<A>, b: Seq<A>) -> Seq<A>
    decreases b.len(),
{
    if b.len() == 0 {
        a
    } else {
        let r = add_missing(a, b.drop_last());
        if r.contains(b.last()) {
            r
        } else {
            r.push(b.last())
        }
    }
}

/// The characters of `s` as word identities.
pub open spec fn char_ids(s: Seq<char>) -> Seq<(IdKind, Seq<char>)> {
    s.map_values(|c: char| (IdKind::Word, seq![c]))
}

pub fn contains_reading(v: &Vec<Pinyin>, p: &Pinyin) -> (r: bool)
    ensures
        r == readings_view(v@).contains(p@),
{
    let mut i: usize = 0;
    while i < v.len()
        invariant
            i <= v.len(),
            forall|j: int| 0 <= j < i ==> v@[j]@ != p@,
        decreases v.len() - i,
    {
        if v[i].same(p) {
            proof {
                assert(readings_view(v@)[i as int] == p@);
            }
            return true;
        }
        i += 1;
    }
    proof {
        if readings_view(v@).contains(p@) {
            let j = choose|j: int| 0 <= j < v.len() && readings_view(v@)[j] == p@;
            assert(v@[j]@ == p@);
        }
    }
    false
}

pub fn contains_id(v: &Vec<EntryId>, id: &EntryId) -> (r: bool)
    ensures
        r == ids_view(v@).contains(id@),
{
    let mut i: usize = 0;
    while i < v.len()
        invariant
            i <= v.len(),
            forall|j: int| 0 <= j < i ==> v@[j]@ != id@,
        decreases v.len() - i,
    {
        if v[i].same(id) {
            proof {
                assert(ids_view(v@)[i as int] == id@);
            }
            return true;
        }
        i += 1;
    }
    proof {
        if ids_view(v@).contains(id@) {
            let j = choose|j: int| 0 <= j < v.len() && ids_view(v@)[j] == id@;
            assert(v@[j]@ == id@);
        }
    }
    false
}

/// The characters of a string, in order.
pub fn chars_of(s: &str) -> (r: Vec<char>)
    ensures
        r@ == s@,
{
    let n = s.unicode_len();
    let mut r: Vec<char> = Vec::new();
    let mut i: usize = 0;
    while i < n
        invariant
            i <= n,
            n == s@.len(),
            r@ == s@.subrange(0, i as int),
        decreases n - i,
    {
        r.push(s.get_char(i));
        proof {
            assert(r@ =~= s@.subrange(0, i + 1));
        }
        i += 1;
    }
    proof {
        assert(s@.subrange(0, n as int) =~= s@);
    }
    r
}

/// A word or single-character entry, built up from the records of many sources.
#[derive(Clone, Debug)]
pub struct WordEntry {
    pub id: String,
    pub pinyin: Vec<Pinyin>,
    pub definitions: Vec<Definition>,
    pub simple_definitions: Vec<String>,
    /// Frequency samples, each a fraction of corpus mass in units of `FREQ_ONE`.
    pub freq: Vec<u64>,
    pub hsk_lev: Option<u8>,
    pub dependencies: Vec<EntryId>,
    pub writing: Vec<CharWriting>,
    pub traditional: Option<String>,
    pub audio_file: Option<String>,
    pub examples: Vec<Triplet>,
    pub extra: Vec<String>,
}

/// Unit of frequency samples: a sample of `FREQ_ONE` is the whole corpus.
pub const FREQ_ONE: u64 = 1_000_000_000_000;

/// A writing slot per character, each holding only its character.
pub open spec fn placeholders(s: Seq<char>) -> Seq<WritingView> {
    Seq::new(s.len(), |i: int| WritingView::Placeholder(s[i] as u32))
}

/// The writing after a merge: an unresolved slot takes the other side's slot.
pub open spec fn merged_writing(a: Seq<CharWriting>, b: Seq<CharWriting>) -> Seq<CharWriting> {
    Seq::new(a.len(), |i: int| if i < b.len() && a[i] is Char { b[i] } else { a[i] })
}

/// The first value present.
pub open spec fn first_present<T>(a: Option<T>, b: Option<T>) -> Option<T> {
    if a is Some {
        a
    } else {
        b
    }
}

/// The lower level when both are present, else whichever is present.
pub open spec fn merged_level(a: Option<u8>, b: Option<u8>) -> Option<u8> {
    match (a, b) {
        (Some(x), Some(y)) => Some(if x <= y { x } else { y }),
        (Some(_), None) => a,
        _ => b,
    }
}

/// `new` is `base` with `o` merged into it.
pub open spec fn word_merge(base: WordEntry, o: WordEntry, new: WordEntry) -> bool {
    &&& new.id@ == base.id@
    &&& readings_view(new.pinyin@) == add_missing(readings_view(base.pinyin@), readings_view(o.pinyin@))
    &&& ids_view(new.dependencies@) == add_missing(ids_view(base.dependencies@), ids_view(o.dependencies@))
    &&& new.definitions@ == base.definitions@ + o.definitions@
    &&& new.simple_definitions@ == base.simple_definitions@ + o.simple_definitions@
    &&& new.freq@ == base.freq@ + o.freq@
    &&& new.examples@ == base.examples@ + o.examples@
    &&& new.extra@ == base.extra@ + o.extra@
    &&& new.writing@ == merged_writing(base.writing@, o.writing@)
    &&& new.traditional == first_present(base.traditional, o.traditional)
    &&& new.audio_file == first_present(base.audio_file, o.audio_file)
    &&& new.hsk_lev == merged_level(base.hsk_lev, o.hsk_lev)
}

/// The dependencies of a word: its explicit ones, then each of its characters
/// not already listed, when it has more than one character.
pub open spec fn word_dependencies(id: Seq<char>, explicit: Seq<(IdKind, Seq<char>)>) -> Seq<
    (IdKind, Seq<char>),
> {
    if id.len() > 1 {
        add_missing(explicit, char_ids(id))
    } else {
        explicit
    }
}

/// The rule for dropping a word before selection: unleveled, and either with
/// no ideographic character, or a single character with no resolved writing
/// slot and no definition.
pub open spec fn word_deletable(w: WordEntry) -> bool {
    &&& w.hsk_lev is None
    &&& (!has_good_cjk(w.id@) || (w.id@.len() == 1 && (forall|i: int|
        0 <= i < w.writing@.len() ==> w.writing@[i] is Char) && w.definitions@.len() == 0))
}

/// Whether some character of `s` is ideographic.
pub open spec fn has_good_cjk(s: Seq<char>) -> bool {
    exists|i: int| 0 <= i < s.len() && is_good_cjk_spec(s[i] as u32)
}

/// Appends to `v` each reading of `o` it lacks.
fn add_missing_readings(v: &mut Vec<Pinyin>, o: &Vec<Pinyin>)
    ensures
        readings_view(final(v)@) == add_missing(readings_view(old(v)@), readings_view(o@)),
{
    let ghost a = readings_view(v@);
    let mut i: usize = 0;
    while i < o.len()
        invariant
            i <= o.len(),
            readings_view(v@) == add_missing(a, readings_view(o@.subrange(0, i as int))),
        decreases o.len() - i,
    {
        proof {
            assert(readings_view(o@.subrange(0, i + 1)).drop_last() =~= readings_view(
                o@.subrange(0, i as int),
            ));
        }
        let ghost before = readings_view(v@);
        if !contains_reading(v, &o[i]) {
            v.push(o[i].copy());
            proof {
                assert(readings_view(v@) =~= before.push(o@[i as int]@));
            }
        }
        i += 1;
    }
    proof {
        assert(o@.subrange(0, o.len() as int) =~= o@);
    }
}

/// Appends to `v` each identity of `o` it lacks.
fn add_missing_ids(v: &mut Vec<EntryId>, o: &Vec<EntryId>)
    ensures
        ids_view(final(v)@) == add_missing(ids_view(old(v)@), ids_view(o@)),
{
    let ghost a = ids_view(v@);
    let mut i: usize = 0;
    while i < o.len()
        invariant
            i <= o.len(),
            ids_view(v@) == add_missing(a, ids_view(o@.subrange(0, i as int))),
        decreases o.len() - i,
    {
        proof {
            assert(ids_view(o@.subrange(0, i + 1)).drop_last() =~= ids_view(
                o@.subrange(0, i as int),
            ));
        }
        let ghost before = ids_view(v@);
        if !contains_id(v, &o[i]) {
            v.push(o[i].copy());
            proof {
                assert(ids_view(v@) =~= before.push(o@[i as int]@));
            }
        }
        i += 1;
    }
    proof {
        assert(o@.subrange(0, o.len() as int) =~= o@);
    }
}

/// An unresolved writing slot for each character of `s`.
fn placeholder_slots(s: &str) -> (r: Vec<CharWriting>)
    ensures
        r@.map_values(|w: CharWriting| w@) == placeholders(s@),
{
    let ghost t: Seq<char> = s@;
    let n = s.unicode_len();
    let mut slots: Vec<CharWriting> = Vec::new();
    let mut i: usize = 0;
    while i < n
        invariant
            i <= n,
            t == s@,
            n == t.len(),
            slots@.len() == i,
            forall|j: int| 0 <= j < i ==> slots@[j] == CharWriting::Char(t[j]),
        decreases n - i,
    {
        let c = s.get_char(i);
        slots.push(CharWriting::Char(c));
        i += 1;
    }
    proof {
        let m = slots@.map_values(|w: CharWriting| w@);
        assert forall|j: int| 0 <= j < n implies m[j] == placeholders(t)[j] by {
            assert(slots@[j] == CharWriting::Char(t[j]));
        }
        assert(m =~= placeholders(t));
    }
    slots
}

impl WordEntry {
    /// An entry that knows nothing yet but its identity; each character gets
    /// an unresolved writing slot.
    pub fn from_id(id: String) -> (r: WordEntry)
        ensures
            r.id@ == id@,
            r.pinyin@.len() == 0,
            r.definitions@.len() == 0,
            r.simple_definitions@.len() == 0,
            r.freq@.len() == 0,
            r.hsk_lev is None,
            r.dependencies@.len() == 0,
            r.writing@.map_values(|w: CharWriting| w@) == placeholders(id@),
            r.traditional is None,
            r.audio_file is None,
            r.examples@.len() == 0,
            r.extra@.len() == 0,
    {
        let slots = placeholder_slots(id.as_str());
        WordEntry {
            id,
            pinyin: Vec::new(),
            definitions: Vec::new(),
            simple_definitions: Vec::new(),
            freq: Vec::new(),
            hsk_lev: None,
            dependencies: Vec::new(),
            writing: slots,
            traditional: None,
            audio_file: None,
            examples: Vec::new(),
            extra: Vec::new(),
        }
    }

    pub fn id(&self) -> (r: EntryId)
        ensures
            r@ == (IdKind::Word, self.id@),
    {
        EntryId::Word(self.id.clone())
    }

    /// Folds `o`, a record for the same word, into this entry: readings and
    /// dependencies gain what they lack, lists are appended, an unresolved
    /// writing slot takes the other side's slot, the first traditional form and
    /// audio present win, and the lower level wins.
    pub fn merge(&mut self, o: WordEntry)
        requires
            old(self).id@ == o.id@,
        ensures
            word_merge(*old(self), o, *final(self)),
            final(self).id == old(self).id,
    {
        let ghost base = *self;
        let ghost other = o;
        add_missing_readings(&mut self.pinyin, &o.pinyin);
        add_missing_ids(&mut self.dependencies, &o.dependencies);
        let WordEntry {
            id: _,
            pinyin: _,
            mut definitions,
            mut simple_definitions,
            mut freq,
            hsk_lev,
            dependencies: _,
            mut writing,
            traditional,
            audio_file,
            mut examples,
            mut extra,
        } = o;
        self.definitions.append(&mut definitions);
        self.simple_definitions.append(&mut simple_definitions);
        self.freq.append(&mut freq);
        self.examples.append(&mut examples);
        self.extra.append(&mut extra);

        let mut mine: Vec<CharWriting> = Vec::new();
        std::mem::swap(&mut mine, &mut self.writing);
        let ghost a = mine@;
        let ghost b = writing@;
        let mut i: usize = 0;
        while i < mine.len() && writing.len() > 0
            invariant
                i <= a.len(),
                mine@.len() == a.len(),
                i <= b.len(),
                writing@ == b.subrange(i as int, b.len() as int),
                forall|j: int|
                    0 <= j < a.len() ==> #[trigger] mine@[j] == (if j < i && j < b.len()
                        && a[j] is Char {
                        b[j]
                    } else {
                        a[j]
                    }),
            decreases writing.len(),
        {
            let w = writing.remove(0);
            proof {
                assert(w == b[i as int]);
            }
            if mine[i].is_placeholder() {
                mine.set(i, w);
            }
            i += 1;
        }
        proof {
            assert(mine@ =~= merged_writing(a, b));
        }
        self.writing = mine;

        if self.traditional.is_none() {
            self.traditional = traditional;
        }
        if self.audio_file.is_none() {
            self.audio_file = audio_file;
        }
        self.hsk_lev = match (self.hsk_lev, hsk_lev) {
            (Some(x), Some(y)) => Some(if x <= y { x } else { y }),
            (Some(x), None) => Some(x),
            (None, y) => y,
        };
    }

    /// The explicit dependencies, then each character of a multi-character word.
    pub fn dependencies(&self) -> (r: Vec<EntryId>)
        ensures
            ids_view(r@) == word_dependencies(self.id@, ids_view(self.dependencies@)),
    {
        let mut deps: Vec<EntryId> = Vec::new();
        let mut i: usize = 0;
        while i < self.dependencies.len()
            invariant
                i <= self.dependencies.len(),
                deps@.len() == i,
                forall|j: int| 0 <= j < i ==> deps@[j]@ == self.dependencies@[j]@,
            decreases self.dependencies.len() - i,
        {
            deps.push(self.dependencies[i].copy());
            i += 1;
        }
        proof {
            assert(ids_view(deps@) =~= ids_view(self.dependencies@));
        }
        let cs = chars_of(self.id.as_str());
        if cs.len() > 1 {
            let ghost a = ids_view(deps@);
            let mut k: usize = 0;
            while k < cs.len()
                invariant
                    k <= cs.len(),
                    cs@ == self.id@,
                    ids_view(deps@) == add_missing(a, char_ids(cs@.subrange(0, k as int))),
                decreases cs.len() - k,
            {
                proof {
                    assert(char_ids(cs@.subrange(0, k + 1)).drop_last() =~= char_ids(
                        cs@.subrange(0, k as int),
                    ));
                }
                let c = EntryId::Word(string_of_char(cs[k]));
                let ghost before = ids_view(deps@);
                if !contains_id(&deps, &c) {
                    deps.push(c);
                    proof {
                        assert(ids_view(deps@) =~= before.push(c@));
                    }
                }
                k += 1;
            }
            proof {
                assert(cs@.subrange(0, cs.len() as int) =~= cs@);
            }
        }
        deps
    }

    /// Whether some writing slot is missing or unresolved.
    pub fn is_missing_some_writing(&self) -> (r: bool)
        ensures
            r == (self.writing@.len() != self.id@.len() || exists|i: int|
                0 <= i < self.writing@.len() && self.writing@[i] is Char),
    {
        if self.writing.len() != self.id.as_str().unicode_len() {
            return true;
        }
        let mut i: usize = 0;
        while i < self.writing.len()
            invariant
                i <= self.writing.len(),
                forall|j: int| 0 <= j < i ==> !(self.writing@[j] is Char),
            decreases self.writing.len() - i,
        {
            if self.writing[i].is_placeholder() {
                return true;
            }
            i += 1;
        }
        false
    }

    /// Whether some character of the identity is ideographic.
    pub fn has_ideograph(&self) -> (r: bool)
        ensures
            r == has_good_cjk(self.id@),
    {
        let n = self.id.as_str().unicode_len();
        let mut i: usize = 0;
        while i < n
            invariant
                i <= n,
                n == self.id@.len(),
                forall|j: int| 0 <= j < i ==> !good_cjk(self.id@[j]),
            decreases n - i,
        {
            if is_good_cjk(self.id.as_str().get_char(i)) {
                proof {
                    assert(good_cjk(self.id@[i as int]));
                }
                return true;
            }
            i += 1;
        }
        false
    }

    /// An unleveled entry is dropped when it has no ideographic character, or
    /// when it is a single character with neither a resolved writing slot nor
    /// a definition. A level protects an entry whatever it lacks.
    pub fn to_delete(&self) -> (r: bool)
        ensures
            r == word_deletable(*self),
    {
        if self.hsk_lev.is_some() {
            return false;
        }
        if !self.has_ideograph() {
            return true;
        }
        if self.id.as_str().unicode_len() != 1 || self.definitions.len() != 0 {
            return false;
        }
        let mut i: usize = 0;
        while i < self.writing.len()
            invariant
                i <= self.writing.len(),
                self.hsk_lev is None,
                has_good_cjk(self.id@),
                self.id@.len() == 1,
                self.definitions@.len() == 0,
                forall|j: int| 0 <= j < i ==> self.writing@[j] is Char,
            decreases self.writing.len() - i,
        {
            if !self.writing[i].is_placeholder() {
                proof {
                    assert(!(self.writing@[i as int] is Char));
                }
                return false;
            }
            i += 1;
        }
        true
    }

    /// The media files the entry refers to.
    pub fn media(&self) -> (r: Vec<String>)
        ensures
            r@.len() == (if self.audio_file is Some { 1int } else { 0int }),
            self.audio_file is Some ==> r@[0]@ == self.audio_file->0@,
    {
        let mut r: Vec<String> = Vec::new();
        match &self.audio_file {
            Some(f) => r.push(f.clone()),
            None => {},
        }
        r
    }
}

/// A syllable entry: a reading and its recording. Syllables are always kept.
#[derive(Clone, Debug)]
pub struct SyllableEntry {
    pub id: Pinyin,
    pub audio_file: String,
}

impl SyllableEntry {
    pub fn id(&self) -> (r: EntryId)
        ensures
            r@ == (IdKind::Syllable, self.id@),
    {
        EntryId::Syllable(self.id.0.clone())
    }

    pub fn media(&self) -> (r: Vec<String>)
        ensures
            r@.len() == 1,
            r@[0]@ == self.audio_file@,
    {
        let mut r: Vec<String> = Vec::new();
        r.push(self.audio_file.clone());
        r
    }
}

/// A grammar point: its structure, an example, and its place in the curriculum.
#[derive(Clone, Debug)]
pub struct GrammarEntry {
    pub id: String,
    pub structure: Triplet,
    pub example: Triplet,
    pub hsk_lev: Option<u8>,
    /// Position within the level, from 0 (taught first) to `SUBLEVEL_ONE` (last).
    pub hsk_sublev: Option<u64>,
}

/// The sub-level position of the last point of a level.
pub const SUBLEVEL_ONE: u64 = 1_000_000;

impl GrammarEntry {
    pub fn id(&self) -> (r: EntryId)
        ensures
            r@ == (IdKind::Grammar, self.id@),
    {
        EntryId::Grammar(self.id.clone())
    }
}

/// An entry of any kind.
#[derive(Clone, Debug)]
pub enum CommonEntry {
    WordEntry(WordEntry),
    SyllableEntry(SyllableEntry),
    GrammarEntry(GrammarEntry),
}

impl CommonEntry {
    pub open spec fn id_view(&self) -> (IdKind, Seq<char>) {
        match self {
            CommonEntry::WordEntry(w) => (IdKind::Word, w.id@),
            CommonEntry::SyllableEntry(s) => (IdKind::Syllable, s.id@),
            CommonEntry::GrammarEntry(g) => (IdKind::Grammar, g.id@),
        }
    }

    pub fn id(&self) -> (r: EntryId)
        ensures
            r@ == self.id_view(),
    {
        match self {
            CommonEntry::WordEntry(w) => w.id(),
            CommonEntry::SyllableEntry(s) => s.id(),
            CommonEntry::GrammarEntry(g) => g.id(),
        }
    }

    pub open spec fn deletable(&self) -> bool {
        match self {
            CommonEntry::WordEntry(w) => word_deletable(*w),
            _ => false,
        }
    }

    /// Whether the entry is dropped before selection; only words can be.
    pub fn to_delete(&self) -> (r: bool)
        ensures
            r == self.deletable(),
    {
        match self {
            CommonEntry::WordEntry(w) => w.to_delete(),
            _ => false,
        }
    }

    pub fn media(&self) -> (r: Vec<String>)
        ensures
            self is WordEntry ==> r@.len() == (if self->WordEntry_0.audio_file is Some { 1int } else { 0int }),
            self is SyllableEntry ==> r@.len() == 1 && r@[0]@ == self->SyllableEntry_0.audio_file@,
            self is GrammarEntry ==> r@.len() == 0,
    {
        match self {
            CommonEntry::WordEntry(w) => w.media(),
            CommonEntry::SyllableEntry(s) => s.media(),
            CommonEntry::GrammarEntry(_) => Vec::new(),
        }
    }
}

/// Relies on `String: FromIterator<char>`: a string of exactly the given characters.
#[verifier::external_body]
pub(crate) fn string_of(cs: &Vec<char>) -> (r: String)
    ensures
        r@ == cs@,
{
    cs.iter().collect()
}

/// The one-character string of `c`.
pub fn string_of_char(c: char) -> (r: String)
    ensures
        r@ == seq![c],
{
    let mut v: Vec<char> = Vec::new();
    v.push(c);
    proof {
        assert(v@ =~= seq![c]);
    }
    string_of(&v)
}


/// Adding what is missing gives the union of the two sets of items.
pub proof fn lemma_add_missing_set<A>(a: Seq<A>, b: Seq<A>)
    ensures
        add_missing(a, b).to_set() == a.to_set().union(b.to_set()),
    decreases b.len(),
{
    if b.len() > 0 {
        let r = add_missing(a, b.drop_last());
        lemma_add_missing_set(a, b.drop_last());
        assert(b =~= b.drop_last().push(b.last()));
        assert forall|x: A| add_missing(a, b).to_set().contains(x) <==> a.to_set().union(
            b.to_set(),
        ).contains(x) by {
            lemma_seq_contains_after_push(r, b.last(), x);
            lemma_seq_contains_after_push(b.drop_last(), b.last(), x);
            assert(r.to_set().contains(x) == a.to_set().union(b.drop_last().to_set()).contains(x));
            assert(r.contains(x) == (a.contains(x) || b.drop_last().contains(x)));
        }
        assert(add_missing(a, b).to_set() =~= a.to_set().union(b.to_set()));
    } else {
        assert(a.to_set().union(b.to_set()) =~= a.to_set());
    }
}

pub proof fn lemma_concat_swap_multiset<A>(x: Seq<A>, a: Seq<A>, b: Seq<A>)
    ensures
        (x + a + b).to_multiset() == (x + b + a).to_multiset(),
{
    lemma_multiset_commutative(x + a, b);
    lemma_multiset_commutative(x, a);
    lemma_multiset_commutative(x + b, a);
    lemma_multiset_commutative(x, b);
    assert((x + a + b).to_multiset() =~= (x + b + a).to_multiset());
}

/// Merging two records for one word into a base entry, in either order, gives
/// the same set of readings and of dependencies, and the same definitions,
/// glosses, frequency samples, examples and annotations, counted with
/// multiplicity. The order-sensitive fields take the first value present, as
/// `word_merge` states for each step.
pub proof fn lemma_merge_commutes(
    base: WordEntry,
    a: WordEntry,
    b: WordEntry,
    ab1: WordEntry,
    ab: WordEntry,
    ba1: WordEntry,
    ba: WordEntry,
)
    requires
        word_merge(base, a, ab1),
        word_merge(ab1, b, ab),
        word_merge(base, b, ba1),
        word_merge(ba1, a, ba),
    ensures
        readings_view(ab.pinyin@).to_set() == readings_view(ba.pinyin@).to_set(),
        ids_view(ab.dependencies@).to_set() == ids_view(ba.dependencies@).to_set(),
        ab.definitions@.to_multiset() == ba.definitions@.to_multiset(),
        ab.simple_definitions@.to_multiset() == ba.simple_definitions@.to_multiset(),
        ab.freq@.to_multiset() == ba.freq@.to_multiset(),
        ab.examples@.to_multiset() == ba.examples@.to_multiset(),
        ab.extra@.to_multiset() == ba.extra@.to_multiset(),
        ab.hsk_lev == ba.hsk_lev,
{
    let (p0, pa, pb) = (readings_view(base.pinyin@), readings_view(a.pinyin@), readings_view(b.pinyin@));
    lemma_add_missing_set(p0, pa);
    lemma_add_missing_set(add_missing(p0, pa), pb);
    lemma_add_missing_set(p0, pb);
    lemma_add_missing_set(add_missing(p0, pb), pa);
    assert(readings_view(ab.pinyin@).to_set() =~= readings_view(ba.pinyin@).to_set());
    let (d0, da, db) = (ids_view(base.dependencies@), ids_view(a.dependencies@), ids_view(b.dependencies@));
    lemma_add_missing_set(d0, da);
    lemma_add_missing_set(add_missing(d0, da), db);
    lemma_add_missing_set(d0, db);
    lemma_add_missing_set(add_missing(d0, db), da);
    assert(ids_view(ab.dependencies@).to_set() =~= ids_view(ba.dependencies@).to_set());
    lemma_concat_swap_multiset(base.definitions@, a.definitions@, b.definitions@);
    lemma_concat_swap_multiset(base.simple_definitions@, a.simple_definitions@, b.simple_definitions@);
    lemma_concat_swap_multiset(base.freq@, a.freq@, b.freq@);
    lemma_concat_swap_multiset(base.examples@, a.examples@, b.examples@);
    lemma_concat_swap_multiset(base.extra@, a.extra@, b.extra@);
}

/// The text of `s` up to its first `;`.
pub open spec fn first_sense(s: Seq<char>) -> Seq<char>
    decreases s.len(),
{
    if s.len() == 0 {
        s
    } else if s[0] == ';' {
        Seq::empty()
    } else {
        seq![s[0]] + first_sense(s.drop_first())
    }
}

/// The definition belongs to the reading `py`, not capitalized.
pub open spec fn tagged_with(d: Definition, py: Seq<char>) -> bool {
    d.pinyin matches Some(p) && p.py@ == py && !p.cap
}

/// The position of the first definition of `defs` that belongs to `py`.
pub open spec fn find_tagged(defs: Seq<Definition>, py: Seq<char>) -> Option<int>
    decreases defs.len(),
{
    if defs.len() == 0 {
        None
    } else {
        match find_tagged(defs.drop_last(), py) {
            Some(i) => Some(i),
            None => if tagged_with(defs.last(), py) {
                Some(defs.len() - 1)
            } else {
                None
            },
        }
    }
}

/// Every definition has at least one gloss.
pub open spec fn glosses_present(defs: Seq<Definition>) -> bool {
    forall|i: int| 0 <= i < defs.len() ==> (#[trigger] defs[i]).english@.len() > 0
}

/// The first sense of the first definition of the first reading, else of the
/// first definition.
pub open spec fn first_definition_spec(w: WordEntry) -> Option<Seq<char>> {
    let defs = w.definitions@;
    match find_tagged(defs, w.pinyin@[0]@) {
        Some(i) => Some(first_sense(defs[i].english@[0]@)),
        None => if defs.len() == 0 {
            None
        } else {
            Some(first_sense(defs[0].english@[0]@))
        },
    }
}

/// The items joined by " | ".
pub open spec fn bar_joined(items: Seq<Seq<char>>) -> Seq<char>
    decreases items.len(),
{
    if items.len() == 0 {
        Seq::empty()
    } else {
        let acc = bar_joined(items.drop_last());
        if acc.len() > 0 {
            acc + seq![' ', '|', ' '] + items.last()
        } else {
            acc + items.last()
        }
    }
}

/// `n` in decimal.
pub open spec fn decimal(n: nat) -> Seq<char>
    decreases n,
{
    let d = seq!['0', '1', '2', '3', '4', '5', '6', '7', '8', '9'];
    if n < 10 {
        seq![d[n as int]]
    } else {
        decimal(n / 10).push(d[(n % 10) as int])
    }
}

/// A one-line English summary: the first definition and the short glosses,
/// joined by " | " and trimmed, after the number of characters in parentheses.
pub open spec fn simple_english_spec(w: WordEntry) -> Option<Seq<char>> {
    let first = match first_definition_spec(w) {
        Some(f) => seq![f],
        None => Seq::empty(),
    };
    let defs = crate::reading::whitespace_trimmed(
        bar_joined(first + w.simple_definitions@.map_values(|s: String| s@)),
    );
    if defs.len() == 0 {
        None
    } else {
        Some(seq!['('] + decimal(w.id@.len()) + seq![')', ' '] + defs)
    }
}

fn first_sense_of(s: &String) -> (r: String)
    ensures
        r@ == first_sense(s@),
{
    let cs = chars_of(s.as_str());
    let mut i: usize = 0;
    proof {
        assert(cs@.subrange(0, cs.len() as int) =~= s@);
        assert(cs@.subrange(0, 0) + s@ =~= s@);
    }
    while i < cs.len() && cs[i] != ';'
        invariant
            i <= cs.len(),
            cs@ == s@,
            first_sense(s@) == cs@.subrange(0, i as int) + first_sense(cs@.subrange(i as int, cs.len() as int)),
        decreases cs.len() - i,
    {
        proof {
            let t = cs@.subrange(i as int, cs.len() as int);
            assert(t.drop_first() =~= cs@.subrange(i + 1, cs.len() as int));
            assert(cs@.subrange(0, i + 1) =~= cs@.subrange(0, i as int) + seq![t[0]]);
        }
        i += 1;
    }
    let mut out: Vec<char> = Vec::new();
    let mut j: usize = 0;
    while j < i
        invariant
            j <= i <= cs.len(),
            out@ == cs@.subrange(0, j as int),
        decreases i - j,
    {
        out.push(cs[j]);
        proof {
            assert(out@ =~= cs@.subrange(0, j + 1));
        }
        j += 1;
    }
    proof {
        assert(cs@.subrange(0, cs.len() as int) =~= s@);
        assert(first_sense(cs@.subrange(i as int, cs.len() as int)) =~= Seq::<char>::empty());
        assert(cs@.subrange(0, i as int) + Seq::<char>::empty() =~= cs@.subrange(0, i as int));
    }
    string_of(&out)
}

fn decimal_chars(n: usize) -> (r: Vec<char>)
    ensures
        r@ == decimal(n as nat),
    decreases n,
{
    let digits: Vec<char> = vec!['0', '1', '2', '3', '4', '5', '6', '7', '8', '9'];
    proof {
        assert(digits@ =~= seq!['0', '1', '2', '3', '4', '5', '6', '7', '8', '9']);
    }
    if n < 10 {
        let mut r: Vec<char> = Vec::new();
        r.push(digits[n]);
        proof {
            assert(r@ =~= decimal(n as nat));
        }
        r
    } else {
        let mut r = decimal_chars(n / 10);
        r.push(digits[n % 10]);
        r
    }
}

impl WordEntry {
    /// The first sense of the definition given for the first reading, or else
    /// of the first definition.
    pub fn first_definition(&self) -> (r: Option<String>)
        requires
            self.pinyin@.len() > 0,
            glosses_present(self.definitions@),
        ensures
            match r {
                Some(s) => first_definition_spec(*self) == Some(s@),
                None => first_definition_spec(*self) is None,
            },
    {
        let py = &self.pinyin[0];
        let mut i: usize = 0;
        while i < self.definitions.len()
            invariant
                i <= self.definitions.len(),
                self.pinyin@.len() > 0,
                py@ == self.pinyin@[0]@,
                glosses_present(self.definitions@),
                find_tagged(self.definitions@.subrange(0, i as int), py@) is None,
            decreases self.definitions.len() - i,
        {
            let d = &self.definitions[i];
            proof {
                assert(self.definitions@.subrange(0, i + 1).drop_last() =~= self.definitions@.subrange(
                    0,
                    i as int,
                ));
            }
            let tagged = match &d.pinyin {
                Some(p) => p.py == py.0 && !p.cap,
                None => false,
            };
            if tagged {
                proof {
                    lemma_find_tagged_prefix(self.definitions@, py@, i as int);
                    assert(self.definitions@[i as int].english@.len() > 0);
                }
                return Some(first_sense_of(&d.english[0]));
            }
            i += 1;
        }
        proof {
            assert(self.definitions@.subrange(0, self.definitions@.len() as int) =~= self.definitions@);
        }
        if self.definitions.len() == 0 {
            None
        } else {
            proof {
                assert(self.definitions@[0].english@.len() > 0);
            }
            Some(first_sense_of(&self.definitions[0].english[0]))
        }
    }

    /// A one-line English summary, if there is anything to say.
    pub fn simple_english(&self) -> (r: Option<String>)
        requires
            self.pinyin@.len() > 0,
            glosses_present(self.definitions@),
        ensures
            match r {
                Some(s) => simple_english_spec(*self) == Some(s@),
                None => simple_english_spec(*self) is None,
            },
    {
        let first = self.first_definition();
        let mut items: Vec<Vec<char>> = Vec::new();
        match &first {
            Some(f) => items.push(chars_of(f.as_str())),
            None => {},
        }
        let ghost lead = items@.map_values(|v: Vec<char>| v@);
        let mut k: usize = 0;
        while k < self.simple_definitions.len()
            invariant
                k <= self.simple_definitions.len(),
                items@.map_values(|v: Vec<char>| v@) == lead + self.simple_definitions@.subrange(
                    0,
                    k as int,
                ).map_values(|s: String| s@),
            decreases self.simple_definitions.len() - k,
        {
            let ghost before = items@.map_values(|v: Vec<char>| v@);
            items.push(chars_of(self.simple_definitions[k].as_str()));
            proof {
                assert(items@.map_values(|v: Vec<char>| v@) =~= before.push(self.simple_definitions@[k as int]@));
                assert(self.simple_definitions@.subrange(0, k + 1).map_values(|s: String| s@) =~= self.simple_definitions@.subrange(
                    0,
                    k as int,
                ).map_values(|s: String| s@).push(self.simple_definitions@[k as int]@));
            }
            k += 1;
        }
        let ghost all = items@.map_values(|v: Vec<char>| v@);
        proof {
            assert(self.simple_definitions@.subrange(0, self.simple_definitions@.len() as int) =~= self.simple_definitions@);
            let f = match first_definition_spec(*self) {
                Some(f) => seq![f],
                None => Seq::<Seq<char>>::empty(),
            };
            assert(lead =~= f);
        }
        let mut acc: Vec<char> = Vec::new();
        let mut j: usize = 0;
        while j < items.len()
            invariant
                j <= items.len(),
                all == items@.map_values(|v: Vec<char>| v@),
                acc@ == bar_joined(all.subrange(0, j as int)),
            decreases items.len() - j,
        {
            proof {
                assert(all.subrange(0, j + 1).drop_last() =~= all.subrange(0, j as int));
                assert(all.subrange(0, j + 1).last() == items@[j as int]@);
            }
            let ghost a0 = acc@;
            if acc.len() > 0 {
                acc.push(' ');
                acc.push('|');
                acc.push(' ');
            }
            let mut piece: Vec<char> = Vec::new();
            let mut q: usize = 0;
            while q < items[j].len()
                invariant
                    j < items.len(),
                    q <= items@[j as int].len(),
                    piece@ == items@[j as int]@.subrange(0, q as int),
                decreases items@[j as int].len() - q,
            {
                piece.push(items[j][q]);
                proof {
                    assert(piece@ =~= items@[j as int]@.subrange(0, q + 1));
                }
                q += 1;
            }
            proof {
                assert(piece@ =~= items@[j as int]@);
            }
            acc.append(&mut piece);
            proof {
                if a0.len() > 0 {
                    assert(acc@ =~= a0 + seq![' ', '|', ' '] + items@[j as int]@);
                } else {
                    assert(acc@ =~= a0 + items@[j as int]@);
                }
            }
            j += 1;
        }
        proof {
            assert(all.subrange(0, items.len() as int) =~= all);
        }
        let joined = string_of(&acc);
        let defs = crate::reading::trim_str(joined.as_str());
        if defs.as_str().unicode_len() == 0 {
            None
        } else {
            let mut out: Vec<char> = Vec::new();
            out.push('(');
            let mut num = decimal_chars(self.id.as_str().unicode_len());
            out.append(&mut num);
            out.push(')');
            out.push(' ');
            let mut dc = chars_of(defs.as_str());
            out.append(&mut dc);
            proof {
                assert(out@ =~= seq!['('] + decimal(self.id@.len()) + seq![')', ' '] + defs@);
            }
            Some(string_of(&out))
        }
    }
}

/// A definition found in a prefix is the first one.
pub proof fn lemma_find_tagged_prefix(defs: Seq<Definition>, py: Seq<char>, i: int)
    requires
        0 <= i < defs.len(),
        find_tagged(defs.subrange(0, i), py) is None,
        tagged_with(defs[i], py),
    ensures
        find_tagged(defs, py) == Some(i),
    decreases defs.len(),
{
    if defs.len() - 1 > i {
        assert(defs.drop_last().subrange(0, i) =~= defs.subrange(0, i));
        lemma_find_tagged_prefix(defs.drop_last(), py, i);
    } else {
        assert(defs.drop_last() =~= defs.subrange(0, i));
    }
}

} // verus!
