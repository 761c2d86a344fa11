//! Reading normalization around the syllable parser: preparing a raw reading
//! for it, and joining the syllables it returns.
use crate::entry::{chars_of, string_of, Pinyin};
use pinyin::ToPinyin;
use vstd::prelude::*;

verus! {

/// Whether a character is white space in Unicode's sense.
pub uninterp spec fn white_space(c: char) -> bool;

/// Relies on `char::is_whitespace`: the Unicode `White_Space` property.
#[verifier::external_body]
pub(crate) fn char_is_whitespace(c: char) -> (r: bool)
    ensures
        r == white_space(c),
{
    c.is_whitespace()
}

/// `s` without the white space at either end.
pub open spec fn whitespace_trimmed(s: Seq<char>) -> Seq<char>
    decreases s.len(),
{
    if s.len() > 0 && white_space(s[0]) {
        whitespace_trimmed(s.drop_first())
    } else if s.len() > 0 && white_space(s.last()) {
        whitespace_trimmed(s.drop_last())
    } else {
        s
    }
}

/// Relies on `str::trim`: removes the leading and trailing characters with the
/// `White_Space` property, which `char::is_whitespace` tests.
#[verifier::external_body]
pub(crate) fn trim_str(s: &str) -> (r: String)
    ensures
        r@ == whitespace_trimmed(s@),
{
    s.trim().to_string()
}

/// Whether a character is alphabetic in Unicode's sense.
pub uninterp spec fn alphabetic(c: char) -> bool;

/// Relies on `char::is_alphabetic`.
#[verifier::external_body]
fn char_is_alphabetic(c: char) -> (r: bool)
    ensures
        r == alphabetic(c),
{
    c.is_alphabetic()
}

/// Whether a character is numeric in Unicode's sense.
pub uninterp spec fn numeric(c: char) -> bool;

/// Relies on `char::is_numeric`.
#[verifier::external_body]
fn char_is_numeric(c: char) -> (r: bool)
    ensures
        r == numeric(c),
{
    c.is_numeric()
}

/// A reading with tone numbers rewritten with tone marks.
pub uninterp spec fn prettified(s: Seq<char>) -> Seq<char>;

/// Relies on `prettify_pinyin::prettify`: tone numbers become tone marks.
#[verifier::external_body]
fn prettify(s: &str) -> (r: String)
    ensures
        r@ == prettified(s@),
{
    prettify_pinyin::prettify(s)
}

/// The toned readings of the characters of `s` that have one, run together.
pub uninterp spec fn hanzi_tones(s: Seq<char>) -> Seq<char>;

/// Relies on `pinyin::ToPinyin` for `str` and `Pinyin::with_tone`: the toned
/// reading of each character that has one, concatenated. This is a rough
/// reading, to be normalized like any other.
#[verifier::external_body]
fn toned_reading(s: &str) -> (r: String)
    ensures
        r@ == hanzi_tones(s@),
{
    s.to_pinyin().flatten().map(|x| x.with_tone()).collect()
}

/// `s` with a space put before each letter that follows a digit.
pub open spec fn spaced(s: Seq<char>) -> Seq<char>
    decreases s.len(),
{
    if s.len() == 0 {
        s
    } else {
        let r = spaced(s.drop_last());
        let c = s.last();
        if s.len() >= 2 && numeric(s[s.len() - 2]) && alphabetic(c) {
            r.push(' ').push(c)
        } else {
            r.push(c)
        }
    }
}

/// What the syllable parser is given for a raw reading: trimmed, tone
/// numbers apart from the next syllable, tone marks in place, trimmed again.
pub open spec fn prepared(s: Seq<char>) -> Seq<char> {
    whitespace_trimmed(prettified(spaced(whitespace_trimmed(s))))
}

/// The trimmed syllables, joined by single spaces; empty ones add nothing.
pub open spec fn joined(ts: Seq<Seq<char>>) -> Seq<char>
    decreases ts.len(),
{
    if ts.len() == 0 {
        Seq::empty()
    } else {
        let acc = joined(ts.drop_last());
        let st = whitespace_trimmed(ts.last());
        if acc.len() == 0 || st.len() == 0 {
            acc + st
        } else {
            acc + seq![' '] + st
        }
    }
}

fn spaced_chars(s: &str) -> (r: Vec<char>)
    ensures
        r@ == spaced(s@),
{
    let cs = chars_of(s);
    let mut r: Vec<char> = Vec::new();
    let mut last_num = false;
    let mut i: usize = 0;
    while i < cs.len()
        invariant
            i <= cs.len(),
            cs@ == s@,
            r@ == spaced(cs@.subrange(0, i as int)),
            i > 0 ==> last_num == numeric(cs@[i - 1]),
        decreases cs.len() - i,
    {
        let c = cs[i];
        let ghost before = r@;
        proof {
            let u = cs@.subrange(0, i + 1);
            assert(u.drop_last() =~= cs@.subrange(0, i as int));
            assert(u.last() == c);
            if i >= 1 {
                assert(u[u.len() - 2] == cs@[i - 1]);
            }
        }
        if i > 0 && last_num && char_is_alphabetic(c) {
            r.push(' ');
        }
        r.push(c);
        proof {
            let u = cs@.subrange(0, i + 1);
            if i > 0 && numeric(cs@[i - 1]) && alphabetic(c) {
                assert(r@ =~= before.push(' ').push(c));
            } else {
                assert(r@ =~= before.push(c));
            }
        }
        last_num = char_is_numeric(c);
        i += 1;
    }
    proof {
        assert(cs@.subrange(0, cs.len() as int) =~= s@);
    }
    r
}

/// A raw reading made ready for the syllable parser.
pub fn prepare_reading(s: &str) -> (r: String)
    ensures
        r@ == prepared(s@),
{
    let t = trim_str(s);
    let sp = spaced_chars(t.as_str());
    let joined = string_of(&sp);
    let p = prettify(joined.as_str());
    trim_str(p.as_str())
}

/// The prepared rough reading of a text, from the readings of its characters.
pub fn prepare_hanzi_reading(text: &str) -> (r: String)
    ensures
        r@ == prepared(hanzi_tones(text@)),
{
    let tones = toned_reading(text);
    prepare_reading(tones.as_str())
}

/// `s` cut at every space, empty pieces included (as `str::split(' ')` does).
pub open spec fn split_spaces(s: Seq<char>) -> Seq<Seq<char>>
    decreases s.len(),
{
    if s.len() == 0 {
        seq![Seq::empty()]
    } else {
        let r = split_spaces(s.drop_last());
        if s.last() == ' ' {
            r.push(Seq::empty())
        } else {
            r.update(r.len() - 1, r.last().push(s.last()))
        }
    }
}

pub proof fn lemma_split_nonempty(s: Seq<char>)
    ensures
        split_spaces(s).len() >= 1,
    decreases s.len(),
{
    if s.len() > 0 {
        lemma_split_nonempty(s.drop_last());
    }
}

/// The space-separated words of a prepared reading, each to be parsed on its own.
pub fn reading_words(prepared_text: &str) -> (r: Vec<String>)
    ensures
        r@.map_values(|t: String| t@) == split_spaces(prepared_text@),
{
    let cs = chars_of(prepared_text);
    let mut done: Vec<String> = Vec::new();
    let mut cur: Vec<char> = Vec::new();
    let mut i: usize = 0;
    while i < cs.len()
        invariant
            i <= cs.len(),
            cs@ == prepared_text@,
            done@.map_values(|t: String| t@).push(cur@) == split_spaces(cs@.subrange(0, i as int)),
        decreases cs.len() - i,
    {
        let ghost d0 = done@.map_values(|t: String| t@);
        let ghost c0 = cur@;
        proof {
            let u = cs@.subrange(0, i + 1);
            assert(u.drop_last() =~= cs@.subrange(0, i as int));
            lemma_split_nonempty(cs@.subrange(0, i as int));
        }
        if cs[i] == ' ' {
            let w = string_of(&cur);
            done.push(w);
            cur = Vec::new();
            proof {
                assert(done@.map_values(|t: String| t@) =~= d0.push(c0));
                assert(done@.map_values(|t: String| t@).push(cur@) =~= d0.push(c0).push(Seq::empty()));
            }
        } else {
            cur.push(cs[i]);
            proof {
                assert(done@.map_values(|t: String| t@).push(cur@) =~= d0.push(c0).update(
                    d0.len() as int,
                    c0.push(cs@[i as int]),
                ));
            }
        }
        i += 1;
    }
    proof {
        assert(cs@.subrange(0, cs.len() as int) =~= prepared_text@);
    }
    let w = string_of(&cur);
    let ghost d1 = done@.map_values(|t: String| t@);
    done.push(w);
    proof {
        assert(done@.map_values(|t: String| t@) =~= d1.push(cur@));
    }
    done
}

/// The vowels that carry a tone mark.
pub open spec fn marked_vowels() -> Seq<char> {
    seq![
        'ā', 'á', 'ǎ', 'à', 'ē', 'é', 'ě', 'è', 'ī', 'í', 'ǐ', 'ì', 'ō', 'ó', 'ǒ', 'ò', 'ū', 'ú',
        'ǔ', 'ù', 'ǖ', 'ǘ', 'ǚ', 'ǜ', 'Ā', 'Á', 'Ǎ', 'À', 'Ē', 'É', 'Ě', 'È', 'Ī', 'Í', 'Ǐ', 'Ì',
        'Ō', 'Ó', 'Ǒ', 'Ò', 'Ū', 'Ú', 'Ǔ', 'Ù', 'Ǖ', 'Ǘ', 'Ǚ', 'Ǜ',
    ]
}

/// Whether some character of `w` is a vowel with a tone mark: such a word is
/// given to the syllable parser; any other word is kept as it is.
pub open spec fn tone_marked(w: Seq<char>) -> bool {
    exists|i: int| 0 <= i < w.len() && marked_vowels().contains(#[trigger] w[i])
}

pub fn is_tone_marked(w: &str) -> (r: bool)
    ensures
        r == tone_marked(w@),
{
    let vowels: Vec<char> = vec![
        'ā', 'á', 'ǎ', 'à', 'ē', 'é', 'ě', 'è', 'ī', 'í', 'ǐ', 'ì', 'ō', 'ó', 'ǒ', 'ò', 'ū', 'ú',
        'ǔ', 'ù', 'ǖ', 'ǘ', 'ǚ', 'ǜ', 'Ā', 'Á', 'Ǎ', 'À', 'Ē', 'É', 'Ě', 'È', 'Ī', 'Í', 'Ǐ', 'Ì',
        'Ō', 'Ó', 'Ǒ', 'Ò', 'Ū', 'Ú', 'Ǔ', 'Ù', 'Ǖ', 'Ǘ', 'Ǚ', 'Ǜ',
    ];
    proof {
        assert(vowels@ =~= marked_vowels());
    }
    let cs = chars_of(w);
    let mut i: usize = 0;
    while i < cs.len()
        invariant
            i <= cs.len(),
            cs@ == w@,
            vowels@ == marked_vowels(),
            forall|q: int| 0 <= q < i ==> !marked_vowels().contains(#[trigger] w@[q]),
        decreases cs.len() - i,
    {
        let c = cs[i];
        let mut j: usize = 0;
        while j < vowels.len()
            invariant
                j <= vowels.len(),
                i < cs.len(),
                cs@ == w@,
                c == w@[i as int],
                vowels@ == marked_vowels(),
                forall|q: int| 0 <= q < j ==> vowels@[q] != c,
            decreases vowels.len() - j,
        {
            if vowels[j] == c {
                proof {
                    assert(marked_vowels()[j as int] == w@[i as int]);
                    assert(marked_vowels().contains(w@[i as int]));
                }
                return true;
            }
            j += 1;
        }
        proof {
            assert(!marked_vowels().contains(c));
        }
        i += 1;
    }
    false
}

/// What a word of the reading becomes: its syllables joined when the parser
/// read it, else the word as it is.
pub open spec fn word_pieces(words: Seq<Seq<char>>, parsed: Seq<Option<Seq<Seq<char>>>>) -> Seq<
    Seq<char>,
> {
    Seq::new(
        words.len(),
        |i: int|
            match parsed[i] {
                Some(ts) => joined(ts),
                None => words[i],
            },
    )
}

pub open spec fn parsed_view(parsed: Seq<Option<Vec<String>>>) -> Seq<Option<Seq<Seq<char>>>> {
    parsed.map_values(
        |o: Option<Vec<String>>|
            match o {
                Some(v) => Some(v@.map_values(|t: String| t@)),
                None => None,
            },
    )
}

fn join_trimmed(ts: &Vec<String>) -> (r: Vec<char>)
    ensures
        r@ == joined(ts@.map_values(|t: String| t@)),
{
    let ghost tv = ts@.map_values(|t: String| t@);
    let mut acc: Vec<char> = Vec::new();
    let mut i: usize = 0;
    while i < ts.len()
        invariant
            i <= ts.len(),
            tv == ts@.map_values(|t: String| t@),
            acc@ == joined(tv.subrange(0, i as int)),
        decreases ts.len() - i,
    {
        proof {
            assert(tv.subrange(0, i + 1).drop_last() =~= tv.subrange(0, i as int));
            assert(tv.subrange(0, i + 1).last() == ts@[i as int]@);
        }
        let st = trim_str(ts[i].as_str());
        let mut sc = chars_of(st.as_str());
        let ghost a0 = acc@;
        if acc.len() > 0 && sc.len() > 0 {
            acc.push(' ');
        }
        acc.append(&mut sc);
        proof {
            let w = whitespace_trimmed(ts@[i as int]@);
            if a0.len() == 0 || w.len() == 0 {
                assert(acc@ =~= a0 + w);
            } else {
                assert(acc@ =~= a0 + seq![' '] + w);
            }
        }
        i += 1;
    }
    proof {
        assert(tv.subrange(0, ts.len() as int) =~= tv);
    }
    acc
}

/// The normalized reading from the words of a prepared reading and what the
/// syllable parser made of each (`None` where it gave up): each word becomes
/// its syllables joined, or stays as it is, and the words are joined again.
pub fn finish_reading(words: &Vec<String>, parsed: &Vec<Option<Vec<String>>>) -> (r: Pinyin)
    requires
        words@.len() == parsed@.len(),
    ensures
        r@ == joined(
            word_pieces(words@.map_values(|t: String| t@), parsed_view(parsed@)),
        ),
{
    let ghost wv = words@.map_values(|t: String| t@);
    let ghost pv = parsed_view(parsed@);
    let mut pieces: Vec<String> = Vec::new();
    let mut i: usize = 0;
    while i < words.len()
        invariant
            i <= words.len(),
            words@.len() == parsed@.len(),
            wv == words@.map_values(|t: String| t@),
            pv == parsed_view(parsed@),
            pieces@.len() == i,
            forall|q: int| 0 <= q < i ==> #[trigger] pieces@[q]@ == word_pieces(wv, pv)[q],
        decreases words.len() - i,
    {
        let piece = match &parsed[i] {
            Some(ts) => string_of(&join_trimmed(ts)),
            None => words[i].clone(),
        };
        pieces.push(piece);
        i += 1;
    }
    proof {
        assert(pieces@.map_values(|t: String| t@) =~= word_pieces(wv, pv));
    }
    Pinyin::from_normalized(string_of(&join_trimmed(&pieces)))
}

} // verus!
