//! Priority scoring, in fixed point: `PRIORITY_ONE` stands for 1.0.
use crate::entry::{CommonEntry, WordEntry, SUBLEVEL_ONE};
use vstd::prelude::*;

verus! {

pub const PRIORITY_ONE: u64 = 1_000_000;

/// The priority of every syllable: above anything else can score.
pub const SYLLABLE_PRIORITY: u64 = 10_000_000;

/// The level, with an absent level counting as 10 (unleveled).
pub open spec fn level_or_default(level: Option<u8>) -> int {
    match level {
        Some(l) => l as int,
        None => 10,
    }
}

/// `(10 - level) / 10`, in units of `PRIORITY_ONE`.
pub open spec fn level_score_spec(level: Option<u8>) -> int {
    (10 - level_or_default(level)) * (PRIORITY_ONE / 10) as int
}

/// A word: half its level score plus half its frequency score (rounded down).
pub open spec fn word_priority_spec(level: Option<u8>, freq_score: int) -> int {
    (level_score_spec(level) + freq_score) / 2
}

/// A grammar point: half its level score, plus half its level score scaled by
/// how early it comes within its level (rounded down). An absent sub-level
/// counts as last in level.
pub open spec fn grammar_priority_spec(level: Option<u8>, sublevel: Option<u64>) -> int {
    let ls = level_score_spec(level);
    let sub = match sublevel {
        Some(s) => s as int,
        None => SUBLEVEL_ONE as int,
    };
    ls / 2 + ls * (SUBLEVEL_ONE - sub) / (2 * SUBLEVEL_ONE as int)
}

pub open spec fn level_ok(level: Option<u8>) -> bool {
    level_or_default(level) <= 10
}

pub fn level_score(level: Option<u8>) -> (r: u64)
    requires
        level_ok(level),
    ensures
        r == level_score_spec(level),
        r <= PRIORITY_ONE,
{
    let l: u64 = match level {
        Some(l) => l as u64,
        None => 10,
    };
    (10 - l) * (PRIORITY_ONE / 10)
}

/// `freq_score` is the frequency term, from 0 to `PRIORITY_ONE`.
pub fn word_priority(level: Option<u8>, freq_score: u64) -> (r: u64)
    requires
        level_ok(level),
        freq_score <= PRIORITY_ONE,
    ensures
        r == word_priority_spec(level, freq_score as int),
        r <= PRIORITY_ONE,
{
    (level_score(level) + freq_score) / 2
}

pub fn grammar_priority(level: Option<u8>, sublevel: Option<u64>) -> (r: u64)
    requires
        level_ok(level),
        sublevel matches Some(s) ==> s <= SUBLEVEL_ONE,
    ensures
        r == grammar_priority_spec(level, sublevel),
        r <= PRIORITY_ONE,
{
    let ls = level_score(level);
    let sub: u64 = match sublevel {
        Some(s) => s,
        None => SUBLEVEL_ONE,
    };
    assert(ls * (SUBLEVEL_ONE - sub) <= PRIORITY_ONE * SUBLEVEL_ONE) by (nonlinear_arith)
        requires
            ls <= PRIORITY_ONE,
            sub <= SUBLEVEL_ONE,
    ;
    let part = ls * (SUBLEVEL_ONE - sub) / (2 * SUBLEVEL_ONE);
    assert(part <= ls / 2 + 1) by (nonlinear_arith)
        requires
            part == ls * (SUBLEVEL_ONE - sub) / (2 * SUBLEVEL_ONE),
            sub <= SUBLEVEL_ONE,
            SUBLEVEL_ONE > 0,
    ;
    ls / 2 + part
}

impl WordEntry {
    /// Half the level score plus half the frequency term `freq_score`, which
    /// runs from 0 to `PRIORITY_ONE`.
    pub fn total_priority(&self, freq_score: u64) -> (r: u64)
        requires
            level_ok(self.hsk_lev),
            freq_score <= PRIORITY_ONE,
        ensures
            r == word_priority_spec(self.hsk_lev, freq_score as int),
    {
        word_priority(self.hsk_lev, freq_score)
    }
}

impl CommonEntry {
    pub open spec fn levels_ok(&self) -> bool {
        match self {
            CommonEntry::WordEntry(w) => level_ok(w.hsk_lev),
            CommonEntry::SyllableEntry(_) => true,
            CommonEntry::GrammarEntry(g) => level_ok(g.hsk_lev) && (g.hsk_sublev matches Some(
                s,
            ) ==> s <= SUBLEVEL_ONE),
        }
    }

    pub open spec fn priority_spec(&self, freq_score: int) -> int {
        match self {
            CommonEntry::WordEntry(w) => word_priority_spec(w.hsk_lev, freq_score),
            CommonEntry::SyllableEntry(_) => SYLLABLE_PRIORITY as int,
            CommonEntry::GrammarEntry(g) => grammar_priority_spec(g.hsk_lev, g.hsk_sublev),
        }
    }

    /// The priority of the entry; `freq_score` is the frequency term of a word
    /// (from 0 to `PRIORITY_ONE`) and is not used for other kinds.
    pub fn priority(&self, freq_score: u64) -> (r: u64)
        requires
            self.levels_ok(),
            freq_score <= PRIORITY_ONE,
        ensures
            r == self.priority_spec(freq_score as int),
            r <= SYLLABLE_PRIORITY,
    {
        match self {
            CommonEntry::WordEntry(w) => w.total_priority(freq_score),
            CommonEntry::SyllableEntry(_) => SYLLABLE_PRIORITY,
            CommonEntry::GrammarEntry(g) => grammar_priority(g.hsk_lev, g.hsk_sublev),
        }
    }
}

} // verus!
