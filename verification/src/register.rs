//! Text register (technical against everyday) from two frequency dictionaries.
//!
//! The model keeps, for every word, how often it occurs in a technical corpus and
//! in an everyday one. A word takes part in judging a context only when it occurred
//! often enough in both corpora together; the counts of such words are what the
//! log-ratio score of a word is computed from.

use vstd::prelude::*;
use vstd::hash_map::StringHashMap;

use crate::counting::{count_in, count_strings, lemma_occurrences_bounded, occurrences};
use crate::text::string_views;

verus! {

broadcast use vstd::hash_map::group_hash_map_axioms;

/// A word counts towards a context only if it occurred at least this often in both
/// corpora together. A rare word says too little about the register of a text.
pub const MIN_CONTEXT_FREQ: u32 = 2;

pub struct RegisterModel {
    tech: StringHashMap<u32>,
    common: StringHashMap<u32>,
    tech_total: usize,
    common_total: usize,
}

/// The larger of a corpus size and one: the denominator of the word frequencies.
pub open spec fn total_of(len: nat) -> nat {
    if len == 0 {
        1
    } else {
        len
    }
}

impl RegisterModel {
    /// How often `w` occurs in the technical corpus.
    pub closed spec fn tech_count(&self, w: Seq<char>) -> nat {
        count_in(self.tech@, w)
    }

    /// How often `w` occurs in the everyday corpus.
    pub closed spec fn common_count(&self, w: Seq<char>) -> nat {
        count_in(self.common@, w)
    }

    /// The distinct words of the technical corpus.
    pub closed spec fn tech_vocab(&self) -> Set<Seq<char>> {
        self.tech@.dom()
    }

    /// The distinct words of the everyday corpus.
    pub closed spec fn common_vocab(&self) -> Set<Seq<char>> {
        self.common@.dom()
    }

    pub closed spec fn tech_total_spec(&self) -> nat {
        self.tech_total as nat
    }

    pub closed spec fn common_total_spec(&self) -> nat {
        self.common_total as nat
    }

    /// The counts of `w` when they are evidence enough: both counts together reach
    /// `MIN_CONTEXT_FREQ`.
    pub open spec fn evidence(&self, w: Seq<char>) -> Option<(u32, u32)> {
        if self.tech_count(w) + self.common_count(w) >= MIN_CONTEXT_FREQ {
            Some((self.tech_count(w) as u32, self.common_count(w) as u32))
        } else {
            None
        }
    }

    /// The evidence of the words of `ws` that have some, in order.
    pub open spec fn informative(&self, ws: Seq<Seq<char>>) -> Seq<(u32, u32)>
        decreases ws.len(),
    {
        if ws.len() == 0 {
            Seq::empty()
        } else {
            let rest = self.informative(ws.drop_last());
            match self.evidence(ws.last()) {
                Some(e) => rest.push(e),
                None => rest,
            }
        }
    }

    /// How many words of `ws` have evidence.
    pub open spec fn known(&self, ws: Seq<Seq<char>>) -> nat
        decreases ws.len(),
    {
        if ws.len() == 0 {
            0
        } else {
            self.known(ws.drop_last()) + if self.evidence(ws.last()) is Some {
                1nat
            } else {
                0nat
            }
        }
    }

    /// Adding the counts of `w` cannot overflow a `u32`.
    pub open spec fn countable(&self, w: Seq<char>) -> bool {
        self.tech_count(w) + self.common_count(w) <= u32::MAX
    }

    pub fn new(tech_tokens: &[String], common_tokens: &[String]) -> (m: Self)
        requires
            forall|w: Seq<char>| #[trigger] occurrences(string_views(tech_tokens@), w) <= u32::MAX,
            forall|w: Seq<char>|
                #[trigger] occurrences(string_views(common_tokens@), w) <= u32::MAX,
        ensures
            forall|w: Seq<char>|
                #[trigger] m.tech_count(w) == occurrences(string_views(tech_tokens@), w),
            forall|w: Seq<char>|
                #[trigger] m.common_count(w) == occurrences(string_views(common_tokens@), w),
            m.tech_vocab() == string_views(tech_tokens@).to_set(),
            m.common_vocab() == string_views(common_tokens@).to_set(),
            m.tech_total_spec() == total_of(tech_tokens@.len()),
            m.common_total_spec() == total_of(common_tokens@.len()),
            tech_tokens@.len() + common_tokens@.len() <= u32::MAX ==> forall|w: Seq<char>|
                #[trigger] m.countable(w),
    {
        let tech = count_strings(tech_tokens);
        let common = count_strings(common_tokens);
        let tech_total = if tech_tokens.len() == 0 {
            1
        } else {
            tech_tokens.len()
        };
        let common_total = if common_tokens.len() == 0 {
            1
        } else {
            common_tokens.len()
        };
        let m = RegisterModel { tech, common, tech_total, common_total };
        proof {
            assert forall|w: Seq<char>|
                tech_tokens@.len() + common_tokens@.len() <= u32::MAX implies #[trigger] m.countable(
                w,
            ) by {
                lemma_occurrences_bounded(string_views(tech_tokens@), w);
                lemma_occurrences_bounded(string_views(common_tokens@), w);
            }
        }
        m
    }

    /// The model of two corpora that together hold at most `u32::MAX` tokens, so
    /// that no count and no sum of a word's two counts can leave `u32`; `None` for
    /// larger corpora.
    pub fn try_new(tech_tokens: &[String], common_tokens: &[String]) -> (r: Option<Self>)
        ensures
            r is Some <==> tech_tokens@.len() + common_tokens@.len() <= u32::MAX,
            r matches Some(m) ==> {
                &&& forall|w: Seq<char>|
                    #[trigger] m.tech_count(w) == occurrences(string_views(tech_tokens@), w)
                &&& forall|w: Seq<char>|
                    #[trigger] m.common_count(w) == occurrences(string_views(common_tokens@), w)
                &&& m.tech_vocab() == string_views(tech_tokens@).to_set()
                &&& m.common_vocab() == string_views(common_tokens@).to_set()
                &&& m.tech_total_spec() == total_of(tech_tokens@.len())
                &&& m.common_total_spec() == total_of(common_tokens@.len())
                &&& forall|w: Seq<char>| #[trigger] m.countable(w)
            },
    {
        let limit: usize = 0xffff_ffff;
        if tech_tokens.len() > limit || common_tokens.len() > limit - tech_tokens.len() {
            return None;
        }
        proof {
            assert forall|w: Seq<char>|
                #[trigger] occurrences(string_views(tech_tokens@), w) <= u32::MAX by {
                lemma_occurrences_bounded(string_views(tech_tokens@), w);
            }
            assert forall|w: Seq<char>|
                #[trigger] occurrences(string_views(common_tokens@), w) <= u32::MAX by {
                lemma_occurrences_bounded(string_views(common_tokens@), w);
            }
        }
        Some(Self::new(tech_tokens, common_tokens))
    }

    /// The two corpus sizes, each at least one: the denominators of the word
    /// frequencies.
    pub fn totals(&self) -> (r: (usize, usize))
        ensures
            r.0 == self.tech_total_spec(),
            r.1 == self.common_total_spec(),
    {
        (self.tech_total, self.common_total)
    }

    /// The technical and everyday counts of `word`, if together they reach
    /// `MIN_CONTEXT_FREQ`; `None` otherwise.
    pub fn word_evidence(&self, word: &str) -> (r: Option<(u32, u32)>)
        requires
            self.countable(word@),
        ensures
            r == self.evidence(word@),
    {
        let t: u32 = match self.tech.get(word) {
            Some(v) => *v,
            None => 0,
        };
        let c: u32 = match self.common.get(word) {
            Some(v) => *v,
            None => 0,
        };
        let n = t + c;
        if n < MIN_CONTEXT_FREQ {
            None
        } else {
            Some((t, c))
        }
    }

    /// The evidence of every word of the context that has some, in order.
    pub fn informative_words(&self, context: &[String]) -> (r: Vec<(u32, u32)>)
        requires
            forall|i: int|
                0 <= i < context@.len() ==> self.countable(#[trigger] context@[i]@),
        ensures
            r@ == self.informative(string_views(context@)),
    {
        let ghost ws = string_views(context@);
        let mut r: Vec<(u32, u32)> = Vec::new();
        let mut i: usize = 0;
        while i < context.len()
            invariant
                0 <= i <= context@.len(),
                ws == string_views(context@),
                forall|j: int| 0 <= j < context@.len() ==> self.countable(#[trigger] context@[j]@),
                r@ == self.informative(ws.take(i as int)),
            decreases context@.len() - i,
        {
            proof {
                assert(ws.take(i + 1).drop_last() =~= ws.take(i as int));
                assert(ws[i as int] == context@[i as int]@);
            }
            match self.word_evidence(context[i].as_str()) {
                Some(e) => r.push(e),
                None => {},
            }
            i = i + 1;
        }
        proof {
            assert(ws.take(i as int) =~= ws);
        }
        r
    }

    /// How many words of the context are known, out of how many. Without this pair
    /// a register judgement cannot be read: one resting on two words out of ten
    /// neither confirms nor refutes anything.
    pub fn coverage(&self, context: &[String]) -> (r: (usize, usize))
        requires
            forall|i: int|
                0 <= i < context@.len() ==> self.countable(#[trigger] context@[i]@),
        ensures
            r.0 == self.known(string_views(context@)),
            r.1 == context@.len(),
            r.0 <= r.1,
    {
        let ghost ws = string_views(context@);
        let mut known: usize = 0;
        let mut i: usize = 0;
        while i < context.len()
            invariant
                0 <= i <= context@.len(),
                ws == string_views(context@),
                forall|j: int| 0 <= j < context@.len() ==> self.countable(#[trigger] context@[j]@),
                known == self.known(ws.take(i as int)),
                known <= i,
            decreases context@.len() - i,
        {
            proof {
                assert(ws.take(i + 1).drop_last() =~= ws.take(i as int));
                assert(ws[i as int] == context@[i as int]@);
            }
            if self.word_evidence(context[i].as_str()).is_some() {
                known = known + 1;
            }
            i = i + 1;
        }
        proof {
            assert(ws.take(i as int) =~= ws);
        }
        (known, context.len())
    }

    /// The numbers of distinct words in the technical and the everyday corpus.
    pub fn vocab_sizes(&self) -> (r: (usize, usize))
        ensures
            r.0 == self.tech_vocab().len(),
            r.1 == self.common_vocab().len(),
    {
        (self.tech.len(), self.common.len())
    }
}

/// The register judgement of a context rests on exactly the words that coverage
/// counts as known: it has evidence to go on exactly when coverage finds a known
/// word.
pub proof fn lemma_coverage_counts_evidence(m: &RegisterModel, ws: Seq<Seq<char>>)
    ensures
        m.known(ws) == m.informative(ws).len(),
    decreases ws.len(),
{
    if ws.len() > 0 {
        lemma_coverage_counts_evidence(m, ws.drop_last());
    }
}

} // verus!
