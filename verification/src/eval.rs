//! Evaluation bookkeeping: the confusion counts of switch decisions, and the split
//! of a corpus into training and test parts by word type.

use vstd::prelude::*;
use vstd::hash_map::StringHashMap;

use crate::layout::{detect_direction, detected_direction, transliterate, transliteration, Direction};
use crate::text::{has_at_most_chars, string_views, tokenize, tokens};

verus! {

broadcast use vstd::hash_map::group_hash_map_axioms;

/// What is done with a typed token.
#[derive(Debug, Clone, Copy, PartialEq, Eq, Structural)]
pub enum Decision {
    Keep,
    Switch,
}

/// Confusion counts of switch decisions against expected ones.
#[derive(Debug, Clone, Copy, PartialEq, Eq, Structural)]
pub struct Counts {
    pub tp: usize,
    pub fp: usize,
    pub fn_: usize,
    pub tn: usize,
}

impl Counts {
    pub fn new() -> (c: Counts)
        ensures
            c == (Counts { tp: 0, fp: 0, fn_: 0, tn: 0 }),
    {
        Counts { tp: 0, fp: 0, fn_: 0, tn: 0 }
    }

    /// The counts after one more decision `got` where `expected` was right.
    pub open spec fn recorded(self, expected: Decision, got: Decision) -> Counts {
        match (expected, got) {
            (Decision::Switch, Decision::Switch) => Counts { tp: (self.tp + 1) as usize, ..self },
            (Decision::Keep, Decision::Switch) => Counts { fp: (self.fp + 1) as usize, ..self },
            (Decision::Switch, Decision::Keep) => Counts { fn_: (self.fn_ + 1) as usize, ..self },
            (Decision::Keep, Decision::Keep) => Counts { tn: (self.tn + 1) as usize, ..self },
        }
    }

    /// No count is at the limit of `usize`.
    pub open spec fn below_limit(self) -> bool {
        self.tp < usize::MAX && self.fp < usize::MAX && self.fn_ < usize::MAX && self.tn
            < usize::MAX
    }

    pub fn record(&mut self, expected: Decision, got: Decision)
        requires
            old(self).below_limit(),
        ensures
            *final(self) == old(self).recorded(expected, got),
            final(self).tp == old(self).tp + if expected == Decision::Switch && got
                == Decision::Switch {
                1int
            } else {
                0int
            },
            final(self).fp == old(self).fp + if expected == Decision::Keep && got
                == Decision::Switch {
                1int
            } else {
                0int
            },
            final(self).fn_ == old(self).fn_ + if expected == Decision::Switch && got
                == Decision::Keep {
                1int
            } else {
                0int
            },
            final(self).tn == old(self).tn + if expected == Decision::Keep && got
                == Decision::Keep {
                1int
            } else {
                0int
            },
    {
        match (expected, got) {
            (Decision::Switch, Decision::Switch) => self.tp = self.tp + 1,
            (Decision::Keep, Decision::Switch) => self.fp = self.fp + 1,
            (Decision::Switch, Decision::Keep) => self.fn_ = self.fn_ + 1,
            (Decision::Keep, Decision::Keep) => self.tn = self.tn + 1,
        }
    }

    pub open spec fn spec_total(self) -> int {
        self.tp + self.fp + self.fn_ + self.tn
    }

    pub fn total(&self) -> (t: usize)
        requires
            self.spec_total() <= usize::MAX,
        ensures
            t == self.spec_total(),
    {
        self.tp + self.fp + self.fn_ + self.tn
    }
}

/// Every decision recorded adds exactly one to the total.
pub proof fn lemma_record_adds_one(c: Counts, expected: Decision, got: Decision)
    requires
        c.below_limit(),
    ensures
        c.recorded(expected, got).spec_total() == c.spec_total() + 1,
{
}

/// The four outcomes of a decision: a switch that was wanted is a true positive,
/// a switch of a token that should have been kept a false positive, a token kept
/// that should have been switched a false negative, and a token rightly kept a
/// true negative. Each adds one to its own count and leaves the others alone.
pub proof fn lemma_record_outcomes(c: Counts)
    requires
        c.below_limit(),
    ensures
        c.recorded(Decision::Switch, Decision::Switch) == (Counts {
            tp: (c.tp + 1) as usize,
            fp: c.fp,
            fn_: c.fn_,
            tn: c.tn,
        }),
        c.recorded(Decision::Keep, Decision::Switch) == (Counts {
            tp: c.tp,
            fp: (c.fp + 1) as usize,
            fn_: c.fn_,
            tn: c.tn,
        }),
        c.recorded(Decision::Switch, Decision::Keep) == (Counts {
            tp: c.tp,
            fp: c.fp,
            fn_: (c.fn_ + 1) as usize,
            tn: c.tn,
        }),
        c.recorded(Decision::Keep, Decision::Keep) == (Counts {
            tp: c.tp,
            fp: c.fp,
            fn_: c.fn_,
            tn: (c.tn + 1) as usize,
        }),
{
}

/// Every how-many-th word type goes to the test part.
pub const HOLD_OUT_EVERY: usize = 5;

/// `a` comes before `b` in the order of `str`: lexicographically by character.
pub open spec fn lex_lt(a: Seq<char>, b: Seq<char>) -> bool
    decreases a.len(),
{
    if a.len() == 0 {
        b.len() > 0
    } else if b.len() == 0 {
        false
    } else if a[0] != b[0] {
        a[0] < b[0]
    } else {
        lex_lt(a.drop_first(), b.drop_first())
    }
}

pub proof fn lemma_lex_irreflexive(a: Seq<char>)
    ensures
        !lex_lt(a, a),
    decreases a.len(),
{
    if a.len() > 0 {
        lemma_lex_irreflexive(a.drop_first());
    }
}

pub proof fn lemma_lex_asymmetric(a: Seq<char>, b: Seq<char>)
    ensures
        lex_lt(a, b) ==> !lex_lt(b, a),
    decreases a.len(),
{
    if a.len() > 0 && b.len() > 0 && a[0] == b[0] {
        lemma_lex_asymmetric(a.drop_first(), b.drop_first());
    }
}

pub proof fn lemma_lex_total(a: Seq<char>, b: Seq<char>)
    ensures
        a != b ==> lex_lt(a, b) || lex_lt(b, a),
    decreases a.len(),
{
    if a.len() > 0 && b.len() > 0 && a[0] == b[0] {
        lemma_lex_total(a.drop_first(), b.drop_first());
        if a.drop_first() == b.drop_first() {
            assert(a =~= seq![a[0]] + a.drop_first());
            assert(b =~= seq![b[0]] + b.drop_first());
        }
    } else if a.len() == 0 && b.len() == 0 {
        assert(a =~= b);
    }
}

/// Calls `<[String]>::sort`. The contract claims that the result holds the same
/// strings as before, and in the order of `str`: the standard library documents
/// that strings are ordered lexicographically by their bytes, which orders Unicode
/// code points by their positions in the code charts, i.e. by `lex_lt` on the
/// characters. Stability is not stated.
#[verifier::external_body]
fn sort_strings(v: &mut Vec<String>)
    ensures
        string_views(final(v)@).to_multiset() == string_views(old(v)@).to_multiset(),
        forall|i: int, j: int|
            0 <= i < j < final(v)@.len() ==> !lex_lt(
                #[trigger] final(v)@[j]@,
                #[trigger] final(v)@[i]@,
            ),
{
    v.sort();
}

/// How many distinct word types of `types` come before `t`.
pub open spec fn rank(types: Set<Seq<char>>, t: Seq<char>) -> nat {
    types.filter(|u: Seq<char>| lex_lt(u, t)).len()
}

/// Whether the word type `t` of `tokens` goes to the test part: every fifth type in
/// sorted order, counted from one.
pub open spec fn held_out(tokens: Seq<Seq<char>>, t: Seq<char>) -> bool {
    rank(tokens.to_set(), t) % (HOLD_OUT_EVERY as nat) == (HOLD_OUT_EVERY - 1) as nat
}

/// The tokens of `s` that do (`held == true`) or do not go to the test part of
/// `all`, in order.
pub open spec fn part_of(all: Seq<Seq<char>>, s: Seq<Seq<char>>, held: bool) -> Seq<Seq<char>>
    decreases s.len(),
{
    if s.len() == 0 {
        Seq::empty()
    } else {
        let rest = part_of(all, s.drop_last(), held);
        if held_out(all, s.last()) == held {
            rest.push(s.last())
        } else {
            rest
        }
    }
}

/// The first occurrence of each element of `s`, in order.
pub open spec fn first_occurrences(s: Seq<Seq<char>>) -> Seq<Seq<char>>
    decreases s.len(),
{
    if s.len() == 0 {
        Seq::empty()
    } else {
        let rest = first_occurrences(s.drop_last());
        if s.drop_last().contains(s.last()) {
            rest
        } else {
            rest.push(s.last())
        }
    }
}

proof fn lemma_first_occurrences_set(s: Seq<Seq<char>>)
    ensures
        first_occurrences(s).to_set() == s.to_set(),
        first_occurrences(s).no_duplicates(),
    decreases s.len(),
{
    if s.len() > 0 {
        let p = s.drop_last();
        lemma_first_occurrences_set(p);
        assert(s =~= p.push(s.last()));
        p.lemma_push_to_set_commute(s.last());
        if !p.contains(s.last()) {
            first_occurrences(p).lemma_push_to_set_commute(s.last());
            assert(!first_occurrences(p).to_set().contains(s.last()));
        } else {
            assert(p.to_set().contains(s.last()));
            assert(p.to_set().insert(s.last()) =~= p.to_set());
        }
    } else {
        assert(first_occurrences(s).to_set() =~= s.to_set());
    }
}

/// In a sorted sequence without duplicates, the number of elements that come
/// before the element at `i` is `i`.
proof fn lemma_rank_in_sorted(s: Seq<Seq<char>>, i: int)
    requires
        0 <= i < s.len(),
        s.no_duplicates(),
        forall|a: int, b: int| 0 <= a < b < s.len() ==> !lex_lt(#[trigger] s[b], #[trigger] s[a]),
    ensures
        rank(s.to_set(), s[i]) == i,
{
    let below = s.to_set().filter(|u: Seq<char>| lex_lt(u, s[i]));
    assert forall|u: Seq<char>| below.contains(u) <==> s.take(i).to_set().contains(u) by {
        if below.contains(u) {
            let j = choose|j: int| 0 <= j < s.len() && s[j] == u;
            lemma_lex_irreflexive(u);
            if j > i {
                lemma_lex_asymmetric(s[j], s[i]);
            }
            assert(s.take(i)[j] == u);
        }
        if s.take(i).to_set().contains(u) {
            let j = choose|j: int| 0 <= j < i && s.take(i)[j] == u;
            assert(s[j] == u);
            lemma_lex_total(s[j], s[i]);
            assert(s.contains(u));
        }
    }
    assert(below =~= s.take(i).to_set());
    assert(s.take(i).no_duplicates());
    s.take(i).unique_seq_to_set();
}

/// Splits a corpus into training and test parts **by word type, not by
/// occurrence**: every fifth distinct token in sorted order goes to the test part
/// with all its occurrences, and training never sees it. The test part holds each
/// type once.
pub fn split(tokens: &[String]) -> (r: (Vec<String>, Vec<String>))
    ensures
        string_views(r.0@) == part_of(string_views(tokens@), string_views(tokens@), false),
        string_views(r.1@) == first_occurrences(
            part_of(string_views(tokens@), string_views(tokens@), true),
        ),
{
    let ghost all = string_views(tokens@);
    // Distinct types, in order of first occurrence.
    let mut seen: StringHashMap<bool> = StringHashMap::new();
    let mut types: Vec<String> = Vec::new();
    let mut i: usize = 0;
    proof {
        assert(all.take(0) =~= Seq::<Seq<char>>::empty());
    }
    while i < tokens.len()
        invariant
            0 <= i <= tokens@.len(),
            all == string_views(tokens@),
            string_views(types@) == first_occurrences(all.take(i as int)),
            seen@.dom() == all.take(i as int).to_set(),
        decreases tokens@.len() - i,
    {
        let t = tokens[i].as_str();
        proof {
            assert(all.take(i + 1).drop_last() =~= all.take(i as int));
            assert(all[i as int] == t@);
            all.take(i as int).lemma_push_to_set_commute(t@);
            assert(all.take(i + 1) =~= all.take(i as int).push(t@));
        }
        if !seen.contains_key(t) {
            let ghost before = types@;
            types.push(tokens[i].clone());
            proof {
                assert(string_views(types@) =~= string_views(before).push(t@));
            }
            seen.insert(tokens[i].clone(), true);
        }
        i = i + 1;
    }
    proof {
        assert(all.take(i as int) =~= all);
        lemma_first_occurrences_set(all);
    }
    let ghost unsorted = string_views(types@);
    sort_strings(&mut types);
    let ghost sorted = string_views(types@);
    proof {
        unsorted.lemma_multiset_has_no_duplicates();
        sorted.lemma_multiset_has_no_duplicates_conv();
        sorted.to_multiset_ensures();
        unsorted.to_multiset_ensures();
        assert forall|u: Seq<char>| sorted.contains(u) <==> unsorted.contains(u) by {
            assert(sorted.contains(u) <==> sorted.to_multiset().count(u) > 0);
            assert(unsorted.contains(u) <==> unsorted.to_multiset().count(u) > 0);
        }
        assert(sorted.to_set() =~= all.to_set());
        assert forall|a: int, b: int| 0 <= a < b < sorted.len() implies !lex_lt(
            #[trigger] sorted[b],
            #[trigger] sorted[a],
        ) by {
            assert(sorted[a] == types@[a]@);
            assert(sorted[b] == types@[b]@);
        }
    }
    // The held-out types.
    let mut held: StringHashMap<bool> = StringHashMap::new();
    let mut j: usize = 0;
    while j < types.len()
        invariant
            0 <= j <= types@.len(),
            sorted == string_views(types@),
            forall|u: Seq<char>|
                #[trigger] held@.dom().contains(u) <==> exists|m: int|
                    0 <= m < j && m % (HOLD_OUT_EVERY as int) == (HOLD_OUT_EVERY - 1) as int
                        && sorted[m] == u,
        decreases types@.len() - j,
    {
        if j % HOLD_OUT_EVERY == HOLD_OUT_EVERY - 1 {
            held.insert(types[j].clone(), true);
        }
        proof {
            assert(sorted[j as int] == types@[j as int]@);
        }
        j = j + 1;
    }
    proof {
        assert forall|t: Seq<char>| all.contains(t) implies (held@.dom().contains(t)
            <==> held_out(all, t)) by {
            assert(all.to_set().contains(t));
            assert(sorted.to_set().contains(t));
            let m = choose|m: int| 0 <= m < sorted.len() && sorted[m] == t;
            lemma_rank_in_sorted(sorted, m);
            if held@.dom().contains(t) {
                let m2 = choose|m2: int|
                    0 <= m2 < j && m2 % (HOLD_OUT_EVERY as int) == (HOLD_OUT_EVERY - 1) as int
                        && sorted[m2] == t;
                assert(m2 == m);
            }
        }
    }
    // Training and test parts.
    let mut train: Vec<String> = Vec::new();
    let mut test: Vec<String> = Vec::new();
    let mut in_test: StringHashMap<bool> = StringHashMap::new();
    let mut k: usize = 0;
    proof {
        assert(all.take(0) =~= Seq::<Seq<char>>::empty());
    }
    while k < tokens.len()
        invariant
            0 <= k <= tokens@.len(),
            all == string_views(tokens@),
            forall|t: Seq<char>| all.contains(t) ==> (held@.dom().contains(t) <==> held_out(all, t)),
            string_views(train@) == part_of(all, all.take(k as int), false),
            string_views(test@) == first_occurrences(part_of(all, all.take(k as int), true)),
            in_test@.dom() == part_of(all, all.take(k as int), true).to_set(),
        decreases tokens@.len() - k,
    {
        let t = tokens[k].as_str();
        let ghost held_part = part_of(all, all.take(k as int), true);
        proof {
            assert(all.take(k + 1).drop_last() =~= all.take(k as int));
            assert(all[k as int] == t@);
            assert(all.contains(t@));
            lemma_first_occurrences_set(held_part);
        }
        if held.contains_key(t) {
            if !in_test.contains_key(t) {
                let ghost before = test@;
                test.push(tokens[k].clone());
                proof {
                    assert(string_views(test@) =~= string_views(before).push(t@));
                }
                in_test.insert(tokens[k].clone(), true);
            }
            proof {
                let next = held_part.push(t@);
                assert(next.drop_last() =~= held_part);
                held_part.lemma_push_to_set_commute(t@);
            }
        } else {
            let ghost before = train@;
            train.push(tokens[k].clone());
            proof {
                assert(string_views(train@) =~= string_views(before).push(t@));
            }
        }
        k = k + 1;
    }
    proof {
        assert(all.take(k as int) =~= all);
    }
    (train, test)
}

proof fn lemma_part_members(all: Seq<Seq<char>>, s: Seq<Seq<char>>, held: bool, t: Seq<char>)
    ensures
        part_of(all, s, held).contains(t) <==> (s.contains(t) && held_out(all, t) == held),
    decreases s.len(),
{
    if s.len() > 0 {
        let p = s.drop_last();
        lemma_part_members(all, p, held, t);
        assert(s =~= p.push(s.last()));
        if p.contains(t) {
            let i = choose|i: int| 0 <= i < p.len() && p[i] == t;
            assert(s[i] == t);
        }
        if s.contains(t) && t != s.last() {
            let i = choose|i: int| 0 <= i < s.len() && s[i] == t;
            assert(p[i] == t);
        }
        let rest = part_of(all, p, held);
        if held_out(all, s.last()) == held {
            assert(rest.push(s.last())[rest.len() as int] == s.last());
            if rest.contains(t) {
                let i = choose|i: int| 0 <= i < rest.len() && rest[i] == t;
                assert(rest.push(s.last())[i] == t);
            }
            if rest.push(s.last()).contains(t) && t != s.last() {
                let i = choose|i: int| 0 <= i < rest.len() + 1 && rest.push(s.last())[i] == t;
                assert(rest[i] == t);
            }
        }
    }
}

/// The split is a partition by type: every token lands in the training part or
/// in the test part, never in both, and the test part holds each type once.
pub proof fn lemma_split_partitions(all: Seq<Seq<char>>, t: Seq<char>)
    ensures
        all.contains(t) ==> (part_of(all, all, false).contains(t) || first_occurrences(
            part_of(all, all, true),
        ).contains(t)),
        !(part_of(all, all, false).contains(t) && first_occurrences(
            part_of(all, all, true),
        ).contains(t)),
        first_occurrences(part_of(all, all, true)).no_duplicates(),
{
    lemma_part_members(all, all, false, t);
    lemma_part_members(all, all, true, t);
    lemma_first_occurrences_set(part_of(all, all, true));
    let test = first_occurrences(part_of(all, all, true));
    assert(test.contains(t) <==> test.to_set().contains(t));
    assert(part_of(all, all, true).contains(t) <==> part_of(all, all, true).to_set().contains(t));
}

/// Which types are held out depends on the set of types alone, not on the order
/// in which the tokens come: the split is reproducible whatever order the corpus
/// files are read in.
pub proof fn lemma_held_out_order_free(a: Seq<Seq<char>>, b: Seq<Seq<char>>, t: Seq<char>)
    requires
        a.to_set() == b.to_set(),
    ensures
        held_out(a, t) == held_out(b, t),
{
}

proof fn lemma_part_counts(all: Seq<Seq<char>>, s: Seq<Seq<char>>, held: bool, t: Seq<char>)
    ensures
        part_of(all, s, held).to_multiset().count(t) == if held_out(all, t) == held {
            s.to_multiset().count(t)
        } else {
            0
        },
    decreases s.len(),
{
    broadcast use vstd::seq_lib::to_multiset_build;
    broadcast use vstd::multiset::group_multiset_axioms;

    if s.len() == 0 {
        assert(part_of(all, s, held) =~= Seq::<Seq<char>>::empty());
        assert(s.to_multiset() =~= vstd::multiset::Multiset::<Seq<char>>::empty()) by {
            s.to_multiset_ensures();
        }
        assert(Seq::<Seq<char>>::empty().to_multiset() =~= vstd::multiset::Multiset::<Seq<char>>::empty()) by {
            Seq::<Seq<char>>::empty().to_multiset_ensures();
        }
    } else {
        let p = s.drop_last();
        lemma_part_counts(all, p, held, t);
        assert(s =~= p.push(s.last()));
        let rest = part_of(all, p, held);
        if held_out(all, s.last()) == held {
            assert(part_of(all, s, held) == rest.push(s.last()));
        }
    }
}

/// The split does not depend on the order of the tokens: for a corpus read in
/// another order, the training part holds the same tokens, as often each, and the
/// test part holds the same types.
pub proof fn lemma_split_order_free(a: Seq<Seq<char>>, b: Seq<Seq<char>>)
    requires
        a.to_multiset() == b.to_multiset(),
    ensures
        part_of(a, a, false).to_multiset() == part_of(b, b, false).to_multiset(),
        first_occurrences(part_of(a, a, true)).to_set() == first_occurrences(
            part_of(b, b, true),
        ).to_set(),
{
    assert(a.to_set() =~= b.to_set()) by {
        a.to_multiset_ensures();
        b.to_multiset_ensures();
        assert forall|t: Seq<char>| a.contains(t) <==> b.contains(t) by {
            assert(a.contains(t) <==> a.to_multiset().count(t) > 0);
            assert(b.contains(t) <==> b.to_multiset().count(t) > 0);
        }
    }
    assert forall|t: Seq<char>|
        part_of(a, a, false).to_multiset().count(t) == part_of(b, b, false).to_multiset().count(
            t,
        ) by {
        lemma_part_counts(a, a, false, t);
        lemma_part_counts(b, b, false, t);
        lemma_held_out_order_free(a, b, t);
    }
    assert(part_of(a, a, false).to_multiset() =~= part_of(b, b, false).to_multiset());
    lemma_first_occurrences_set(part_of(a, a, true));
    lemma_first_occurrences_set(part_of(b, b, true));
    assert forall|t: Seq<char>|
        part_of(a, a, true).to_set().contains(t) <==> part_of(b, b, true).to_set().contains(t) by {
        lemma_part_members(a, a, true, t);
        lemma_part_members(b, b, true, t);
        lemma_held_out_order_free(a, b, t);
        assert(a.contains(t) <==> a.to_set().contains(t));
        assert(b.contains(t) <==> b.to_set().contains(t));
    }
    assert(part_of(a, a, true).to_set() =~= part_of(b, b, true).to_set());
}

/// Appends the tokens of `text` to `out` while `out` holds fewer than `limit`.
/// Returns `true` when a token of the text was left out because `out` was full.
pub fn extend_tokens(out: &mut Vec<String>, text: &str, limit: usize) -> (stopped: bool)
    ensures
        taken_up_to(old(out)@, final(out)@, tokens(text@), limit, stopped),
{
    let words = tokenize(text);
    extend_limited(out, words, limit)
}

/// `after` is `before` with the first of `ts` appended while it held fewer than
/// `limit`; `stopped` tells whether some of `ts` was left out.
pub open spec fn taken_up_to(
    before: Seq<String>,
    after: Seq<String>,
    ts: Seq<Seq<char>>,
    limit: usize,
    stopped: bool,
) -> bool {
    let room = if before.len() >= limit {
        0
    } else {
        limit - before.len()
    };
    let taken = if ts.len() <= room {
        ts.len() as int
    } else {
        room
    };
    &&& string_views(after) == string_views(before) + ts.take(taken)
    &&& stopped == (ts.len() > room)
}

/// Appends `words` to `out` while `out` holds fewer than `limit`. Returns `true`
/// when one of them was left out because `out` was full.
pub fn extend_limited(out: &mut Vec<String>, words: Vec<String>, limit: usize) -> (stopped: bool)
    ensures
        taken_up_to(old(out)@, final(out)@, string_views(words@), limit, stopped),
{
    let ghost ts = string_views(words@);
    let ghost start = string_views(out@);
    let mut i: usize = 0;
    proof {
        assert(ts.take(0) =~= Seq::<Seq<char>>::empty());
        assert(start + ts.take(0) =~= start);
    }
    while i < words.len()
        invariant
            0 <= i <= words@.len(),
            ts == string_views(words@),
            string_views(out@) == start + ts.take(i as int),
            start == string_views(old(out)@),
            out@.len() == old(out)@.len() + i,
            i > 0 ==> out@.len() <= limit,
        decreases words@.len() - i,
    {
        if out.len() >= limit {
            return true;
        }
        let ghost before = out@;
        out.push(words[i].clone());
        proof {
            assert(ts.take(i + 1) =~= ts.take(i as int).push(ts[i as int]));
            assert(string_views(out@) =~= string_views(before).push(ts[i as int]));
        }
        i = i + 1;
    }
    proof {
        assert(ts.take(i as int) =~= ts);
    }
    false
}

/// Tokens shorter than this need twice the margin: there is almost no statistics.
pub const SHORT_TOKEN_LEN: usize = 4;

/// Whether a token is short in the sense of `SHORT_TOKEN_LEN`.
pub fn is_short(token: &str) -> (r: bool)
    ensures
        r == (token@.len() < SHORT_TOKEN_LEN),
{
    has_at_most_chars(token, SHORT_TOKEN_LEN - 1)
}

/// The hypothesis a switch decision weighs against the token as typed: the layout
/// the token was typed in and its retyping in the other one. `None` when the
/// direction cannot be decided or the token does not map as a whole; such a token
/// is kept.
pub fn switch_hypothesis(token: &str) -> (r: Option<(Direction, String)>)
    ensures
        match detected_direction(token@) {
            None => r is None,
            Some(d) => match transliteration(token@, d) {
                None => r is None,
                Some(alt) => r matches Some((d2, s)) && d2 == d && s@ == alt,
            },
        },
{
    let dir = match detect_direction(token) {
        Some(d) => d,
        None => return None,
    };
    match transliterate(token, dir) {
        Some(alt) => Some((dir, alt)),
        None => None,
    }
}

/// The evaluation cases a clean token gives: the token itself, to be kept, and
/// its retyping in the other layout, to be switched, when it has one.
pub open spec fn token_cases(t: Seq<char>, dir: Direction) -> Seq<(Seq<char>, Decision)> {
    match transliteration(t, dir) {
        Some(m) => seq![(t, Decision::Keep), (m, Decision::Switch)],
        None => seq![(t, Decision::Keep)],
    }
}

pub open spec fn cases_of(ts: Seq<Seq<char>>, dir: Direction) -> Seq<(Seq<char>, Decision)>
    decreases ts.len(),
{
    if ts.len() == 0 {
        Seq::empty()
    } else {
        cases_of(ts.drop_last(), dir) + token_cases(ts.last(), dir)
    }
}

/// One token gives the case that keeps it, followed, where it retypes in `dir`, by
/// the case that switches its retyping in `dir`.
pub proof fn lemma_cases_of_one_token(t: Seq<char>, dir: Direction)
    ensures
        transliteration(t, dir) matches Some(m) ==> cases_of(seq![t], dir) == seq![
            (t, Decision::Keep),
            (m, Decision::Switch),
        ],
        transliteration(t, dir) is None ==> cases_of(seq![t], dir) == seq![(t, Decision::Keep)],
{
    assert(seq![t].drop_last() =~= Seq::<Seq<char>>::empty());
    assert(cases_of(Seq::<Seq<char>>::empty(), dir) + token_cases(t, dir) =~= token_cases(t, dir));
}

/// The cases of several tokens are the cases of each token, in order.
pub proof fn lemma_cases_of_append(a: Seq<Seq<char>>, b: Seq<Seq<char>>, dir: Direction)
    ensures
        cases_of(a + b, dir) == cases_of(a, dir) + cases_of(b, dir),
    decreases b.len(),
{
    if b.len() == 0 {
        assert(a + b =~= a);
        assert(cases_of(a, dir) + cases_of(b, dir) =~= cases_of(a, dir));
    } else {
        lemma_cases_of_append(a, b.drop_last(), dir);
        assert((a + b).drop_last() =~= a + b.drop_last());
        assert((a + b).last() == b.last());
        assert(cases_of(a, dir) + cases_of(b.drop_last(), dir) + token_cases(b.last(), dir)
            =~= cases_of(a, dir) + (cases_of(b.drop_last(), dir) + token_cases(b.last(), dir)));
    }
}

pub open spec fn case_views(v: Seq<(String, Decision)>) -> Seq<(Seq<char>, Decision)> {
    v.map_values(|c: (String, Decision)| (c.0@, c.1))
}

/// Labelled evaluation cases from clean tokens: every token is expected to be
/// kept, and its retyping in direction `dir`, where it exists, to be switched.
pub fn labelled_cases(tokens: &[String], dir: Direction) -> (r: Vec<(String, Decision)>)
    ensures
        case_views(r@) == cases_of(string_views(tokens@), dir),
{
    let ghost ts = string_views(tokens@);
    let mut r: Vec<(String, Decision)> = Vec::new();
    let mut i: usize = 0;
    while i < tokens.len()
        invariant
            0 <= i <= tokens@.len(),
            ts == string_views(tokens@),
            case_views(r@) == cases_of(ts.take(i as int), dir),
        decreases tokens@.len() - i,
    {
        proof {
            assert(ts.take(i + 1).drop_last() =~= ts.take(i as int));
            assert(ts[i as int] == tokens@[i as int]@);
        }
        let ghost before = r@;
        r.push((tokens[i].clone(), Decision::Keep));
        match transliterate(tokens[i].as_str(), dir) {
            Some(m) => {
                r.push((m, Decision::Switch));
            },
            None => {},
        }
        proof {
            assert(case_views(r@) =~= case_views(before) + token_cases(ts[i as int], dir));
        }
        i = i + 1;
    }
    proof {
        assert(ts.take(i as int) =~= ts);
    }
    r
}

} // verus!
