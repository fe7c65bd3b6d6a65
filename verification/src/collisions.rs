//! Layout collisions: key sequences that mean something in both layouts, found in
//! word frequency dictionaries.
//!
//! A collision is a Russian word whose retyping in QWERTY is a known English word
//! or technical token. Exactly on those tokens a decision without context is
//! impossible; the dictionaries decide which pairs exist instead of a hand-made list.

use vstd::prelude::*;
use vstd::hash_map::StringHashMap;

use crate::counting::{
    all_positive, count_in, fits_counts, lemma_occurrences_prefix, lemma_occurrences_push,
    occurrences,
};
use crate::layout::{
    lemma_transliteration_round_trip, transliterate, transliteration, Direction,
};
use crate::text::{has_at_most_chars, string_views, tokenize, tokens};

verus! {

broadcast use vstd::hash_map::group_hash_map_axioms;

/// A word is known only from this frequency on: it cuts off typos and noise that
/// would otherwise be reported as collisions.
pub const MIN_FREQ: u32 = 3;

/// Word frequencies, with the words kept in the order they were first counted.
pub struct FreqTable {
    counts: StringHashMap<u32>,
    words: Vec<String>,
}

impl FreqTable {
    /// How often `w` has been counted.
    pub closed spec fn freq(&self, w: Seq<char>) -> nat {
        count_in(self.counts@, w)
    }

    /// The counted words, in order of first count.
    pub closed spec fn entries(&self) -> Seq<Seq<char>> {
        string_views(self.words@)
    }

    pub closed spec fn wf(&self) -> bool {
        &&& all_positive(self.counts@)
        &&& self.entries().no_duplicates()
        &&& self.entries().to_set() == self.counts@.dom()
    }

    pub fn new() -> (t: Self)
        ensures
            t.wf(),
            t.entries() == Seq::<Seq<char>>::empty(),
            forall|w: Seq<char>| t.freq(w) == 0,
    {
        let t = FreqTable { counts: StringHashMap::new(), words: Vec::new() };
        proof {
            assert(t.entries() =~= Seq::<Seq<char>>::empty());
            assert(t.entries().to_set() =~= t.counts@.dom());
        }
        t
    }

    /// A word is counted exactly when it is among the entries.
    pub proof fn lemma_entries_are_counted(&self, w: Seq<char>)
        requires
            self.wf(),
        ensures
            self.entries().contains(w) <==> self.freq(w) > 0,
    {
        assert(self.entries().contains(w) <==> self.entries().to_set().contains(w));
    }

    pub fn get(&self, word: &str) -> (r: Option<u32>)
        requires
            self.wf(),
        ensures
            r matches Some(n) ==> n == self.freq(word@) && n > 0,
            r is None <==> self.freq(word@) == 0,
    {
        match self.counts.get(word) {
            Some(n) => Some(*n),
            None => None,
        }
    }

    /// The number of distinct words.
    pub fn len(&self) -> (n: usize)
        requires
            self.wf(),
        ensures
            n == self.entries().len(),
    {
        self.words.len()
    }

    /// The word at position `i` of the entries, with its frequency.
    pub fn entry(&self, i: usize) -> (r: (&str, u32))
        requires
            self.wf(),
            i < self.entries().len(),
        ensures
            r.0@ == self.entries()[i as int],
            r.1 == self.freq(r.0@),
    {
        let w = self.words[i].as_str();
        proof {
            assert(self.entries()[i as int] == w@);
            assert(self.entries().contains(w@));
            assert(self.entries().to_set().contains(w@));
        }
        let n = match self.counts.get(w) {
            Some(n) => *n,
            None => 0,
        };
        (w, n)
    }

    /// Adds `n` to the count of `key`.
    fn add(&mut self, key: &str, n: u32)
        requires
            old(self).wf(),
            n > 0,
            old(self).freq(key@) + n <= u32::MAX,
        ensures
            final(self).wf(),
            forall|w: Seq<char>|
                #[trigger] final(self).freq(w) == old(self).freq(w) + if w == key@ {
                    n as nat
                } else {
                    0nat
                },
            final(self).entries() == if old(self).freq(key@) > 0 {
                old(self).entries()
            } else {
                old(self).entries().push(key@)
            },
    {
        let current: u32 = match self.counts.get(key) {
            Some(c) => *c,
            None => 0,
        };
        let ghost before = self.entries();
        if current == 0 {
            self.words.push(key.to_owned());
            proof {
                assert(!self.counts@.dom().contains(key@));
                assert(!before.to_set().contains(key@));
                assert(self.entries() =~= before.push(key@));
                before.lemma_push_to_set_commute(key@);
            }
        }
        self.counts.insert(key.to_owned(), current + n);
        proof {
            if current > 0 {
                assert(self.counts@.dom() =~= old(self).counts@.dom());
            }
        }
    }

    /// Counts the tokens of a text.
    pub fn add_text(&mut self, text: &str)
        requires
            old(self).wf(),
            forall|w: Seq<char>|
                #[trigger] old(self).freq(w) + occurrences(tokens(text@), w) <= u32::MAX,
        ensures
            final(self).wf(),
            forall|w: Seq<char>|
                #[trigger] final(self).freq(w) == old(self).freq(w) + occurrences(
                    tokens(text@),
                    w,
                ),
    {
        let words = tokenize(text);
        self.add_tokens(words.as_slice());
    }

    /// Counts the tokens of a text when every count stays within `u32`; returns
    /// whether it did. When it did not, the table is left as it was.
    pub fn try_add_text(&mut self, text: &str) -> (r: bool)
        requires
            old(self).wf(),
        ensures
            r == forall|w: Seq<char>|
                #[trigger] old(self).freq(w) + occurrences(tokens(text@), w) <= u32::MAX,
            final(self).wf(),
            r ==> forall|w: Seq<char>|
                #[trigger] final(self).freq(w) == old(self).freq(w) + occurrences(
                    tokens(text@),
                    w,
                ),
            !r ==> *final(self) == *old(self),
    {
        let words = tokenize(text);
        let fit = fits_counts(&self.counts, words.as_slice());
        proof {
            assert(fit == forall|w: Seq<char>|
                #[trigger] self.freq(w) + occurrences(tokens(text@), w) <= u32::MAX) by {
                if fit {
                    assert forall|w: Seq<char>|
                        #[trigger] self.freq(w) + occurrences(tokens(text@), w) <= u32::MAX by {
                        assert(count_in(self.counts@, w) + occurrences(string_views(words@), w)
                            <= u32::MAX);
                    }
                } else {
                    let w = choose|w: Seq<char>|
                        !(count_in(self.counts@, w) + occurrences(string_views(words@), w)
                            <= u32::MAX);
                    assert(!(self.freq(w) + occurrences(tokens(text@), w) <= u32::MAX));
                }
            }
        }
        if fit {
            self.add_tokens(words.as_slice());
        }
        fit
    }

    /// Counts already tokenized text.
    pub fn add_tokens(&mut self, words: &[String])
        requires
            old(self).wf(),
            forall|w: Seq<char>|
                #[trigger] old(self).freq(w) + occurrences(string_views(words@), w) <= u32::MAX,
        ensures
            final(self).wf(),
            forall|w: Seq<char>|
                #[trigger] final(self).freq(w) == old(self).freq(w) + occurrences(
                    string_views(words@),
                    w,
                ),
    {
        let ghost ts = string_views(words@);
        let mut i: usize = 0;
        proof {
            assert(ts.take(0) =~= Seq::<Seq<char>>::empty());
        }
        while i < words.len()
            invariant
                0 <= i <= words@.len(),
                ts == string_views(words@),
                self.wf(),
                forall|w: Seq<char>|
                    #[trigger] old(self).freq(w) + occurrences(ts, w) <= u32::MAX,
                forall|w: Seq<char>|
                    #[trigger] self.freq(w) == old(self).freq(w) + occurrences(
                        ts.take(i as int),
                        w,
                    ),
            decreases words@.len() - i,
        {
            let ghost x = ts[i as int];
            proof {
                assert(words@[i as int]@ == x);
                assert(ts.take(i + 1) =~= ts.take(i as int).push(x));
                lemma_occurrences_push(ts.take(i as int), x, x);
                lemma_occurrences_prefix(ts, i + 1, x);
                assert(self.freq(x) == old(self).freq(x) + occurrences(ts.take(i as int), x));
                assert(old(self).freq(x) + occurrences(ts, x) <= u32::MAX);
            }
            let ghost before = *self;
            self.add(words[i].as_str(), 1);
            proof {
                assert forall|w: Seq<char>|
                    #[trigger] self.freq(w) == old(self).freq(w) + occurrences(
                        ts.take(i + 1),
                        w,
                    ) by {
                    assert(before.freq(w) == old(self).freq(w) + occurrences(ts.take(i as int), w));
                    lemma_occurrences_push(ts.take(i as int), x, w);
                }
            }
            i = i + 1;
        }
        proof {
            assert(ts.take(i as int) =~= ts);
        }
    }

    /// Adds all counts of `other` to this table.
    pub fn merge(&mut self, other: &FreqTable)
        requires
            old(self).wf(),
            other.wf(),
            forall|w: Seq<char>| #[trigger] old(self).freq(w) + other.freq(w) <= u32::MAX,
        ensures
            final(self).wf(),
            forall|w: Seq<char>| #[trigger] final(self).freq(w) == old(self).freq(w) + other.freq(w),
    {
        let ghost es = other.entries();
        let mut i: usize = 0;
        while i < other.len()
            invariant
                0 <= i <= es.len(),
                es == other.entries(),
                other.wf(),
                self.wf(),
                forall|w: Seq<char>| #[trigger] old(self).freq(w) + other.freq(w) <= u32::MAX,
                forall|w: Seq<char>|
                    #[trigger] self.freq(w) == old(self).freq(w) + if es.take(i as int).contains(w) {
                        other.freq(w)
                    } else {
                        0nat
                    },
            decreases es.len() - i,
        {
            let (w, n) = other.entry(i);
            proof {
                other.lemma_entries_are_counted(w@);
                assert(es.contains(w@));
                assert(!es.take(i as int).contains(w@)) by {
                    if es.take(i as int).contains(w@) {
                        let j = choose|j: int| 0 <= j < i && #[trigger] es.take(i as int)[j] == w@;
                        assert(es[j] == es[i as int]);
                    }
                }
                assert(self.freq(w@) == old(self).freq(w@));
            }
            let ghost before = *self;
            self.add(w, n);
            proof {
                assert forall|u: Seq<char>|
                    #[trigger] self.freq(u) == old(self).freq(u) + if es.take(i + 1).contains(u) {
                        other.freq(u)
                    } else {
                        0nat
                    } by {
                    assert(es.take(i + 1) =~= es.take(i as int).push(w@));
                    assert(before.freq(u) == old(self).freq(u) + if es.take(i as int).contains(u) {
                        other.freq(u)
                    } else {
                        0nat
                    });
                    if u == w@ {
                        assert(es.take(i + 1)[i as int] == u);
                    } else {
                        if es.take(i + 1).contains(u) {
                            let j = choose|j: int| 0 <= j < i + 1 && #[trigger] es.take(i + 1)[j] == u;
                            assert(es.take(i as int)[j] == u);
                        }
                        if es.take(i as int).contains(u) {
                            let j = choose|j: int| 0 <= j < i && #[trigger] es.take(i as int)[j] == u;
                            assert(es.take(i + 1)[j] == u);
                        }
                    }
                }
            }
            i = i + 1;
        }
        proof {
            assert(es.take(i as int) =~= es);
            assert forall|w: Seq<char>| #[trigger] self.freq(w) == old(self).freq(w) + other.freq(w) by {
                other.lemma_entries_are_counted(w);
            }
        }
    }
}

/// A Russian word whose retyping in QWERTY is a known English token, with both
/// frequencies.
#[derive(Debug)]
pub struct Collision {
    pub ru: String,
    pub en: String,
    pub ru_freq: u32,
    pub en_freq: u32,
}

impl View for Collision {
    type V = (Seq<char>, Seq<char>, u32, u32);

    open spec fn view(&self) -> Self::V {
        (self.ru@, self.en@, self.ru_freq, self.en_freq)
    }
}

/// The collision that the Russian word `w` makes, if it makes one: both spellings
/// occur at least `MIN_FREQ` times and the word is at most `max_len` characters long.
pub open spec fn collision_of(ru: &FreqTable, en: &FreqTable, w: Seq<char>, max_len: nat) -> Option<
    (Seq<char>, Seq<char>, u32, u32),
> {
    match transliteration(w, Direction::RuToEn) {
        Some(latin) => if ru.freq(w) >= MIN_FREQ && w.len() <= max_len && en.freq(latin)
            >= MIN_FREQ {
            Some((w, latin, ru.freq(w) as u32, en.freq(latin) as u32))
        } else {
            None
        },
        None => None,
    }
}

/// The collisions that the words of `ws` make, in order.
pub open spec fn collisions_in(
    ru: &FreqTable,
    en: &FreqTable,
    ws: Seq<Seq<char>>,
    max_len: nat,
) -> Seq<(Seq<char>, Seq<char>, u32, u32)>
    decreases ws.len(),
{
    if ws.len() == 0 {
        Seq::empty()
    } else {
        let rest = collisions_in(ru, en, ws.drop_last(), max_len);
        match collision_of(ru, en, ws.last(), max_len) {
            Some(c) => rest.push(c),
            None => rest,
        }
    }
}

/// The sort key of a collision: the frequency of its rarer side.
pub open spec fn weaker(c: (Seq<char>, Seq<char>, u32, u32)) -> u32 {
    if c.2 <= c.3 {
        c.2
    } else {
        c.3
    }
}

/// The sort key of a collision is the smaller of its two frequencies.
pub proof fn lemma_weaker_is_the_smaller_frequency(c: (Seq<char>, Seq<char>, u32, u32))
    ensures
        weaker(c) <= c.2,
        weaker(c) <= c.3,
        weaker(c) == c.2 || weaker(c) == c.3,
{
}

/// Ranked by the rarer side, highest first: the smaller frequency of a collision
/// is at least the smaller frequency of any later one.
pub open spec fn ranked_by_rarer_side(v: Seq<Collision>) -> bool {
    forall|i: int, j: int|
        0 <= i < j < v.len() ==> ((#[trigger] v[i]).ru_freq >= (#[trigger] v[j]).ru_freq
            || v[i].ru_freq >= v[j].en_freq) && (v[i].en_freq >= v[j].ru_freq || v[i].en_freq
            >= v[j].en_freq)
}

pub open spec fn collision_views(v: Seq<Collision>) -> Seq<(Seq<char>, Seq<char>, u32, u32)> {
    v.map_values(|c: Collision| c@)
}

/// Distinct words retype to distinct tokens.
pub proof fn lemma_transliteration_injective(a: Seq<char>, b: Seq<char>, dir: Direction)
    ensures
        transliteration(a, dir) is Some && transliteration(a, dir) == transliteration(b, dir)
            ==> a == b,
{
    lemma_transliteration_round_trip(a, dir);
    lemma_transliteration_round_trip(b, dir);
}

/// The collision relation is symmetric: retyping the English side of a collision
/// in JCUKEN gives back its Russian side, so walking one dictionary finds them all.
pub proof fn lemma_collision_symmetric(ru: &FreqTable, en: &FreqTable, w: Seq<char>, max_len: nat)
    requires
        collision_of(ru, en, w, max_len) is Some,
    ensures
        transliteration(collision_of(ru, en, w, max_len).unwrap().1, Direction::EnToRu) == Some(w),
{
    lemma_transliteration_round_trip(w, Direction::RuToEn);
}

proof fn lemma_collisions_shape(ru: &FreqTable, en: &FreqTable, ws: Seq<Seq<char>>, max_len: nat)
    requires
        ws.no_duplicates(),
    ensures
        collisions_in(ru, en, ws, max_len).no_duplicates(),
        forall|i: int|
            0 <= i < collisions_in(ru, en, ws, max_len).len() ==> ws.contains(
                (#[trigger] collisions_in(ru, en, ws, max_len)[i]).0,
            ),
        forall|i: int, j: int|
            0 <= i < j < collisions_in(ru, en, ws, max_len).len() ==> (
            #[trigger] collisions_in(ru, en, ws, max_len)[i]).1 != (
            #[trigger] collisions_in(ru, en, ws, max_len)[j]).1,
    decreases ws.len(),
{
    if ws.len() > 0 {
        let p = ws.drop_last();
        lemma_collisions_shape(ru, en, p, max_len);
        let rest = collisions_in(ru, en, p, max_len);
        assert forall|i: int| 0 <= i < rest.len() implies ws.contains(#[trigger] rest[i].0) by {
            let j = choose|j: int| 0 <= j < p.len() && p[j] == rest[i].0;
            assert(ws[j] == rest[i].0);
        }
        if let Some(c) = collision_of(ru, en, ws.last(), max_len) {
            let all = rest.push(c);
            assert(all.drop_last() == rest);
            assert forall|i: int| 0 <= i < rest.len() implies rest[i].0 != c.0 && rest[i].1
                != c.1 by {
                let j = choose|j: int| 0 <= j < p.len() && p[j] == rest[i].0;
                assert(ws[j] == p[j]);
                assert(ws[j] != ws[ws.len() - 1]);
                lemma_collision_members(ru, en, p, max_len, i);
                let w = rest[i].0;
                assert(collision_of(ru, en, w, max_len) == Some(rest[i]));
                assert(transliteration(w, Direction::RuToEn) == Some(rest[i].1));
                assert(transliteration(c.0, Direction::RuToEn) == Some(c.1));
                lemma_transliteration_injective(w, c.0, Direction::RuToEn);
            }
            assert forall|i: int| 0 <= i < all.len() implies ws.contains(#[trigger] all[i].0) by {
                if i < rest.len() {
                    assert(all[i] == rest[i]);
                } else {
                    assert(ws[ws.len() - 1] == c.0);
                }
            }
            assert forall|i: int, j: int| 0 <= i < j < all.len() implies (#[trigger] all[i]).1 != (
            #[trigger] all[j]).1 by {
                if j < rest.len() {
                    assert(all[i] == rest[i] && all[j] == rest[j]);
                } else {
                    assert(all[i] == rest[i]);
                }
            }
            assert forall|i: int, j: int| 0 <= i < all.len() && 0 <= j < all.len() && i != j implies all[i]
                != all[j] by {
                if i < rest.len() && j < rest.len() {
                    assert(all[i] == rest[i] && all[j] == rest[j]);
                } else if i < rest.len() {
                    assert(all[i] == rest[i]);
                } else {
                    assert(all[j] == rest[j]);
                }
            }
        }
    }
}

proof fn lemma_collision_members(
    ru: &FreqTable,
    en: &FreqTable,
    ws: Seq<Seq<char>>,
    max_len: nat,
    i: int,
)
    requires
        0 <= i < collisions_in(ru, en, ws, max_len).len(),
    ensures
        collision_of(ru, en, collisions_in(ru, en, ws, max_len)[i].0, max_len) == Some(
            collisions_in(ru, en, ws, max_len)[i],
        ),
    decreases ws.len(),
{
    let p = ws.drop_last();
    let rest = collisions_in(ru, en, p, max_len);
    if i < rest.len() {
        lemma_collision_members(ru, en, p, max_len, i);
    }
}

/// Finds the collisions between a Russian and an English dictionary: words of at
/// most `max_len` characters, known (at least `MIN_FREQ` times) on both sides.
/// They come sorted by the frequency of the rarer side, highest first: a collision
/// matters more the closer the two frequencies are, since the decision then has the
/// least to go on.
pub fn find_collisions(ru: &FreqTable, en: &FreqTable, max_len: usize) -> (r: Vec<Collision>)
    requires
        ru.wf(),
        en.wf(),
    ensures
        collision_views(r@).no_duplicates(),
        collision_views(r@).to_set() == collisions_in(ru, en, ru.entries(), max_len as nat).to_set(),
        collision_views(r@).len() == collisions_in(ru, en, ru.entries(), max_len as nat).len(),
        forall|i: int, j: int|
            0 <= i < j < r@.len() ==> weaker(#[trigger] r@[i]@) >= weaker(#[trigger] r@[j]@),
        ranked_by_rarer_side(r@),
        forall|i: int, j: int|
            0 <= i < j < r@.len() ==> (#[trigger] r@[i]).en@ != (#[trigger] r@[j]).en@,
{
    let ghost ws = ru.entries();
    let mut found: Vec<Collision> = Vec::new();
    let mut i: usize = 0;
    while i < ru.len()
        invariant
            0 <= i <= ws.len(),
            ws == ru.entries(),
            ru.wf(),
            en.wf(),
            collision_views(found@) == collisions_in(ru, en, ws.take(i as int), max_len as nat),
        decreases ws.len() - i,
    {
        proof {
            assert(ws.take(i + 1).drop_last() =~= ws.take(i as int));
        }
        let (word, ru_freq) = ru.entry(i);
        if ru_freq >= MIN_FREQ && has_at_most_chars(word, max_len) {
            match transliterate(word, Direction::RuToEn) {
                Some(latin) => {
                    match en.get(latin.as_str()) {
                        Some(en_freq) => {
                            if en_freq >= MIN_FREQ {
                                let ghost before = found@;
                                found.push(
                                    Collision { ru: word.to_owned(), en: latin, ru_freq, en_freq },
                                );
                                proof {
                                    assert(collision_views(found@) =~= collision_views(before).push(
                                        found@.last()@,
                                    ));
                                }
                            }
                        },
                        None => {},
                    }
                },
                None => {},
            }
        }
        i = i + 1;
    }
    proof {
        assert(ws.take(i as int) =~= ws);
        lemma_collisions_shape(ru, en, ws, max_len as nat);
        let fv = collision_views(found@);
        assert forall|i: int, j: int| 0 <= i < j < found@.len() implies (#[trigger] found@[i]).en@
            != (#[trigger] found@[j]).en@ by {
            assert(fv[i] == found@[i]@ && fv[j] == found@[j]@);
        }
    }
    let r = sort_by_weaker(found);
    proof {
        assert forall|i: int, j: int| 0 <= i < j < r@.len() implies ((#[trigger] r@[i]).ru_freq
            >= (#[trigger] r@[j]).ru_freq || r@[i].ru_freq >= r@[j].en_freq) && (r@[i].en_freq
            >= r@[j].ru_freq || r@[i].en_freq >= r@[j].en_freq) by {
            assert(weaker(r@[i]@) >= weaker(r@[j]@));
            lemma_weaker_is_the_smaller_frequency(r@[i]@);
            lemma_weaker_is_the_smaller_frequency(r@[j]@);
        }
    }
    r
}

/// Sorts collisions by the frequency of their rarer side, highest first.
fn sort_by_weaker(items: Vec<Collision>) -> (r: Vec<Collision>)
    requires
        collision_views(items@).no_duplicates(),
        forall|i: int, j: int|
            0 <= i < j < items@.len() ==> (#[trigger] items@[i]).en@ != (#[trigger] items@[j]).en@,
    ensures
        collision_views(r@).no_duplicates(),
        collision_views(r@).to_set() == collision_views(items@).to_set(),
        r@.len() == items@.len(),
        forall|i: int, j: int|
            0 <= i < j < r@.len() ==> weaker(#[trigger] r@[i]@) >= weaker(#[trigger] r@[j]@),
        forall|i: int, j: int|
            0 <= i < j < r@.len() ==> (#[trigger] r@[i]).en@ != (#[trigger] r@[j]).en@,
{
    let mut out: Vec<Collision> = Vec::new();
    let mut items = items;
    let ghost all = collision_views(items@);
    let ghost n = items@.len();
    proof {
        assert(all.take(n as int) =~= all);
        assert(all.skip(n as int) =~= Seq::<(Seq<char>, Seq<char>, u32, u32)>::empty());
        assert(collision_views(out@) =~= Seq::<(Seq<char>, Seq<char>, u32, u32)>::empty());
        assert forall|i: int, j: int| 0 <= i < j < n implies (#[trigger] all[i]).1 != (
        #[trigger] all[j]).1 by {
            assert(all[i] == items@[i]@ && all[j] == items@[j]@);
        }
    }
    // `items` is consumed from the back; `out` stays sorted.
    while items.len() > 0
        invariant
            all.no_duplicates(),
            n == all.len(),
            items@.len() + out@.len() == n,
            collision_views(items@) == all.take(items@.len() as int),
            collision_views(out@).no_duplicates(),
            collision_views(out@).to_set() == all.skip(items@.len() as int).to_set(),
            forall|i: int, j: int|
                0 <= i < j < out@.len() ==> weaker(#[trigger] out@[i]@) >= weaker(
                    #[trigger] out@[j]@,
                ),
            forall|i: int, j: int| 0 <= i < j < n ==> (#[trigger] all[i]).1 != (#[trigger] all[j]).1,
        decreases items@.len(),
    {
        let ghost k = items@.len() - 1;
        let ghost old_items = items@;
        let x = items.pop().unwrap();
        proof {
            assert(collision_views(old_items)[k] == old_items[k]@);
            assert(all.take(k + 1)[k] == all[k]);
            assert(x@ == all[k]);
            assert(collision_views(items@) =~= all.take(k));
        }
        let key = if x.ru_freq <= x.en_freq {
            x.ru_freq
        } else {
            x.en_freq
        };
        let mut p: usize = 0;
        while p < out.len()
            invariant
                0 <= p <= out@.len(),
                key == weaker(x@),
                forall|j: int| 0 <= j < p ==> weaker(#[trigger] out@[j]@) >= key,
            ensures
                0 <= p <= out@.len(),
                forall|j: int| 0 <= j < p ==> weaker(#[trigger] out@[j]@) >= key,
                p < out@.len() ==> weaker(out@[p as int]@) < key,
            decreases out@.len() - p,
        {
            let c = &out[p];
            let ck = if c.ru_freq <= c.en_freq {
                c.ru_freq
            } else {
                c.en_freq
            };
            if ck < key {
                break;
            }
            p = p + 1;
        }
        let ghost before = out@;
        out.insert(p, x);
        proof {
            let bv = collision_views(before);
            let ov = collision_views(out@);
            assert(ov =~= bv.insert(p as int, x@));
            bv.insert_ensures(p as int, x@);
            assert(ov.len() == bv.len() + 1);
            assert(ov[p as int] == x@);
            assert forall|m: int| 0 <= m < p implies ov[m] == #[trigger] bv[m] by {}
            assert forall|m: int| p <= m < bv.len() implies ov[m + 1] == #[trigger] bv[m] by {}
            assert(all.skip(k) =~= all.skip(k + 1).insert(0, x@));
            assert(!bv.contains(x@)) by {
                if bv.contains(x@) {
                    let j = choose|j: int| 0 <= j < bv.len() && bv[j] == x@;
                    assert(bv.to_set().contains(x@));
                    assert(all.skip(k + 1).to_set().contains(x@));
                    let m = choose|m: int| 0 <= m < all.skip(k + 1).len() && #[trigger] all.skip(k + 1)[m] == x@;
                    assert(all[k + 1 + m] == all[k]);
                }
            }
            let tail = all.skip(k + 1);
            let whole = all.skip(k);
            assert forall|v: (Seq<char>, Seq<char>, u32, u32)| whole.contains(v) <==> (v == x@
                || tail.contains(v)) by {
                if whole.contains(v) {
                    let j = choose|j: int| 0 <= j < whole.len() && #[trigger] whole[j] == v;
                    if j > 0 {
                        assert(tail[j - 1] == v);
                    }
                }
                if tail.contains(v) {
                    let j = choose|j: int| 0 <= j < tail.len() && #[trigger] tail[j] == v;
                    assert(whole[j + 1] == v);
                }
                if v == x@ {
                    assert(whole[0] == v);
                }
            }
            assert forall|v: (Seq<char>, Seq<char>, u32, u32)| ov.contains(v) <==> (v == x@
                || bv.contains(v)) by {
                if ov.contains(v) {
                    let j = choose|j: int| 0 <= j < ov.len() && #[trigger] ov[j] == v;
                    if j < p {
                        assert(bv[j] == v);
                    } else if j > p {
                        assert(bv[j - 1] == v);
                    }
                }
                if bv.contains(v) {
                    let m = choose|m: int| 0 <= m < bv.len() && #[trigger] bv[m] == v;
                    if m < p {
                        assert(ov[m] == v);
                    } else {
                        assert(ov[m + 1] == v);
                    }
                }
                if v == x@ {
                    assert(ov[p as int] == v);
                }
            }
            assert forall|v: (Seq<char>, Seq<char>, u32, u32)| bv.contains(v) <==> tail.contains(v) by {
                assert(bv.contains(v) <==> bv.to_set().contains(v));
                assert(tail.contains(v) <==> tail.to_set().contains(v));
            }
            assert(ov.to_set() =~= whole.to_set());
            assert forall|a: int, b: int| 0 <= a < ov.len() && 0 <= b < ov.len() && a != b implies ov[a]
                != ov[b] by {
                let ia = if a < p {
                    a
                } else {
                    a - 1
                };
                let ib = if b < p {
                    b
                } else {
                    b - 1
                };
                if a != p && b != p {
                    assert(ov[a] == bv[ia] && ov[b] == bv[ib]);
                } else if a == p {
                    assert(ov[b] == bv[ib]);
                    assert(bv.contains(bv[ib]));
                } else {
                    assert(ov[a] == bv[ia]);
                    assert(bv.contains(bv[ia]));
                }
            }
            assert forall|a: int, b: int| 0 <= a < b < out@.len() implies weaker(#[trigger] out@[a]@)
                >= weaker(#[trigger] out@[b]@) by {
                assert(out@[a]@ == ov[a] && out@[b]@ == ov[b]);
                if b < p {
                    assert(ov[a] == bv[a] && ov[b] == bv[b]);
                    assert(before[a]@ == bv[a] && before[b]@ == bv[b]);
                } else if b == p {
                    assert(ov[a] == bv[a]);
                    assert(before[a]@ == bv[a]);
                } else if a == p {
                    assert(ov[b] == bv[b - 1]);
                    assert(before[b - 1]@ == bv[b - 1]);
                } else if a < p {
                    assert(ov[a] == bv[a] && ov[b] == bv[b - 1]);
                    assert(before[a]@ == bv[a] && before[b - 1]@ == bv[b - 1]);
                    assert(weaker(before[b - 1]@) < key);
                } else {
                    assert(ov[a] == bv[a - 1] && ov[b] == bv[b - 1]);
                    assert(before[a - 1]@ == bv[a - 1] && before[b - 1]@ == bv[b - 1]);
                }
            }
        }
    }
    proof {
        assert(all.skip(0) =~= all);
        let ov = collision_views(out@);
        ov.unique_seq_to_set();
        all.unique_seq_to_set();
        assert forall|i: int, j: int| 0 <= i < j < out@.len() implies (#[trigger] out@[i]).en@ != (
        #[trigger] out@[j]).en@ by {
            assert(ov[i] == out@[i]@ && ov[j] == out@[j]@);
            assert(ov.to_set().contains(ov[i]) && ov.to_set().contains(ov[j]));
            let a = choose|a: int| 0 <= a < all.len() && all[a] == ov[i];
            let b = choose|b: int| 0 <= b < all.len() && all[b] == ov[j];
            assert(a != b);
            if a > b {
                assert(all[b].1 != all[a].1);
            }
        }
    }
    out
}

} // verus!
