//! Character n-gram language model: the counting half.
//!
//! Training pads every token with boundary markers and counts, at every position,
//! the n-grams of orders 1..=ORDER ending there and the contexts (n-grams without
//! their last character) that precede them. The counts accumulate over calls.

use vstd::prelude::*;
use vstd::hash_map::StringHashMap;

use crate::counting::{
    add_capped, all_positive, bump, capped, count_in, keys_fit, lemma_occurrences_absent,
    lemma_occurrences_append, lemma_occurrences_push, occurrences, wide_count_in,
};
use crate::text::{collect_range, normalize, normalized, string_views, tokenize, tokens};

verus! {

broadcast use vstd::hash_map::group_hash_map_axioms;

/// Highest order of the model.
pub const ORDER: usize = 4;

/// Token boundary marker. It never occurs in text, so it cannot clash with data.
pub const BOUNDARY: char = '\u{2}';

/// A token with ORDER - 1 boundary markers in front and one behind.
pub open spec fn padded(w: Seq<char>) -> Seq<char> {
    Seq::new((ORDER - 1) as nat, |_i: int| BOUNDARY) + w + seq![BOUNDARY]
}

/// The n-gram of order `k` that ends at position `i` of `p`, or, for a context,
/// the same characters without the one at `i`.
pub open spec fn window(p: Seq<char>, i: int, k: int, context: bool) -> Seq<char> {
    p.subrange(i + 1 - k, if context { i } else { i + 1 })
}

/// The windows of orders 1..=k at position `i`, lowest order first.
pub open spec fn orders(p: Seq<char>, i: int, k: int, context: bool) -> Seq<Seq<char>>
    decreases k,
{
    if k <= 0 {
        Seq::empty()
    } else {
        orders(p, i, k - 1, context).push(window(p, i, k, context))
    }
}

/// The windows of all orders at positions ORDER - 1 .. i of `p`.
pub open spec fn positions(p: Seq<char>, i: int, context: bool) -> Seq<Seq<char>>
    decreases i,
{
    if i <= ORDER - 1 {
        Seq::empty()
    } else {
        positions(p, i - 1, context) + orders(p, i - 1, ORDER as int, context)
    }
}

/// Everything one token contributes to the n-gram counts (`context == false`)
/// or to the context counts (`context == true`).
pub open spec fn word_keys(w: Seq<char>, context: bool) -> Seq<Seq<char>> {
    positions(padded(w), padded(w).len() as int, context)
}

pub open spec fn keys_of_words(ws: Seq<Seq<char>>, context: bool) -> Seq<Seq<char>>
    decreases ws.len(),
{
    if ws.len() == 0 {
        Seq::empty()
    } else {
        keys_of_words(ws.drop_last(), context) + word_keys(ws.last(), context)
    }
}

/// Everything training on `text` adds to the counts.
pub open spec fn text_keys(text: Seq<char>, context: bool) -> Seq<Seq<char>> {
    keys_of_words(tokens(text), context)
}

/// The letters that occur in the given tokens.
pub open spec fn letters_of(ws: Seq<Seq<char>>) -> Set<char> {
    Set::new(|c: char| exists|i: int| 0 <= i < ws.len() && #[trigger] ws[i].contains(c))
}

proof fn lemma_contains_append(a: Seq<Seq<char>>, b: Seq<Seq<char>>, x: Seq<char>)
    ensures
        (a + b).contains(x) ==> a.contains(x) || b.contains(x),
{
    if (a + b).contains(x) {
        let k = choose|k: int| 0 <= k < (a + b).len() && (a + b)[k] == x;
        if k < a.len() {
            assert(a[k] == x);
        } else {
            assert(b[k - a.len()] == x);
        }
    }
}

proof fn lemma_orders_grow(p: Seq<char>, i: int, k1: int, k2: int, context: bool, g: Seq<char>)
    requires
        k1 <= k2,
    ensures
        occurrences(orders(p, i, k1, context), g) <= occurrences(orders(p, i, k2, context), g),
    decreases k2 - k1,
{
    if k1 < k2 {
        lemma_orders_grow(p, i, k1, k2 - 1, context, g);
        if k2 > 0 {
            lemma_occurrences_push(orders(p, i, k2 - 1, context), window(p, i, k2, context), g);
        }
    }
}

proof fn lemma_positions_grow(p: Seq<char>, i1: int, i2: int, context: bool, g: Seq<char>)
    requires
        i1 <= i2,
    ensures
        occurrences(positions(p, i1, context), g) <= occurrences(positions(p, i2, context), g),
    decreases i2 - i1,
{
    if i1 < i2 {
        lemma_positions_grow(p, i1, i2 - 1, context, g);
        if i2 > ORDER - 1 {
            lemma_occurrences_append(
                positions(p, i2 - 1, context),
                orders(p, i2 - 1, ORDER as int, context),
                g,
            );
        }
    }
}

proof fn lemma_words_grow(ws: Seq<Seq<char>>, j: int, context: bool, g: Seq<char>)
    requires
        0 <= j <= ws.len(),
    ensures
        occurrences(keys_of_words(ws.take(j), context), g) <= occurrences(
            keys_of_words(ws, context),
            g,
        ),
    decreases ws.len() - j,
{
    if j < ws.len() {
        lemma_words_grow(ws, j + 1, context, g);
        assert(ws.take(j + 1).drop_last() =~= ws.take(j));
        lemma_occurrences_append(
            keys_of_words(ws.take(j), context),
            word_keys(ws.take(j + 1).last(), context),
            g,
        );
    } else {
        assert(ws.take(j) =~= ws);
    }
}

/// The counting state of a character n-gram model.
pub struct CharNgram {
    /// Counts of n-grams of all orders 1..=ORDER.
    grams: StringHashMap<u32>,
    /// Counts of contexts (prefixes of length 0..ORDER-1).
    contexts: StringHashMap<u32>,
    /// Every letter seen in training, once each: their number is the size of the
    /// alphabet, the denominator of the uniform floor.
    letters: Vec<char>,
}

impl CharNgram {
    /// How often `g` has been counted as an n-gram.
    pub closed spec fn gram_count(&self, g: Seq<char>) -> nat {
        count_in(self.grams@, g)
    }

    /// How often `g` has been counted as a context.
    pub closed spec fn context_count(&self, g: Seq<char>) -> nat {
        count_in(self.contexts@, g)
    }

    /// The letters seen in training so far.
    pub closed spec fn letters_seen(&self) -> Set<char> {
        self.letters@.to_set()
    }

    /// The size of the alphabet: how many distinct letters training has seen.
    pub closed spec fn alphabet_size(&self) -> nat {
        self.letters@.len()
    }

    /// The maps hold only the keys that have been counted, every letter is kept
    /// once, and no n-gram has been counted more often than its context.
    pub closed spec fn wf(&self) -> bool {
        &&& all_positive(self.grams@)
        &&& all_positive(self.contexts@)
        &&& self.letters@.no_duplicates()
        &&& forall|g: Seq<char>|
            g.len() > 0 ==> #[trigger] self.gram_count(g) <= self.context_count(g.drop_last())
    }

    /// Counting the windows of the tokens `ws` keeps every count within `u32`.
    pub open spec fn can_train_words(&self, ws: Seq<Seq<char>>) -> bool {
        &&& forall|g: Seq<char>|
            #[trigger] self.gram_count(g) + occurrences(keys_of_words(ws, false), g) <= u32::MAX
        &&& forall|g: Seq<char>|
            #[trigger] self.context_count(g) + occurrences(keys_of_words(ws, true), g) <= u32::MAX
    }

    /// Training on `text` keeps every count within `u32`.
    pub open spec fn can_train(&self, text: Seq<char>) -> bool {
        self.can_train_words(tokens(text))
    }

    /// `after` is `before` with the tokens `ws` counted: every n-gram and context
    /// of the tokens has been counted once more, and the letters of the tokens have
    /// joined the letters seen, whose number is the alphabet size.
    pub open spec fn trained_words(before: CharNgram, after: CharNgram, ws: Seq<Seq<char>>) -> bool {
        &&& forall|g: Seq<char>|
            #[trigger] after.gram_count(g) == before.gram_count(g) + occurrences(
                keys_of_words(ws, false),
                g,
            )
        &&& forall|g: Seq<char>|
            #[trigger] after.context_count(g) == before.context_count(g) + occurrences(
                keys_of_words(ws, true),
                g,
            )
        &&& after.letters_seen() == before.letters_seen().union(letters_of(ws))
        &&& after.alphabet_size() == after.letters_seen().len()
    }

    /// `after` is `before` trained on `text`.
    pub open spec fn trained(before: CharNgram, after: CharNgram, text: Seq<char>) -> bool {
        Self::trained_words(before, after, tokens(text))
    }

    pub fn new() -> (m: Self)
        ensures
            m.wf(),
            forall|g: Seq<char>| m.gram_count(g) == 0 && m.context_count(g) == 0,
            m.letters_seen() == Set::<char>::empty(),
            m.alphabet_size() == 0,
    {
        let m = CharNgram {
            grams: StringHashMap::new(),
            contexts: StringHashMap::new(),
            letters: Vec::new(),
        };
        proof {
            assert(m.letters@.to_set() =~= Set::<char>::empty());
        }
        m
    }

    /// Training on a text. It may be called many times; the counts accumulate.
    pub fn train(&mut self, text: &str)
        requires
            old(self).wf(),
            old(self).can_train(text@),
        ensures
            final(self).wf(),
            Self::trained(*old(self), *final(self), text@),
    {
        let words = tokenize(text);
        self.train_words(words.as_slice());
    }

    /// Training on a text when every count stays within `u32`: the text is
    /// tokenized, the counts it would add are checked against the counts so far,
    /// and the model is trained only when none would overflow. Returns whether it
    /// was trained; when not, the model is left as it was.
    pub fn try_train(&mut self, text: &str) -> (r: bool)
        requires
            old(self).wf(),
        ensures
            r == old(self).can_train(text@),
            final(self).wf(),
            r ==> Self::trained(*old(self), *final(self), text@),
            !r ==> *final(self) == *old(self),
    {
        let words = tokenize(text);
        let ghost ws = string_views(words@);
        let ghost kf = keys_of_words(ws, false);
        let ghost kt = keys_of_words(ws, true);
        // How often training would count each n-gram and each context.
        let mut gw: StringHashMap<u64> = StringHashMap::new();
        let mut cw: StringHashMap<u64> = StringHashMap::new();
        let mut w: usize = 0;
        proof {
            assert(ws.take(0) =~= Seq::<Seq<char>>::empty());
        }
        while w < words.len()
            invariant
                0 <= w <= words@.len(),
                ws == string_views(words@),
                forall|x: Seq<char>|
                    #[trigger] wide_count_in(gw@, x) == capped(
                        occurrences(keys_of_words(ws.take(w as int), false), x),
                    ),
                forall|x: Seq<char>|
                    #[trigger] wide_count_in(cw@, x) == capped(
                        occurrences(keys_of_words(ws.take(w as int), true), x),
                    ),
            decreases words@.len() - w,
        {
            let (g, c) = word_window_keys(words[w].as_str());
            let ghost gw0 = gw@;
            let ghost cw0 = cw@;
            add_capped(&mut gw, g.as_slice());
            add_capped(&mut cw, c.as_slice());
            proof {
                assert(words@[w as int]@ == ws[w as int]);
                assert(ws.take(w + 1).drop_last() =~= ws.take(w as int));
                assert(ws.take(w + 1).last() == ws[w as int]);
                assert forall|x: Seq<char>|
                    #[trigger] wide_count_in(gw@, x) == capped(
                        occurrences(keys_of_words(ws.take(w + 1), false), x),
                    ) by {
                    assert(wide_count_in(gw0, x) == capped(
                        occurrences(keys_of_words(ws.take(w as int), false), x),
                    ));
                    lemma_occurrences_append(
                        keys_of_words(ws.take(w as int), false),
                        word_keys(ws[w as int], false),
                        x,
                    );
                }
                assert forall|x: Seq<char>|
                    #[trigger] wide_count_in(cw@, x) == capped(
                        occurrences(keys_of_words(ws.take(w + 1), true), x),
                    ) by {
                    assert(wide_count_in(cw0, x) == capped(
                        occurrences(keys_of_words(ws.take(w as int), true), x),
                    ));
                    lemma_occurrences_append(
                        keys_of_words(ws.take(w as int), true),
                        word_keys(ws[w as int], true),
                        x,
                    );
                }
            }
            w = w + 1;
        }
        proof {
            assert(ws.take(w as int) =~= ws);
        }
        // Whether each of them still fits beside the counts so far.
        let mut v: usize = 0;
        proof {
            assert(ws.take(0) =~= Seq::<Seq<char>>::empty());
        }
        while v < words.len()
            invariant
                0 <= v <= words@.len(),
                ws == string_views(words@),
                kf == keys_of_words(ws, false),
                kt == keys_of_words(ws, true),
                ws == tokens(text@),
                *self == *old(self),
                self.wf(),
                forall|x: Seq<char>| #[trigger] wide_count_in(gw@, x) == capped(occurrences(kf, x)),
                forall|x: Seq<char>| #[trigger] wide_count_in(cw@, x) == capped(occurrences(kt, x)),
                forall|x: Seq<char>|
                    keys_of_words(ws.take(v as int), false).contains(x) ==> #[trigger] self.gram_count(
                        x,
                    ) + occurrences(kf, x) <= u32::MAX,
                forall|x: Seq<char>|
                    keys_of_words(ws.take(v as int), true).contains(x) ==> #[trigger] self.context_count(
                        x,
                    ) + occurrences(kt, x) <= u32::MAX,
            decreases words@.len() - v,
        {
            let (g, c) = word_window_keys(words[v].as_str());
            let grams_fit = keys_fit(&self.grams, &gw, g.as_slice());
            let contexts_fit = keys_fit(&self.contexts, &cw, c.as_slice());
            if !grams_fit || !contexts_fit {
                proof {
                    if !grams_fit {
                        let j = choose|j: int|
                            0 <= j < g@.len() && !(count_in(self.grams@, #[trigger] g@[j]@)
                                + wide_count_in(gw@, g@[j]@) <= u32::MAX);
                        let x = g@[j]@;
                        assert(wide_count_in(gw@, x) == capped(occurrences(kf, x)));
                        assert(!(self.gram_count(x) + occurrences(kf, x) <= u32::MAX));
                    } else {
                        let j = choose|j: int|
                            0 <= j < c@.len() && !(count_in(self.contexts@, #[trigger] c@[j]@)
                                + wide_count_in(cw@, c@[j]@) <= u32::MAX);
                        let x = c@[j]@;
                        assert(wide_count_in(cw@, x) == capped(occurrences(kt, x)));
                        assert(!(self.context_count(x) + occurrences(kt, x) <= u32::MAX));
                    }
                }
                return false;
            }
            proof {
                assert(words@[v as int]@ == ws[v as int]);
                assert(ws.take(v + 1).drop_last() =~= ws.take(v as int));
                assert(ws.take(v + 1).last() == ws[v as int]);
                assert forall|x: Seq<char>|
                    keys_of_words(ws.take(v + 1), false).contains(x) implies #[trigger] self.gram_count(
                        x,
                    ) + occurrences(kf, x) <= u32::MAX by {
                    lemma_contains_append(
                        keys_of_words(ws.take(v as int), false),
                        word_keys(ws[v as int], false),
                        x,
                    );
                    if !keys_of_words(ws.take(v as int), false).contains(x) {
                        let j = choose|j: int|
                            0 <= j < word_keys(ws[v as int], false).len() && word_keys(
                                ws[v as int],
                                false,
                            )[j] == x;
                        assert(string_views(g@)[j] == x);
                        assert(count_in(self.grams@, g@[j]@) + wide_count_in(gw@, g@[j]@)
                            <= u32::MAX);
                        assert(wide_count_in(gw@, x) == capped(occurrences(kf, x)));
                    }
                }
                assert forall|x: Seq<char>|
                    keys_of_words(ws.take(v + 1), true).contains(x) implies #[trigger] self.context_count(
                        x,
                    ) + occurrences(kt, x) <= u32::MAX by {
                    lemma_contains_append(
                        keys_of_words(ws.take(v as int), true),
                        word_keys(ws[v as int], true),
                        x,
                    );
                    if !keys_of_words(ws.take(v as int), true).contains(x) {
                        let j = choose|j: int|
                            0 <= j < word_keys(ws[v as int], true).len() && word_keys(
                                ws[v as int],
                                true,
                            )[j] == x;
                        assert(string_views(c@)[j] == x);
                        assert(count_in(self.contexts@, c@[j]@) + wide_count_in(cw@, c@[j]@)
                            <= u32::MAX);
                        assert(wide_count_in(cw@, x) == capped(occurrences(kt, x)));
                    }
                }
            }
            v = v + 1;
        }
        proof {
            assert(ws.take(v as int) =~= ws);
            assert forall|x: Seq<char>|
                #[trigger] self.gram_count(x) + occurrences(kf, x) <= u32::MAX by {
                if !kf.contains(x) {
                    lemma_occurrences_absent(kf, x);
                }
            }
            assert forall|x: Seq<char>|
                #[trigger] self.context_count(x) + occurrences(kt, x) <= u32::MAX by {
                if !kt.contains(x) {
                    lemma_occurrences_absent(kt, x);
                }
            }
        }
        self.train_words(words.as_slice());
        true
    }

    /// Counts the windows of already tokenized text.
    pub fn train_words(&mut self, words: &[String])
        requires
            old(self).wf(),
            old(self).can_train_words(string_views(words@)),
        ensures
            final(self).wf(),
            Self::trained_words(*old(self), *final(self), string_views(words@)),
    {
        let ghost ws = string_views(words@);
        let mut w: usize = 0;
        proof {
            assert(ws.take(0) =~= Seq::<Seq<char>>::empty());
            assert(old(self).letters_seen().union(letters_of(ws.take(0))) =~= old(
                self,
            ).letters_seen());
        }
        while w < words.len()
            invariant
                0 <= w <= words@.len(),
                ws == string_views(words@),
                self.wf(),
                self.letters_seen() == old(self).letters_seen().union(
                    letters_of(ws.take(w as int)),
                ),
                old(self).can_train_words(ws),
                forall|g: Seq<char>|
                    #[trigger] self.gram_count(g) == old(self).gram_count(g) + occurrences(
                        keys_of_words(ws.take(w as int), false),
                        g,
                    ),
                forall|g: Seq<char>|
                    #[trigger] self.context_count(g) == old(self).context_count(g) + occurrences(
                        keys_of_words(ws.take(w as int), true),
                        g,
                    ),
            decreases words@.len() - w,
        {
            let ghost before = *self;
            proof {
                assert(ws.take(w + 1).drop_last() =~= ws.take(w as int));
                assert(ws.take(w + 1).last() == ws[w as int]);
                assert forall|g: Seq<char>|
                    #[trigger] self.gram_count(g) + occurrences(word_keys(ws[w as int], false), g)
                        <= u32::MAX by {
                    lemma_words_grow(ws, w + 1, false, g);
                    lemma_occurrences_append(
                        keys_of_words(ws.take(w as int), false),
                        word_keys(ws[w as int], false),
                        g,
                    );
                }
                assert forall|g: Seq<char>|
                    #[trigger] self.context_count(g) + occurrences(word_keys(ws[w as int], true), g)
                        <= u32::MAX by {
                    lemma_words_grow(ws, w + 1, true, g);
                    lemma_occurrences_append(
                        keys_of_words(ws.take(w as int), true),
                        word_keys(ws[w as int], true),
                        g,
                    );
                }
            }
            let word = words[w].as_str();
            self.train_word(word);
            let ghost counted = *self;
            add_letters(&mut self.letters, word);
            assert(self.grams == counted.grams && self.contexts == counted.contexts);
            proof {
                assert(word@ == ws[w as int]);
                assert forall|g: Seq<char>|
                    g.len() > 0 implies #[trigger] self.gram_count(g) <= self.context_count(
                        g.drop_last(),
                    ) by {
                    assert(counted.gram_count(g) <= counted.context_count(g.drop_last()));
                }
                assert forall|g: Seq<char>|
                    #[trigger] self.gram_count(g) == old(self).gram_count(g) + occurrences(
                        keys_of_words(ws.take(w + 1), false),
                        g,
                    ) by {
                    assert(self.gram_count(g) == counted.gram_count(g));
                    lemma_occurrences_append(
                        keys_of_words(ws.take(w as int), false),
                        word_keys(ws[w as int], false),
                        g,
                    );
                }
                assert forall|g: Seq<char>|
                    #[trigger] self.context_count(g) == old(self).context_count(g) + occurrences(
                        keys_of_words(ws.take(w + 1), true),
                        g,
                    ) by {
                    assert(self.context_count(g) == counted.context_count(g));
                    lemma_occurrences_append(
                        keys_of_words(ws.take(w as int), true),
                        word_keys(ws[w as int], true),
                        g,
                    );
                }
                assert(word@ == ws[w as int]);
                lemma_letters_step(ws, w as int);
                assert(self.letters_seen() =~= old(self).letters_seen().union(
                    letters_of(ws.take(w + 1)),
                ));
            }
            w = w + 1;
        }
        proof {
            assert(ws.take(w as int) =~= ws);
            self.letters@.unique_seq_to_set();
        }
    }

    /// Counts the windows of one token.
    fn train_word(&mut self, word: &str)
        requires
            old(self).wf(),
            forall|g: Seq<char>|
                #[trigger] old(self).gram_count(g) + occurrences(word_keys(word@, false), g)
                    <= u32::MAX,
            forall|g: Seq<char>|
                #[trigger] old(self).context_count(g) + occurrences(word_keys(word@, true), g)
                    <= u32::MAX,
        ensures
            final(self).wf(),
            final(self).letters == old(self).letters,
            forall|g: Seq<char>|
                #[trigger] final(self).gram_count(g) == old(self).gram_count(g) + occurrences(
                    word_keys(word@, false),
                    g,
                ),
            forall|g: Seq<char>|
                #[trigger] final(self).context_count(g) == old(self).context_count(g)
                    + occurrences(word_keys(word@, true), g),
    {
        let p = pad(word);
        let ghost n = p@.len() as int;
        let mut i: usize = ORDER - 1;
        proof {
            assert(positions(p@, (ORDER - 1) as int, false) =~= Seq::<Seq<char>>::empty());
            assert(positions(p@, (ORDER - 1) as int, true) =~= Seq::<Seq<char>>::empty());
        }
        while i < p.len()
            invariant
                ORDER - 1 <= i <= p@.len(),
                p@ == padded(word@),
                n == p@.len(),
                n == p.len(),
                self.wf(),
                self.letters == old(self).letters,
                forall|g: Seq<char>|
                    #[trigger] old(self).gram_count(g) + occurrences(positions(p@, n, false), g)
                        <= u32::MAX,
                forall|g: Seq<char>|
                    #[trigger] old(self).context_count(g) + occurrences(positions(p@, n, true), g)
                        <= u32::MAX,
                forall|g: Seq<char>|
                    #[trigger] self.gram_count(g) == old(self).gram_count(g) + occurrences(
                        positions(p@, i as int, false),
                        g,
                    ),
                forall|g: Seq<char>|
                    #[trigger] self.context_count(g) == old(self).context_count(g) + occurrences(
                        positions(p@, i as int, true),
                        g,
                    ),
            decreases p@.len() - i,
        {
            let mut k: usize = 1;
            while k <= ORDER
                invariant
                    ORDER - 1 <= i < p@.len(),
                    1 <= k <= ORDER + 1,
                    p@ == padded(word@),
                    n == p@.len(),
                    n == p.len(),
                    self.wf(),
                    self.letters == old(self).letters,
                    forall|g: Seq<char>|
                        #[trigger] old(self).gram_count(g) + occurrences(positions(p@, n, false), g)
                            <= u32::MAX,
                    forall|g: Seq<char>|
                        #[trigger] old(self).context_count(g) + occurrences(
                            positions(p@, n, true),
                            g,
                        ) <= u32::MAX,
                    forall|g: Seq<char>|
                        #[trigger] self.gram_count(g) == old(self).gram_count(g) + occurrences(
                            positions(p@, i as int, false),
                            g,
                        ) + occurrences(orders(p@, i as int, k - 1, false), g),
                    forall|g: Seq<char>|
                        #[trigger] self.context_count(g) == old(self).context_count(g)
                            + occurrences(positions(p@, i as int, true), g) + occurrences(
                            orders(p@, i as int, k - 1, true),
                            g,
                        ),
                decreases ORDER + 1 - k,
            {
                let start = i - (k - 1);
                let gram = collect_range(&p, start, i + 1);
                let ctx = collect_range(&p, start, i);
                proof {
                    let gv = window(p@, i as int, k as int, false);
                    let cv = window(p@, i as int, k as int, true);
                    assert(gram@ == gv);
                    assert(ctx@ == cv);
                    assert(orders(p@, i as int, k as int, false) == orders(
                        p@,
                        i as int,
                        k - 1,
                        false,
                    ).push(gv));
                    assert(orders(p@, i as int, k as int, true) == orders(
                        p@,
                        i as int,
                        k - 1,
                        true,
                    ).push(cv));
                    assert(positions(p@, i + 1, false) == positions(p@, i as int, false) + orders(
                        p@,
                        i as int,
                        ORDER as int,
                        false,
                    ));
                    assert(positions(p@, i + 1, true) == positions(p@, i as int, true) + orders(
                        p@,
                        i as int,
                        ORDER as int,
                        true,
                    ));
                    lemma_occurrences_push(orders(p@, i as int, k - 1, false), gv, gv);
                    lemma_orders_grow(p@, i as int, k as int, ORDER as int, false, gv);
                    lemma_occurrences_append(
                        positions(p@, i as int, false),
                        orders(p@, i as int, ORDER as int, false),
                        gv,
                    );
                    lemma_positions_grow(p@, i + 1, n, false, gv);
                    lemma_occurrences_push(orders(p@, i as int, k - 1, true), cv, cv);
                    lemma_orders_grow(p@, i as int, k as int, ORDER as int, true, cv);
                    lemma_occurrences_append(
                        positions(p@, i as int, true),
                        orders(p@, i as int, ORDER as int, true),
                        cv,
                    );
                    lemma_positions_grow(p@, i + 1, n, true, cv);
                    assert(self.gram_count(gv) == old(self).gram_count(gv) + occurrences(
                        positions(p@, i as int, false),
                        gv,
                    ) + occurrences(orders(p@, i as int, k - 1, false), gv));
                    assert(old(self).gram_count(gv) + occurrences(positions(p@, n, false), gv)
                        <= u32::MAX);
                    assert(self.context_count(cv) == old(self).context_count(cv) + occurrences(
                        positions(p@, i as int, true),
                        cv,
                    ) + occurrences(orders(p@, i as int, k - 1, true), cv));
                    assert(old(self).context_count(cv) + occurrences(positions(p@, n, true), cv)
                        <= u32::MAX);
                }
                let ghost mid = *self;
                let ghost gv = gram@;
                let ghost cv = ctx@;
                bump(&mut self.grams, gram);
                bump(&mut self.contexts, ctx);
                proof {
                    assert(gv.len() == k && gv.drop_last() =~= cv);
                    assert forall|g: Seq<char>|
                        g.len() > 0 implies #[trigger] self.gram_count(g) <= self.context_count(
                            g.drop_last(),
                        ) by {
                        assert(mid.gram_count(g) <= mid.context_count(g.drop_last()));
                    }
                    assert forall|g: Seq<char>|
                        #[trigger] self.gram_count(g) == old(self).gram_count(g) + occurrences(
                            positions(p@, i as int, false),
                            g,
                        ) + occurrences(orders(p@, i as int, k as int, false), g) by {
                        assert(mid.gram_count(g) == old(self).gram_count(g) + occurrences(
                            positions(p@, i as int, false),
                            g,
                        ) + occurrences(orders(p@, i as int, k - 1, false), g));
                        lemma_occurrences_push(
                            orders(p@, i as int, k - 1, false),
                            window(p@, i as int, k as int, false),
                            g,
                        );
                    }
                    assert forall|g: Seq<char>|
                        #[trigger] self.context_count(g) == old(self).context_count(g)
                            + occurrences(positions(p@, i as int, true), g) + occurrences(
                            orders(p@, i as int, k as int, true),
                            g,
                        ) by {
                        assert(mid.context_count(g) == old(self).context_count(g) + occurrences(
                            positions(p@, i as int, true),
                            g,
                        ) + occurrences(orders(p@, i as int, k - 1, true), g));
                        lemma_occurrences_push(
                            orders(p@, i as int, k - 1, true),
                            window(p@, i as int, k as int, true),
                            g,
                        );
                    }
                }
                k = k + 1;
            }
            proof {
                assert(positions(p@, i + 1, false) == positions(p@, i as int, false) + orders(
                    p@,
                    i as int,
                    ORDER as int,
                    false,
                ));
                assert(positions(p@, i + 1, true) == positions(p@, i as int, true) + orders(
                    p@,
                    i as int,
                    ORDER as int,
                    true,
                ));
                assert forall|g: Seq<char>|
                    #[trigger] self.gram_count(g) == old(self).gram_count(g) + occurrences(
                        positions(p@, i + 1, false),
                        g,
                    ) by {
                    lemma_occurrences_append(
                        positions(p@, i as int, false),
                        orders(p@, i as int, ORDER as int, false),
                        g,
                    );
                }
                assert forall|g: Seq<char>|
                    #[trigger] self.context_count(g) == old(self).context_count(g) + occurrences(
                        positions(p@, i + 1, true),
                        g,
                    ) by {
                    lemma_occurrences_append(
                        positions(p@, i as int, true),
                        orders(p@, i as int, ORDER as int, true),
                        g,
                    );
                }
            }
            i = i + 1;
        }
    }

    /// The alphabet size, the denominator of the uniform floor of scoring.
    pub fn alphabet(&self) -> (n: usize)
        ensures
            n == self.alphabet_size(),
    {
        self.letters.len()
    }

    /// What scoring a token reads from the counts: the token is normalized and padded,
    /// and for every position and every order 1..=ORDER, lowest first, the count of
    /// the n-gram ending there is paired with the count of its context.
    /// `None` when the token holds no letter.
    pub fn window_counts(&self, token: &str) -> (r: Option<Vec<(u32, u32)>>)
        ensures
            r is None <==> normalized(token@).len() == 0,
            r matches Some(v) ==> counts_match(
                self,
                v@,
                word_keys(normalized(token@), false),
                word_keys(normalized(token@), true),
            ),
            r matches Some(v) ==> (self.wf() ==> counts_ordered(v@)),
    {
        let word = normalize(token);
        if word.as_str().is_empty() {
            return None;
        }
        Some(self.word_window_counts(word.as_str()))
    }

    /// For every position of the padded word and every order 1..=ORDER, lowest
    /// first, the count of the n-gram ending there paired with the count of its
    /// context.
    pub fn word_window_counts(&self, word: &str) -> (v: Vec<(u32, u32)>)
        ensures
            counts_match(self, v@, word_keys(word@, false), word_keys(word@, true)),
            self.wf() ==> counts_ordered(v@),
    {
        let p = pad(word);
        let ghost n = p@.len() as int;
        let mut v: Vec<(u32, u32)> = Vec::new();
        let mut i: usize = ORDER - 1;
        proof {
            assert(positions(p@, (ORDER - 1) as int, false) =~= Seq::<Seq<char>>::empty());
            assert(positions(p@, (ORDER - 1) as int, true) =~= Seq::<Seq<char>>::empty());
        }
        while i < p.len()
            invariant
                ORDER - 1 <= i <= p@.len(),
                n == p@.len(),
                n == p.len(),
                counts_match(self, v@, positions(p@, i as int, false), positions(p@, i as int, true)),
                self.wf() ==> counts_ordered(v@),
            decreases p@.len() - i,
        {
            let mut k: usize = 1;
            proof {
                assert(orders(p@, i as int, 0, false) =~= Seq::<Seq<char>>::empty());
                assert(orders(p@, i as int, 0, true) =~= Seq::<Seq<char>>::empty());
                assert(positions(p@, i as int, false) + orders(p@, i as int, 0, false) =~= positions(p@, i as int, false));
                assert(positions(p@, i as int, true) + orders(p@, i as int, 0, true) =~= positions(p@, i as int, true));
            }
            while k <= ORDER
                invariant
                    ORDER - 1 <= i < p@.len(),
                    1 <= k <= ORDER + 1,
                    n == p@.len(),
                    n == p.len(),
                    counts_match(
                        self,
                        v@,
                        positions(p@, i as int, false) + orders(p@, i as int, k - 1, false),
                        positions(p@, i as int, true) + orders(p@, i as int, k - 1, true),
                    ),
                    self.wf() ==> counts_ordered(v@),
                decreases ORDER + 1 - k,
            {
                let start = i - (k - 1);
                let gram = collect_range(&p, start, i + 1);
                let ctx = collect_range(&p, start, i);
                proof {
                    assert(gram@.len() > 0 && gram@.drop_last() =~= ctx@);
                    if self.wf() {
                        assert(self.gram_count(gram@) <= self.context_count(gram@.drop_last()));
                    }
                }
                let g: u32 = match self.grams.get(gram.as_str()) {
                    Some(c) => *c,
                    None => 0,
                };
                let c: u32 = match self.contexts.get(ctx.as_str()) {
                    Some(c) => *c,
                    None => 0,
                };
                let ghost before = v@;
                v.push((g, c));
                proof {
                    let gk = positions(p@, i as int, false) + orders(p@, i as int, k - 1, false);
                    let ck = positions(p@, i as int, true) + orders(p@, i as int, k - 1, true);
                    assert(orders(p@, i as int, k as int, false) == orders(p@, i as int, k - 1, false).push(gram@));
                    assert(orders(p@, i as int, k as int, true) == orders(p@, i as int, k - 1, true).push(ctx@));
                    assert(positions(p@, i as int, false) + orders(p@, i as int, k as int, false) =~= gk.push(gram@));
                    assert(positions(p@, i as int, true) + orders(p@, i as int, k as int, true) =~= ck.push(ctx@));
                    assert(v@ =~= before.push((g, c)));
                }
                k = k + 1;
            }
            proof {
                assert(positions(p@, i + 1, false) == positions(p@, i as int, false) + orders(p@, i as int, ORDER as int, false));
                assert(positions(p@, i + 1, true) == positions(p@, i as int, true) + orders(p@, i as int, ORDER as int, true));
            }
            i = i + 1;
        }
        v
    }

    /// Whether anything has been counted yet.
    pub fn is_trained(&self) -> (r: bool)
        requires
            self.wf(),
        ensures
            r == exists|g: Seq<char>| self.gram_count(g) > 0,
    {
        let r = !self.grams.is_empty();
        proof {
            if r {
                let g = self.grams@.dom().choose();
                assert(self.grams@.dom().contains(g));
                assert(self.gram_count(g) > 0);
            } else {
                assert forall|g: Seq<char>| self.gram_count(g) == 0 by {
                    assert(!self.grams@.dom().contains(g));
                }
            }
        }
        r
    }
}

impl Default for CharNgram {
    fn default() -> (m: Self)
        ensures
            m.wf(),
            forall|g: Seq<char>| m.gram_count(g) == 0 && m.context_count(g) == 0,
            m.letters_seen() == Set::<char>::empty(),
            m.alphabet_size() == 0,
    {
        CharNgram::new()
    }
}

/// `v` pairs, entry by entry, the n-gram count of `grams[j]` with the context
/// count of `contexts[j]`.
pub open spec fn counts_match(
    m: &CharNgram,
    v: Seq<(u32, u32)>,
    grams: Seq<Seq<char>>,
    contexts: Seq<Seq<char>>,
) -> bool {
    &&& v.len() == grams.len()
    &&& v.len() == contexts.len()
    &&& forall|j: int|
        0 <= j < v.len() ==> (#[trigger] v[j]).0 == m.gram_count(grams[j]) && v[j].1
            == m.context_count(contexts[j])
}

/// Every n-gram and every context that training counts for one token, in the
/// order it counts them.
fn word_window_keys(word: &str) -> (r: (Vec<String>, Vec<String>))
    ensures
        string_views(r.0@) == word_keys(word@, false),
        string_views(r.1@) == word_keys(word@, true),
{
    let mut gs: Vec<String> = Vec::new();
    let mut cs: Vec<String> = Vec::new();
    let p = pad(word);
    let ghost n = p@.len() as int;
    let mut i: usize = ORDER - 1;
    proof {
        assert(positions(p@, (ORDER - 1) as int, false) =~= Seq::<Seq<char>>::empty());
        assert(positions(p@, (ORDER - 1) as int, true) =~= Seq::<Seq<char>>::empty());
        assert(string_views(gs@) =~= Seq::<Seq<char>>::empty());
        assert(string_views(cs@) =~= Seq::<Seq<char>>::empty());
    }
    while i < p.len()
        invariant
            ORDER - 1 <= i <= p@.len(),
            p@ == padded(word@),
            n == p@.len(),
            n == p.len(),
            string_views(gs@) == positions(p@, i as int, false),
            string_views(cs@) == positions(p@, i as int, true),
        decreases p@.len() - i,
    {
        let mut k: usize = 1;
        proof {
            assert(orders(p@, i as int, 0, false) =~= Seq::<Seq<char>>::empty());
            assert(orders(p@, i as int, 0, true) =~= Seq::<Seq<char>>::empty());
            assert(positions(p@, i as int, false) + orders(p@, i as int, 0, false) =~= positions(
                p@,
                i as int,
                false,
            ));
            assert(positions(p@, i as int, true) + orders(p@, i as int, 0, true) =~= positions(
                p@,
                i as int,
                true,
            ));
        }
        while k <= ORDER
            invariant
                ORDER - 1 <= i < p@.len(),
                1 <= k <= ORDER + 1,
                n == p@.len(),
                n == p.len(),
                string_views(gs@) == positions(p@, i as int, false) + orders(
                    p@,
                    i as int,
                    k - 1,
                    false,
                ),
                string_views(cs@) == positions(p@, i as int, true) + orders(
                    p@,
                    i as int,
                    k - 1,
                    true,
                ),
            decreases ORDER + 1 - k,
        {
            let start = i - (k - 1);
            let gram = collect_range(&p, start, i + 1);
            let ctx = collect_range(&p, start, i);
            let ghost g0 = gs@;
            let ghost c0 = cs@;
            let ghost gv = gram@;
            let ghost cv = ctx@;
            gs.push(gram);
            cs.push(ctx);
            proof {
                assert(orders(p@, i as int, k as int, false) == orders(
                    p@,
                    i as int,
                    k - 1,
                    false,
                ).push(gv));
                assert(orders(p@, i as int, k as int, true) == orders(
                    p@,
                    i as int,
                    k - 1,
                    true,
                ).push(cv));
                assert(string_views(gs@) =~= string_views(g0).push(gv));
                assert(string_views(cs@) =~= string_views(c0).push(cv));
                assert(string_views(gs@) =~= positions(p@, i as int, false) + orders(
                    p@,
                    i as int,
                    k as int,
                    false,
                ));
                assert(string_views(cs@) =~= positions(p@, i as int, true) + orders(
                    p@,
                    i as int,
                    k as int,
                    true,
                ));
            }
            k = k + 1;
        }
        proof {
            assert(positions(p@, i + 1, false) == positions(p@, i as int, false) + orders(
                p@,
                i as int,
                ORDER as int,
                false,
            ));
            assert(positions(p@, i + 1, true) == positions(p@, i as int, true) + orders(
                p@,
                i as int,
                ORDER as int,
                true,
            ));
        }
        i = i + 1;
    }
    (gs, cs)
}

/// No n-gram count in `v` exceeds the context count paired with it.
pub open spec fn counts_ordered(v: Seq<(u32, u32)>) -> bool {
    forall|j: int| 0 <= j < v.len() ==> (#[trigger] v[j]).0 <= v[j].1
}

/// The token with its boundary markers.
fn pad(word: &str) -> (p: Vec<char>)
    ensures
        p@ == padded(word@),
{
    let mut p: Vec<char> = Vec::new();
    let mut j: usize = 0;
    while j < ORDER - 1
        invariant
            j <= ORDER - 1,
            p@ == Seq::new(j as nat, |_i: int| BOUNDARY),
        decreases ORDER - 1 - j,
    {
        p.push(BOUNDARY);
        proof {
            assert(p@ =~= Seq::new((j + 1) as nat, |_i: int| BOUNDARY));
        }
        j = j + 1;
    }
    let ghost front = p@;
    for c in it: word.chars()
        invariant
            it.seq() == word@,
            front == Seq::new((ORDER - 1) as nat, |_i: int| BOUNDARY),
            p@ == front + word@.take(it.index() as int),
    {
        p.push(c);
        proof {
            assert(word@.take(it.index() + 1) =~= word@.take(it.index() as int).push(c));
        }
    }
    proof {
        assert(word@.take(word@.len() as int) =~= word@);
    }
    p.push(BOUNDARY);
    p
}

/// Adds the letters of `word` that `letters` does not hold yet.
fn add_letters(letters: &mut Vec<char>, word: &str)
    requires
        old(letters)@.no_duplicates(),
    ensures
        final(letters)@.no_duplicates(),
        final(letters)@.to_set() == old(letters)@.to_set().union(word@.to_set()),
{
    let ghost start = letters@;
    for c in it: word.chars()
        invariant
            it.seq() == word@,
            letters@.no_duplicates(),
            letters@.to_set() == start.to_set().union(word@.take(it.index() as int).to_set()),
    {
        let mut found = false;
        let mut j: usize = 0;
        while j < letters.len()
            invariant
                0 <= j <= letters@.len(),
                found <==> exists|m: int| 0 <= m < j && letters@[m] == c,
            decreases letters@.len() - j,
        {
            if letters[j] == c {
                found = true;
            }
            j = j + 1;
        }
        let ghost prev = letters@;
        if !found {
            letters.push(c);
        }
        proof {
            let before = word@.take(it.index() as int);
            assert(word@.take(it.index() + 1) =~= before.push(c));
            before.lemma_push_to_set_commute(c);
            if found {
                assert(prev.contains(c));
                assert(prev.to_set().contains(c));
                assert(letters@.to_set() =~= prev.to_set().insert(c));
            } else {
                prev.lemma_push_to_set_commute(c);
            }
            assert(start.to_set().union(before.push(c).to_set()) =~= start.to_set().union(
                before.to_set(),
            ).insert(c));
        }
    }
    proof {
        assert(word@.take(word@.len() as int) =~= word@);
    }
}

proof fn lemma_letters_step(ws: Seq<Seq<char>>, w: int)
    requires
        0 <= w < ws.len(),
    ensures
        letters_of(ws.take(w + 1)) == letters_of(ws.take(w)).union(ws[w].to_set()),
{
    let a = letters_of(ws.take(w + 1));
    let b = letters_of(ws.take(w)).union(ws[w].to_set());
    assert forall|c: char| a.contains(c) <==> b.contains(c) by {
        if a.contains(c) {
            let i = choose|i: int| 0 <= i < w + 1 && #[trigger] ws.take(w + 1)[i].contains(c);
            if i < w {
                assert(ws.take(w)[i] == ws[i]);
            }
        }
        if letters_of(ws.take(w)).contains(c) {
            let i = choose|i: int| 0 <= i < w && #[trigger] ws.take(w)[i].contains(c);
            assert(ws.take(w + 1)[i] == ws[i]);
        }
        if ws[w].to_set().contains(c) {
            assert(ws.take(w + 1)[w] == ws[w]);
        }
    }
    assert(a =~= b);
}

/// Training accumulates: two texts trained one after the other leave the same
/// counts, letters and alphabet size whichever of them comes first.
pub proof fn lemma_training_order_irrelevant(
    start: CharNgram,
    a: Seq<char>,
    b: Seq<char>,
    after_a: CharNgram,
    after_ab: CharNgram,
    after_b: CharNgram,
    after_ba: CharNgram,
)
    requires
        CharNgram::trained(start, after_a, a),
        CharNgram::trained(after_a, after_ab, b),
        CharNgram::trained(start, after_b, b),
        CharNgram::trained(after_b, after_ba, a),
    ensures
        forall|g: Seq<char>| after_ab.gram_count(g) == after_ba.gram_count(g),
        forall|g: Seq<char>| after_ab.context_count(g) == after_ba.context_count(g),
        after_ab.letters_seen() == after_ba.letters_seen(),
        after_ab.alphabet_size() == after_ba.alphabet_size(),
{
    assert(after_ab.letters_seen() =~= after_ba.letters_seen());
    assert forall|g: Seq<char>| after_ab.gram_count(g) == after_ba.gram_count(g) by {
        assert(after_ab.gram_count(g) == after_a.gram_count(g) + occurrences(text_keys(b, false), g));
        assert(after_ba.gram_count(g) == after_b.gram_count(g) + occurrences(text_keys(a, false), g));
        assert(after_a.gram_count(g) == start.gram_count(g) + occurrences(text_keys(a, false), g));
        assert(after_b.gram_count(g) == start.gram_count(g) + occurrences(text_keys(b, false), g));
    }
    assert forall|g: Seq<char>| after_ab.context_count(g) == after_ba.context_count(g) by {
        assert(after_ab.context_count(g) == after_a.context_count(g) + occurrences(text_keys(b, true), g));
        assert(after_ba.context_count(g) == after_b.context_count(g) + occurrences(text_keys(a, true), g));
        assert(after_a.context_count(g) == start.context_count(g) + occurrences(text_keys(a, true), g));
        assert(after_b.context_count(g) == start.context_count(g) + occurrences(text_keys(b, true), g));
    }
}

/// The n-gram without its last character.
pub open spec fn context_of(g: Seq<char>) -> Seq<char> {
    g.drop_last()
}

proof fn lemma_orders_paired(p: Seq<char>, i: int, k: int)
    requires
        0 <= i < p.len(),
        k <= i + 1,
    ensures
        orders(p, i, k, true) == orders(p, i, k, false).map_values(|g: Seq<char>| context_of(g)),
    decreases k,
{
    if k > 0 {
        lemma_orders_paired(p, i, k - 1);
        assert(window(p, i, k, false).drop_last() =~= window(p, i, k, true));
        assert(orders(p, i, k, false).map_values(|g: Seq<char>| context_of(g)) =~= orders(
            p,
            i,
            k - 1,
            false,
        ).map_values(|g: Seq<char>| context_of(g)).push(context_of(window(p, i, k, false))));
    } else {
        assert(orders(p, i, k, false).map_values(|g: Seq<char>| context_of(g)) =~= Seq::<
            Seq<char>,
        >::empty());
    }
}

proof fn lemma_positions_paired(p: Seq<char>, i: int)
    requires
        i <= p.len(),
    ensures
        positions(p, i, true) == positions(p, i, false).map_values(|g: Seq<char>| context_of(g)),
    decreases i,
{
    if i > ORDER - 1 {
        lemma_positions_paired(p, i - 1);
        lemma_orders_paired(p, i - 1, ORDER as int);
        assert((positions(p, i - 1, false) + orders(p, i - 1, ORDER as int, false)).map_values(
            |g: Seq<char>| context_of(g),
        ) =~= positions(p, i - 1, false).map_values(|g: Seq<char>| context_of(g)) + orders(
            p,
            i - 1,
            ORDER as int,
            false,
        ).map_values(|g: Seq<char>| context_of(g)));
    } else {
        assert(positions(p, i, false).map_values(|g: Seq<char>| context_of(g)) =~= Seq::<
            Seq<char>,
        >::empty());
    }
}

/// The contexts training counts are exactly the n-grams it counts, each without
/// its last character: every context count is the number of counted n-grams that
/// extend it.
pub proof fn lemma_contexts_are_gram_prefixes(ws: Seq<Seq<char>>)
    ensures
        keys_of_words(ws, true) == keys_of_words(ws, false).map_values(
            |g: Seq<char>| context_of(g),
        ),
    decreases ws.len(),
{
    if ws.len() > 0 {
        lemma_contexts_are_gram_prefixes(ws.drop_last());
        let p = padded(ws.last());
        lemma_positions_paired(p, p.len() as int);
        assert((keys_of_words(ws.drop_last(), false) + word_keys(ws.last(), false)).map_values(
            |g: Seq<char>| context_of(g),
        ) =~= keys_of_words(ws.drop_last(), false).map_values(|g: Seq<char>| context_of(g))
            + word_keys(ws.last(), false).map_values(|g: Seq<char>| context_of(g)));
    } else {
        assert(keys_of_words(ws, false).map_values(|g: Seq<char>| context_of(g)) =~= Seq::<
            Seq<char>,
        >::empty());
    }
}

/// Training adds to the count of every context exactly as many as it adds to the
/// counts of the n-grams that extend it.
pub proof fn lemma_context_counts_follow_grams(
    before: CharNgram,
    after: CharNgram,
    text: Seq<char>,
    c: Seq<char>,
)
    requires
        CharNgram::trained(before, after, text),
    ensures
        after.context_count(c) == before.context_count(c) + occurrences(
            text_keys(text, false).map_values(|g: Seq<char>| context_of(g)),
            c,
        ),
{
    lemma_contexts_are_gram_prefixes(tokens(text));
}

/// No n-gram has been counted more often than its context (the n-gram without its
/// last character), so every ratio of the two that scoring takes lies in [0, 1].
pub proof fn lemma_gram_within_context(m: CharNgram, g: Seq<char>)
    requires
        m.wf(),
        g.len() > 0,
    ensures
        m.gram_count(g) <= m.context_count(g.drop_last()),
{
}

/// Training on a text without letters changes nothing: not the counts, not the
/// letters seen, not the alphabet size.
pub proof fn lemma_no_letters_no_change(before: CharNgram, after: CharNgram, text: Seq<char>)
    requires
        before.wf(),
        CharNgram::trained(before, after, text),
        tokens(text).len() == 0,
    ensures
        forall|g: Seq<char>| after.gram_count(g) == before.gram_count(g),
        forall|g: Seq<char>| after.context_count(g) == before.context_count(g),
        after.letters_seen() == before.letters_seen(),
        after.alphabet_size() == before.alphabet_size(),
{
    let ws = tokens(text);
    assert forall|g: Seq<char>| after.gram_count(g) == before.gram_count(g) by {
        assert(after.gram_count(g) == before.gram_count(g) + occurrences(
            keys_of_words(ws, false),
            g,
        ));
    }
    assert forall|g: Seq<char>| after.context_count(g) == before.context_count(g) by {
        assert(after.context_count(g) == before.context_count(g) + occurrences(
            keys_of_words(ws, true),
            g,
        ));
    }
    assert(letters_of(ws) =~= Set::<char>::empty());
    assert(after.letters_seen() =~= before.letters_seen());
    before.letters@.unique_seq_to_set();
}

/// After training, the model has counted something exactly when it had before or
/// the text held a letter.
pub proof fn lemma_trained_after_training(before: CharNgram, after: CharNgram, text: Seq<char>)
    requires
        CharNgram::trained(before, after, text),
    ensures
        (exists|g: Seq<char>| after.gram_count(g) > 0) <==> ((exists|g: Seq<char>|
            before.gram_count(g) > 0) || tokens(text).len() > 0),
{
    let ws = tokens(text);
    if tokens(text).len() > 0 {
        let w = ws.last();
        let p = padded(w);
        let n = p.len() as int;
        let last_orders = orders(p, n - 1, ORDER as int, false);
        let g = window(p, n - 1, ORDER as int, false);
        assert(last_orders == orders(p, n - 1, ORDER - 1, false).push(g));
        lemma_occurrences_push(orders(p, n - 1, ORDER - 1, false), g, g);
        assert(word_keys(w, false) == positions(p, n - 1, false) + last_orders);
        lemma_occurrences_append(positions(p, n - 1, false), last_orders, g);
        lemma_occurrences_append(keys_of_words(ws.drop_last(), false), word_keys(w, false), g);
        assert(after.gram_count(g) > 0);
    } else {
        assert forall|g: Seq<char>| after.gram_count(g) == before.gram_count(g) by {
            assert(after.gram_count(g) == before.gram_count(g) + occurrences(
                keys_of_words(ws, false),
                g,
            ));
        }
    }
    if exists|g: Seq<char>| before.gram_count(g) > 0 {
        let g = choose|g: Seq<char>| before.gram_count(g) > 0;
        assert(after.gram_count(g) >= before.gram_count(g));
    }
}

} // verus!
