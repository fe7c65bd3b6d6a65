//! Counting keys: how often a key occurs in a sequence, and maps of counts.

use vstd::prelude::*;
use vstd::hash_map::StringHashMap;

use crate::text::string_views;

verus! {

/// How often `g` occurs in `s`.
pub open spec fn occurrences(s: Seq<Seq<char>>, g: Seq<char>) -> nat
    decreases s.len(),
{
    if s.len() == 0 {
        0
    } else {
        occurrences(s.drop_last(), g) + if s.last() == g {
            1nat
        } else {
            0nat
        }
    }
}

/// The count a map holds for `g`, zero where it holds none.
pub open spec fn count_in(m: Map<Seq<char>, u32>, g: Seq<char>) -> nat {
    if m.contains_key(g) {
        m[g] as nat
    } else {
        0
    }
}

pub open spec fn all_positive(m: Map<Seq<char>, u32>) -> bool {
    forall|g: Seq<char>| #[trigger] m.contains_key(g) ==> m[g] > 0
}

pub proof fn lemma_occurrences_append(a: Seq<Seq<char>>, b: Seq<Seq<char>>, g: Seq<char>)
    ensures
        occurrences(a + b, g) == occurrences(a, g) + occurrences(b, g),
    decreases b.len(),
{
    if b.len() == 0 {
        assert(a + b =~= a);
    } else {
        assert((a + b).drop_last() =~= a + b.drop_last());
        lemma_occurrences_append(a, b.drop_last(), g);
    }
}

pub proof fn lemma_occurrences_push(a: Seq<Seq<char>>, x: Seq<char>, g: Seq<char>)
    ensures
        occurrences(a.push(x), g) == occurrences(a, g) + if x == g {
            1nat
        } else {
            0nat
        },
{
    assert(a.push(x).drop_last() =~= a);
}

/// Adds one to the count of `key`.
pub(crate) fn bump(m: &mut StringHashMap<u32>, key: String)
    requires
        count_in(old(m)@, key@) < u32::MAX,
    ensures
        forall|g: Seq<char>|
            #[trigger] count_in(final(m)@, g) == count_in(old(m)@, g) + if g == key@ {
                1nat
            } else {
                0nat
            },
        all_positive(old(m)@) ==> all_positive(final(m)@),
        final(m)@.dom() == old(m)@.dom().insert(key@),
{
    let n: u32 = match m.get(key.as_str()) {
        Some(v) => *v,
        None => 0,
    };
    m.insert(key, n + 1);
}

/// `occurrences` is bounded by any longer sequence that starts with the same keys.
pub proof fn lemma_occurrences_prefix(s: Seq<Seq<char>>, j: int, g: Seq<char>)
    requires
        0 <= j <= s.len(),
    ensures
        occurrences(s.take(j), g) <= occurrences(s, g),
    decreases s.len() - j,
{
    if j < s.len() {
        lemma_occurrences_prefix(s, j + 1, g);
        assert(s.take(j + 1).drop_last() =~= s.take(j));
    } else {
        assert(s.take(j) =~= s);
    }
}

/// `n`, or `u64::MAX` where `n` is larger.
pub open spec fn capped(n: nat) -> nat {
    if n < u64::MAX {
        n
    } else {
        u64::MAX as nat
    }
}

/// The count a wide map holds for `g`, zero where it holds none.
pub open spec fn wide_count_in(m: Map<Seq<char>, u64>, g: Seq<char>) -> nat {
    if m.contains_key(g) {
        m[g] as nat
    } else {
        0
    }
}

/// A key that does not occur in `s` is counted zero times.
pub proof fn lemma_occurrences_absent(s: Seq<Seq<char>>, g: Seq<char>)
    requires
        !s.contains(g),
    ensures
        occurrences(s, g) == 0,
    decreases s.len(),
{
    if s.len() > 0 {
        assert(!s.drop_last().contains(g)) by {
            if s.drop_last().contains(g) {
                let j = choose|j: int| 0 <= j < s.len() - 1 && #[trigger] s.drop_last()[j] == g;
                assert(s[j] == g);
            }
        }
        lemma_occurrences_absent(s.drop_last(), g);
        assert(s.last() != g) by {
            if s.last() == g {
                assert(s[s.len() - 1] == g);
            }
        }
    }
}

/// No key occurs more often than `s` is long.
pub proof fn lemma_occurrences_bounded(s: Seq<Seq<char>>, g: Seq<char>)
    ensures
        occurrences(s, g) <= s.len(),
    decreases s.len(),
{
    if s.len() > 0 {
        lemma_occurrences_bounded(s.drop_last(), g);
    }
}

/// Adds one to the count of `key`, staying at `u64::MAX` once it is there.
fn bump_saturating(m: &mut StringHashMap<u64>, key: String)
    ensures
        forall|g: Seq<char>|
            #[trigger] wide_count_in(final(m)@, g) == if g == key@ {
                if wide_count_in(old(m)@, g) < u64::MAX {
                    wide_count_in(old(m)@, g) + 1
                } else {
                    wide_count_in(old(m)@, g)
                }
            } else {
                wide_count_in(old(m)@, g)
            },
{
    let n: u64 = match m.get(key.as_str()) {
        Some(v) => *v,
        None => 0,
    };
    let next: u64 = if n < u64::MAX {
        n + 1
    } else {
        n
    };
    m.insert(key, next);
}

/// Adds the occurrences of every key of `keys` to the wide counts of `m`, each
/// count staying at `u64::MAX` once it gets there.
pub(crate) fn add_capped(m: &mut StringHashMap<u64>, keys: &[String])
    ensures
        forall|g: Seq<char>|
            #[trigger] wide_count_in(final(m)@, g) == capped(
                wide_count_in(old(m)@, g) + occurrences(string_views(keys@), g),
            ),
{
    let ghost views = string_views(keys@);
    let ghost start = m@;
    let mut i: usize = 0;
    proof {
        assert(views.take(0) =~= Seq::<Seq<char>>::empty());
    }
    while i < keys.len()
        invariant
            0 <= i <= keys@.len(),
            views == string_views(keys@),
            forall|w: Seq<char>|
                #[trigger] wide_count_in(m@, w) == capped(
                    wide_count_in(start, w) + occurrences(views.take(i as int), w),
                ),
        decreases keys@.len() - i,
    {
        let key = keys[i].clone();
        let ghost before = m@;
        proof {
            assert(key@ == views[i as int]);
            assert(views.take(i + 1) =~= views.take(i as int).push(views[i as int]));
        }
        bump_saturating(m, key);
        proof {
            assert forall|w: Seq<char>|
                #[trigger] wide_count_in(m@, w) == capped(
                    wide_count_in(start, w) + occurrences(views.take(i + 1), w),
                ) by {
                assert(wide_count_in(before, w) == capped(
                    wide_count_in(start, w) + occurrences(views.take(i as int), w),
                ));
                lemma_occurrences_push(views.take(i as int), views[i as int], w);
            }
        }
        i = i + 1;
    }
    proof {
        assert(views.take(i as int) =~= views);
    }
}

/// Whether every key of `keys` has a count in `m` that, with its wide count in
/// `wide` added, stays within `u32`.
pub(crate) fn keys_fit(m: &StringHashMap<u32>, wide: &StringHashMap<u64>, keys: &[String]) -> (r:
    bool)
    ensures
        r == forall|j: int|
            0 <= j < keys@.len() ==> count_in(m@, #[trigger] keys@[j]@) + wide_count_in(
                wide@,
                keys@[j]@,
            ) <= u32::MAX,
{
    let mut i: usize = 0;
    while i < keys.len()
        invariant
            0 <= i <= keys@.len(),
            forall|j: int|
                0 <= j < i ==> count_in(m@, #[trigger] keys@[j]@) + wide_count_in(
                    wide@,
                    keys@[j]@,
                ) <= u32::MAX,
        decreases keys@.len() - i,
    {
        let key = keys[i].as_str();
        let c: u32 = match m.get(key) {
            Some(v) => *v,
            None => 0,
        };
        let o: u64 = match wide.get(key) {
            Some(v) => *v,
            None => 0,
        };
        let room: u32 = u32::MAX - c;
        if o > room as u64 {
            return false;
        }
        i = i + 1;
    }
    true
}

/// Whether adding the occurrences of every key of `keys` to the counts of `m`
/// keeps each count within `u32`.
pub(crate) fn fits_counts(m: &StringHashMap<u32>, keys: &[String]) -> (r: bool)
    ensures
        r == forall|g: Seq<char>|
            #[trigger] count_in(m@, g) + occurrences(string_views(keys@), g) <= u32::MAX,
{
    let ghost views = string_views(keys@);
    let mut wide: StringHashMap<u64> = StringHashMap::new();
    add_capped(&mut wide, keys);
    let r = keys_fit(m, &wide, keys);
    proof {
        if r {
            assert forall|g: Seq<char>|
                #[trigger] count_in(m@, g) + occurrences(views, g) <= u32::MAX by {
                if views.contains(g) {
                    let j = choose|j: int| 0 <= j < views.len() && views[j] == g;
                    assert(keys@[j]@ == g);
                    assert(wide_count_in(wide@, g) == capped(occurrences(views, g)));
                } else {
                    lemma_occurrences_absent(views, g);
                }
            }
        } else {
            let j = choose|j: int|
                0 <= j < keys@.len() && !(count_in(m@, #[trigger] keys@[j]@) + wide_count_in(
                    wide@,
                    keys@[j]@,
                ) <= u32::MAX);
            let g = keys@[j]@;
            assert(wide_count_in(wide@, g) == capped(occurrences(views, g)));
            assert(!(count_in(m@, g) + occurrences(views, g) <= u32::MAX));
        }
    }
    r
}

/// Counts how often each string occurs in `tokens`.
pub(crate) fn count_strings(tokens: &[String]) -> (m: StringHashMap<u32>)
    requires
        forall|w: Seq<char>|
            #[trigger] occurrences(string_views(tokens@), w) <= u32::MAX,
    ensures
        forall|w: Seq<char>|
            #[trigger] count_in(m@, w) == occurrences(string_views(tokens@), w),
        m@.dom() == string_views(tokens@).to_set(),
        all_positive(m@),
{
    let ghost views = string_views(tokens@);
    let mut m: StringHashMap<u32> = StringHashMap::new();
    let mut i: usize = 0;
    proof {
        assert(views.take(0) =~= Seq::<Seq<char>>::empty());
        assert(m@.dom() =~= views.take(0).to_set());
    }
    while i < tokens.len()
        invariant
            0 <= i <= tokens@.len(),
            views == string_views(tokens@),
            forall|w: Seq<char>| #[trigger] occurrences(views, w) <= u32::MAX,
            forall|w: Seq<char>| #[trigger] count_in(m@, w) == occurrences(views.take(i as int), w),
            m@.dom() == views.take(i as int).to_set(),
            all_positive(m@),
        decreases tokens@.len() - i,
    {
        let key = tokens[i].clone();
        proof {
            let x = views[i as int];
            assert(key@ == x);
            assert(views.take(i + 1) =~= views.take(i as int).push(x));
            lemma_occurrences_push(views.take(i as int), x, x);
            lemma_occurrences_prefix(views, i + 1, x);
        }
        let ghost before = m@;
        bump(&mut m, key);
        proof {
            let x = views[i as int];
            assert forall|w: Seq<char>|
                #[trigger] count_in(m@, w) == occurrences(views.take(i + 1), w) by {
                assert(count_in(before, w) == occurrences(views.take(i as int), w));
                lemma_occurrences_push(views.take(i as int), x, w);
            }
            views.take(i as int).lemma_push_to_set_commute(x);
        }
        i = i + 1;
    }
    proof {
        assert(views.take(i as int) =~= views);
    }
    m
}

} // verus!
