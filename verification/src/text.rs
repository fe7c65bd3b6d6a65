//! Character classification and tokenization.
//!
//! Whether a character is a letter, and what its lowercase form is, are questions
//! of the Unicode tables; the library asks the standard library and names the
//! answers (`alphabetic`, `lowercase`) instead of restating those tables.

use vstd::prelude::*;

verus! {

/// Whether `char::is_alphabetic` holds of `c` (the Unicode `Alphabetic` property).
pub uninterp spec fn alphabetic(c: char) -> bool;

/// The characters that `char::to_lowercase` yields for `c`.
pub uninterp spec fn lowercase(c: char) -> Seq<char>;

/// Calls `char::is_alphabetic`. The contract only names the result
/// (`alphabetic(c)`): it depends on `c` alone, and the Unicode tables that decide it
/// are not restated.
#[verifier::external_body]
pub(crate) fn is_alphabetic(c: char) -> (r: bool)
    ensures
        r == alphabetic(c),
{
    c.is_alphabetic()
}

/// Calls `char::to_lowercase` and collects the characters it yields. The contract
/// names them (`lowercase(c)`, a function of `c` alone) and states the one fact the
/// standard library documents of every input: the mapping has one or more
/// characters (the character itself where it has no lowercase mapping). Which
/// characters they are is left to the Unicode tables and not stated.
#[verifier::external_body]
pub(crate) fn to_lowercase(c: char) -> (r: Vec<char>)
    ensures
        r@ == lowercase(c),
        r@.len() >= 1,
{
    c.to_lowercase().collect()
}

/// Whether `w` has at most `n` characters.
pub fn has_at_most_chars(w: &str, n: usize) -> (r: bool)
    ensures
        r == (w@.len() <= n),
{
    let mut count: usize = 0;
    for c in it: w.chars()
        invariant
            it.seq() == w@,
            count == it.index(),
            count <= n,
    {
        if count == n {
            return false;
        }
        count = count + 1;
    }
    true
}

/// The characters `p[from..to]` as a string.
pub(crate) fn collect_range(p: &Vec<char>, from: usize, to: usize) -> (s: String)
    requires
        from <= to <= p@.len(),
    ensures
        s@ == p@.subrange(from as int, to as int),
{
    let mut s = String::new();
    let mut j = from;
    while j < to
        invariant
            from <= j <= to <= p@.len(),
            s@ == p@.subrange(from as int, j as int),
        decreases to - j,
    {
        push_char(&mut s, p[j]);
        proof {
            assert(p@.subrange(from as int, j + 1) =~= p@.subrange(from as int, j as int).push(
                p@[j as int],
            ));
        }
        j = j + 1;
    }
    s
}

/// Calls `String::push`. The contract claims what its documentation says: `c` is
/// appended to the end of `s`, and nothing else changes.
#[verifier::external_body]
pub(crate) fn push_char(s: &mut String, c: char)
    ensures
        final(s)@ == old(s)@.push(c),
{
    s.push(c);
}

/// The character a letter contributes to a token: the first character of its
/// lowercase form.
pub open spec fn folded(c: char) -> char {
    lowercase(c)[0]
}

/// What a character contributes to a token: its folded form if it is a letter,
/// nothing if it separates tokens.
pub open spec fn letter_class(c: char) -> Option<char> {
    if alphabetic(c) {
        Some(folded(c))
    } else {
        None
    }
}

/// Scanning state after reading `s`: the runs completed so far and the run being
/// built.
pub open spec fn run_scan(s: Seq<Option<char>>) -> (Seq<Seq<char>>, Seq<char>)
    decreases s.len(),
{
    if s.len() == 0 {
        (Seq::empty(), Seq::empty())
    } else {
        let (done, current) = run_scan(s.drop_last());
        match s.last() {
            Some(c) => (done, current.push(c)),
            None => if current.len() > 0 {
                (done.push(current), Seq::empty())
            } else {
                (done, current)
            },
        }
    }
}

/// The maximal runs of present characters in `s`, in order.
pub open spec fn runs(s: Seq<Option<char>>) -> Seq<Seq<char>> {
    let (done, current) = run_scan(s);
    if current.len() > 0 {
        done.push(current)
    } else {
        done
    }
}

/// The tokens of a text: its maximal runs of letters, each letter folded to
/// lowercase. Everything else separates tokens.
pub open spec fn tokens(s: Seq<char>) -> Seq<Seq<char>> {
    runs(s.map_values(|c: char| letter_class(c)))
}

/// The letters of a token, each replaced by its whole lowercase form; all other
/// characters dropped.
pub open spec fn normalized(s: Seq<char>) -> Seq<char>
    decreases s.len(),
{
    if s.len() == 0 {
        Seq::empty()
    } else {
        normalized(s.drop_last()) + if alphabetic(s.last()) {
            lowercase(s.last())
        } else {
            Seq::<char>::empty()
        }
    }
}

pub open spec fn string_views(v: Seq<String>) -> Seq<Seq<char>> {
    v.map_values(|s: String| s@)
}

/// Collects the maximal runs of present characters: every `None` ends the run
/// being built.
pub fn letter_runs(classes: &[Option<char>]) -> (out: Vec<String>)
    ensures
        string_views(out@) == runs(classes@),
{
    let mut out: Vec<String> = Vec::new();
    let mut current = String::new();
    let mut i: usize = 0;
    while i < classes.len()
        invariant
            0 <= i <= classes@.len(),
            (string_views(out@), current@) == run_scan(classes@.take(i as int)),
        decreases classes@.len() - i,
    {
        proof {
            assert(classes@.take(i + 1).drop_last() =~= classes@.take(i as int));
        }
        match classes[i] {
            Some(c) => push_char(&mut current, c),
            None => {
                if !current.as_str().is_empty() {
                    let ghost old_out = out@;
                    let done = current;
                    current = String::new();
                    let ghost done_view = done@;
                    out.push(done);
                    proof {
                        assert(string_views(out@) =~= string_views(old_out).push(done_view));
                    }
                }
            },
        }
        i = i + 1;
    }
    proof {
        assert(classes@.take(classes@.len() as int) =~= classes@);
    }
    if !current.as_str().is_empty() {
        let ghost old_out = out@;
        let ghost last = current@;
        out.push(current);
        proof {
            assert(string_views(out@) =~= string_views(old_out).push(last));
        }
    }
    out
}

/// Splits a text into tokens: runs of letters, lowercased. Everything else is a
/// separator.
pub fn tokenize(text: &str) -> (out: Vec<String>)
    ensures
        string_views(out@) == tokens(text@),
{
    let mut classes: Vec<Option<char>> = Vec::new();
    for c in it: text.chars()
        invariant
            it.seq() == text@,
            classes@ == text@.take(it.index() as int).map_values(|c: char| letter_class(c)),
    {
        let class = if is_alphabetic(c) {
            let lower = to_lowercase(c);
            Some(lower[0])
        } else {
            None
        };
        classes.push(class);
        proof {
            assert(text@.take(it.index() + 1).map_values(|c: char| letter_class(c)) =~= text@.take(
                it.index() as int,
            ).map_values(|c: char| letter_class(c)).push(letter_class(c)));
        }
    }
    proof {
        assert(text@.take(text@.len() as int) =~= text@);
    }
    letter_runs(classes.as_slice())
}

/// Keeps the letters of a token and replaces each by its whole lowercase form.
pub fn normalize(token: &str) -> (out: String)
    ensures
        out@ == normalized(token@),
{
    let mut out = String::new();
    for c in it: token.chars()
        invariant
            it.seq() == token@,
            out@ == normalized(token@.take(it.index() as int)),
    {
        proof {
            assert(token@.take(it.index() + 1).drop_last() =~= token@.take(it.index() as int));
        }
        if is_alphabetic(c) {
            let lower = to_lowercase(c);
            let ghost before = out@;
            let mut j: usize = 0;
            while j < lower.len()
                invariant
                    0 <= j <= lower@.len(),
                    lower@ == lowercase(c),
                    out@ == before + lower@.take(j as int),
                decreases lower@.len() - j,
            {
                push_char(&mut out, lower[j]);
                proof {
                    assert(lower@.take(j + 1) =~= lower@.take(j as int).push(lower@[j as int]));
                }
                j = j + 1;
            }
            proof {
                assert(lower@.take(lower@.len() as int) =~= lower@);
            }
        } else {
            proof {
                assert(out@ =~= out@ + Seq::<char>::empty());
            }
        }
    }
    proof {
        assert(token@.take(token@.len() as int) =~= token@);
    }
    out
}

proof fn lemma_run_scan_shape(s: Seq<Option<char>>)
    ensures
        forall|i: int| 0 <= i < run_scan(s).0.len() ==> (#[trigger] run_scan(s).0[i]).len() > 0,
        (run_scan(s).0.len() > 0 || run_scan(s).1.len() > 0) <==> exists|i: int|
            0 <= i < s.len() && (#[trigger] s[i]) is Some,
    decreases s.len(),
{
    if s.len() > 0 {
        let prev = s.drop_last();
        lemma_run_scan_shape(prev);
        if exists|i: int| 0 <= i < prev.len() && (#[trigger] prev[i]) is Some {
            let i = choose|i: int| 0 <= i < prev.len() && (#[trigger] prev[i]) is Some;
            assert(s[i] is Some);
        }
        if exists|i: int| 0 <= i < s.len() && (#[trigger] s[i]) is Some {
            let i = choose|i: int| 0 <= i < s.len() && (#[trigger] s[i]) is Some;
            if i < s.len() - 1 {
                assert(prev[i] is Some);
            }
        }
    }
}

proof fn lemma_run_scan_all_present(s: Seq<Option<char>>)
    requires
        forall|i: int| 0 <= i < s.len() ==> (#[trigger] s[i]) is Some,
    ensures
        run_scan(s).0 == Seq::<Seq<char>>::empty(),
        run_scan(s).1 == Seq::new(s.len(), |i: int| s[i]->0),
    decreases s.len(),
{
    if s.len() > 0 {
        let p = s.drop_last();
        assert forall|i: int| 0 <= i < p.len() implies (#[trigger] p[i]) is Some by {
            assert(p[i] == s[i]);
        }
        lemma_run_scan_all_present(p);
        assert(s.last() == s[s.len() - 1]);
        assert(Seq::new(p.len(), |i: int| p[i]->0).push(s.last()->0) =~= Seq::new(
            s.len(),
            |i: int| s[i]->0,
        ));
    }
}

/// A text made of letters only is a single token: its letters, each replaced by
/// the first character of its lowercase form. In particular a word whose letters
/// are already lowercase is its own token.
pub proof fn lemma_letters_form_one_token(s: Seq<char>)
    requires
        s.len() > 0,
        forall|i: int| 0 <= i < s.len() ==> #[trigger] alphabetic(s[i]),
    ensures
        tokens(s) == seq![Seq::new(s.len(), |i: int| lowercase(s[i])[0])],
        (forall|i: int| 0 <= i < s.len() ==> #[trigger] lowercase(s[i]) == seq![s[i]])
            ==> tokens(s) == seq![s],
{
    let classes = s.map_values(|c: char| letter_class(c));
    assert forall|i: int| 0 <= i < classes.len() implies (#[trigger] classes[i]) is Some by {
        assert(alphabetic(s[i]));
    }
    lemma_run_scan_all_present(classes);
    let word = Seq::new(s.len(), |i: int| lowercase(s[i])[0]);
    assert(Seq::new(classes.len(), |i: int| classes[i]->0) =~= word);
    assert(tokens(s) =~= seq![word]);
    if forall|i: int| 0 <= i < s.len() ==> #[trigger] lowercase(s[i]) == seq![s[i]] {
        assert forall|i: int| 0 <= i < s.len() implies word[i] == s[i] by {
            assert(lowercase(s[i]) == seq![s[i]]);
        }
        assert(word =~= s);
    }
}

/// Every token is non-empty, and a text has tokens exactly when it holds a letter.
pub proof fn lemma_tokens_shape(s: Seq<char>)
    ensures
        forall|i: int| 0 <= i < tokens(s).len() ==> (#[trigger] tokens(s)[i]).len() > 0,
        tokens(s).len() > 0 <==> exists|i: int| 0 <= i < s.len() && #[trigger] alphabetic(s[i]),
{
    let classes = s.map_values(|c: char| letter_class(c));
    lemma_run_scan_shape(classes);
    if exists|i: int| 0 <= i < s.len() && #[trigger] alphabetic(s[i]) {
        let i = choose|i: int| 0 <= i < s.len() && #[trigger] alphabetic(s[i]);
        assert(classes[i] is Some);
    }
    if exists|i: int| 0 <= i < classes.len() && (#[trigger] classes[i]) is Some {
        let i = choose|i: int| 0 <= i < classes.len() && (#[trigger] classes[i]) is Some;
        assert(alphabetic(s[i]));
    }
}

} // verus!
