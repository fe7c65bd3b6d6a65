//! Rendering of the context subcorpus.
//!
//! The source is written the right way; tokens in `[brackets]` are retyped in the
//! opposite layout by the library, so a typo in the retyping itself is impossible.
//! The rendering shows the text as the user would have typed it, with `{braces}`
//! around the tokens where a switch is expected.

use vstd::prelude::*;

use crate::layout::{
    detect_direction, detected_direction, lemma_transliteration_round_trip, transliterate,
    transliteration,
};
use crate::text::{collect_range, push_char};

verus! {

/// Whether `char::is_whitespace` holds of `c` (the Unicode `White_Space` property).
pub uninterp spec fn whitespace(c: char) -> bool;

/// Calls `char::is_whitespace`. The contract only names the result
/// (`whitespace(c)`): it depends on `c` alone, and the Unicode `White_Space` table
/// that decides it is not restated.
#[verifier::external_body]
fn is_whitespace(c: char) -> (r: bool)
    ensures
        r == whitespace(c),
{
    c.is_whitespace()
}

/// A character together with whether it is whitespace.
pub open spec fn marked(s: Seq<char>) -> Seq<(char, bool)> {
    s.map_values(|c: char| (c, whitespace(c)))
}

/// The characters of a marked sequence.
pub open spec fn plain(s: Seq<(char, bool)>) -> Seq<char> {
    s.map_values(|p: (char, bool)| p.0)
}

/// Scanning state of splitting `s` at line feeds: the lines completed so far and
/// the line being read.
pub open spec fn line_scan(s: Seq<(char, bool)>) -> (Seq<Seq<(char, bool)>>, Seq<(char, bool)>)
    decreases s.len(),
{
    if s.len() == 0 {
        (Seq::empty(), Seq::empty())
    } else {
        let (done, current) = line_scan(s.drop_last());
        if s.last().0 == '\n' {
            (done.push(current), Seq::empty())
        } else {
            (done, current.push(s.last()))
        }
    }
}

/// The lines of a text: the pieces between line feeds, without an empty piece
/// after a final line feed. (A carriage return before a line feed stays in its
/// line here; every line is trimmed before use, which removes it.)
pub open spec fn lines(s: Seq<(char, bool)>) -> Seq<Seq<(char, bool)>> {
    let (done, current) = line_scan(s);
    if current.len() > 0 {
        done.push(current)
    } else {
        done
    }
}

pub open spec fn trim_start(s: Seq<(char, bool)>) -> Seq<(char, bool)>
    decreases s.len(),
{
    if s.len() > 0 && s[0].1 {
        trim_start(s.drop_first())
    } else {
        s
    }
}

pub open spec fn trim_end(s: Seq<(char, bool)>) -> Seq<(char, bool)>
    decreases s.len(),
{
    if s.len() > 0 && s.last().1 {
        trim_end(s.drop_last())
    } else {
        s
    }
}

/// `s` without leading and trailing whitespace.
pub open spec fn trim(s: Seq<(char, bool)>) -> Seq<(char, bool)> {
    trim_end(trim_start(s))
}

/// Scanning state of splitting `s` at runs of whitespace.
pub open spec fn field_scan(s: Seq<(char, bool)>) -> (Seq<Seq<char>>, Seq<char>)
    decreases s.len(),
{
    if s.len() == 0 {
        (Seq::empty(), Seq::empty())
    } else {
        let (done, current) = field_scan(s.drop_last());
        if s.last().1 {
            if current.len() > 0 {
                (done.push(current), Seq::empty())
            } else {
                (done, current)
            }
        } else {
            (done, current.push(s.last().0))
        }
    }
}

/// The whitespace-separated fields of `s`, none of them empty.
pub open spec fn fields(s: Seq<(char, bool)>) -> Seq<Seq<char>> {
    let (done, current) = field_scan(s);
    if current.len() > 0 {
        done.push(current)
    } else {
        done
    }
}

/// A field written as `[token]`.
pub open spec fn bracketed(f: Seq<char>) -> bool {
    f.len() >= 2 && f[0] == '[' && f.last() == ']'
}

/// The token between the brackets of a bracketed field.
pub open spec fn inner(f: Seq<char>) -> Seq<char> {
    f.subrange(1, f.len() - 1)
}

/// A field as the user would have typed it: a bracketed token retyped in the
/// other layout and put in braces, any other field unchanged. `None` when the
/// bracketed token has no layout or does not map as a whole.
pub open spec fn field_output(f: Seq<char>) -> Option<Seq<char>> {
    if bracketed(f) {
        match detected_direction(inner(f)) {
            Some(d) => match transliteration(inner(f), d) {
                Some(m) => Some(seq!['{'] + m + seq!['}']),
                None => None,
            },
            None => None,
        }
    } else {
        Some(f)
    }
}

/// The first field of `fs` that cannot be rendered.
pub open spec fn first_failure(fs: Seq<Seq<char>>) -> Option<Seq<char>>
    decreases fs.len(),
{
    if fs.len() == 0 {
        None
    } else {
        match first_failure(fs.drop_last()) {
            Some(f) => Some(f),
            None => if field_output(fs.last()) is None {
                Some(fs.last())
            } else {
                None
            },
        }
    }
}

/// The rendered fields, separated by single spaces.
pub open spec fn joined(fs: Seq<Seq<char>>) -> Seq<char>
    decreases fs.len(),
{
    if fs.len() == 0 {
        Seq::empty()
    } else if fs.len() == 1 {
        field_output(fs[0])->0
    } else {
        joined(fs.drop_last()) + seq![' '] + field_output(fs.last())->0
    }
}

pub open spec fn count_bracketed(fs: Seq<Seq<char>>) -> nat
    decreases fs.len(),
{
    if fs.len() == 0 {
        0
    } else {
        count_bracketed(fs.drop_last()) + if bracketed(fs.last()) {
            1nat
        } else {
            0nat
        }
    }
}

/// What a comment line contributes: family headers (`# ---`) are carried over,
/// set off by an empty line; any other comment is dropped.
pub open spec fn comment_output(l: Seq<char>) -> Seq<char> {
    if l.len() >= 5 && l.subrange(0, 5) == seq!['#', ' ', '-', '-', '-'] {
        seq!['\n'] + l + seq!['\n']
    } else {
        Seq::empty()
    }
}

/// The rendering so far and its counts: sentences, tokens to switch, tokens to keep.
pub struct RenderState {
    pub text: Seq<char>,
    pub sentences: nat,
    pub switch_tokens: nat,
    pub keep_tokens: nat,
}

/// Rendering of one more (untrimmed) line; `Err((field, line))` names the first
/// field that cannot be rendered and its trimmed line.
pub open spec fn render_line(st: RenderState, raw: Seq<(char, bool)>) -> Result<
    RenderState,
    (Seq<char>, Seq<char>),
> {
    let l = trim(raw);
    let lc = plain(l);
    if l.len() == 0 {
        Ok(st)
    } else if lc[0] == '#' {
        Ok(RenderState { text: st.text + comment_output(lc), ..st })
    } else {
        let fs = fields(l);
        match first_failure(fs) {
            Some(f) => Err((f, lc)),
            None => Ok(
                RenderState {
                    text: st.text + joined(fs) + seq!['\n'],
                    sentences: st.sentences + 1,
                    switch_tokens: st.switch_tokens + count_bracketed(fs),
                    keep_tokens: st.keep_tokens + (fs.len() - count_bracketed(fs)) as nat,
                },
            ),
        }
    }
}

pub open spec fn render_lines(ls: Seq<Seq<(char, bool)>>) -> Result<
    RenderState,
    (Seq<char>, Seq<char>),
>
    decreases ls.len(),
{
    if ls.len() == 0 {
        Ok(RenderState { text: Seq::empty(), sentences: 0, switch_tokens: 0, keep_tokens: 0 })
    } else {
        match render_lines(ls.drop_last()) {
            Err(e) => Err(e),
            Ok(st) => render_line(st, ls.last()),
        }
    }
}

/// The rendered context subcorpus with its counts.
pub struct Rendered {
    pub text: String,
    pub sentences: usize,
    pub switch_tokens: usize,
    pub keep_tokens: usize,
}

/// Why a source cannot be rendered.
pub enum RenderError {
    /// The bracketed token has no layout (it is mixed or holds no letters).
    NoDirection { token: String, line: String },
    /// The bracketed token does not map as a whole to the other layout.
    NotMappable { token: String },
}

pub open spec fn matches_state(r: &Rendered, st: RenderState) -> bool {
    &&& r.text@ == st.text
    &&& r.sentences == st.sentences
    &&& r.switch_tokens == st.switch_tokens
    &&& r.keep_tokens == st.keep_tokens
}

/// The error a failing field and its line give.
pub open spec fn matches_failure(e: &RenderError, f: Seq<char>, l: Seq<char>) -> bool {
    match e {
        RenderError::NoDirection { token, line } => detected_direction(inner(f)) is None
            && token@ == inner(f) && line@ == l,
        RenderError::NotMappable { token } => detected_direction(inner(f)) is Some
            && token@ == inner(f),
    }
}

proof fn lemma_trim_start_at(s: Seq<(char, bool)>, a: int)
    requires
        0 <= a <= s.len(),
        forall|i: int| 0 <= i < a ==> (#[trigger] s[i]).1,
        a == s.len() || !s[a].1,
    ensures
        trim_start(s) == s.subrange(a, s.len() as int),
    decreases a,
{
    if a == 0 {
        assert(s.subrange(0, s.len() as int) =~= s);
    } else {
        let r = s.drop_first();
        assert forall|i: int| 0 <= i < a - 1 implies (#[trigger] r[i]).1 by {
            assert(r[i] == s[i + 1]);
        }
        assert(s[0].1);
        lemma_trim_start_at(r, a - 1);
        assert(r.subrange(a - 1, r.len() as int) =~= s.subrange(a, s.len() as int));
    }
}

proof fn lemma_trim_end_at(s: Seq<(char, bool)>, b: int)
    requires
        0 <= b <= s.len(),
        forall|i: int| b <= i < s.len() ==> (#[trigger] s[i]).1,
        b == 0 || !s[b - 1].1,
    ensures
        trim_end(s) == s.subrange(0, b),
    decreases s.len() - b,
{
    if b == s.len() {
        assert(s.subrange(0, b) =~= s);
    } else {
        let r = s.drop_last();
        assert(s[s.len() - 1].1);
        assert forall|i: int| b <= i < r.len() implies (#[trigger] r[i]).1 by {
            assert(r[i] == s[i]);
        }
        lemma_trim_end_at(r, b);
        assert(r.subrange(0, b) =~= s.subrange(0, b));
    }
}

/// The bounds of `line` without its leading and trailing whitespace.
fn trim_bounds(line: &Vec<(char, bool)>) -> (r: (usize, usize))
    ensures
        r.0 <= r.1 <= line@.len(),
        trim(line@) == line@.subrange(r.0 as int, r.1 as int),
{
    let n = line.len();
    let mut a: usize = 0;
    while a < n && line[a].1
        invariant
            0 <= a <= n,
            n == line@.len(),
            forall|i: int| 0 <= i < a ==> (#[trigger] line@[i]).1,
        decreases n - a,
    {
        a = a + 1;
    }
    proof {
        lemma_trim_start_at(line@, a as int);
    }
    let ghost s = line@.subrange(a as int, n as int);
    let mut b: usize = n;
    while b > a && line[b - 1].1
        invariant
            a <= b <= n,
            n == line@.len(),
            s == line@.subrange(a as int, n as int),
            forall|i: int| b <= i < n ==> (#[trigger] line@[i]).1,
        decreases b - a,
    {
        b = b - 1;
    }
    proof {
        assert forall|i: int| b - a <= i < s.len() implies (#[trigger] s[i]).1 by {
            assert(s[i] == line@[a + i]);
        }
        if b > a {
            assert(s[b - a - 1] == line@[b - 1]);
        }
        lemma_trim_end_at(s, b - a);
        assert(s.subrange(0, b - a) =~= line@.subrange(a as int, b as int));
    }
    (a, b)
}

proof fn lemma_field_scan_count(s: Seq<(char, bool)>)
    ensures
        field_scan(s).0.len() + (if field_scan(s).1.len() > 0 {
            1int
        } else {
            0int
        }) <= s.len(),
        forall|i: int|
            0 <= i < field_scan(s).0.len() ==> (#[trigger] field_scan(s).0[i]).len() > 0,
    decreases s.len(),
{
    if s.len() > 0 {
        lemma_field_scan_count(s.drop_last());
    }
}

/// Counts of the rendering so far.
struct Tally {
    sentences: usize,
    switch_tokens: usize,
    keep_tokens: usize,
}

spec fn tally_sum(t: Tally) -> int {
    t.sentences + t.switch_tokens + t.keep_tokens
}

spec fn state_of(text: Seq<char>, t: Tally) -> RenderState {
    RenderState {
        text,
        sentences: t.sentences as nat,
        switch_tokens: t.switch_tokens as nat,
        keep_tokens: t.keep_tokens as nat,
    }
}

fn to_string(v: &Vec<char>) -> (s: String)
    ensures
        s@ == v@,
{
    let s = collect_range(v, 0, v.len());
    proof {
        assert(v@.subrange(0, v@.len() as int) =~= v@);
    }
    s
}

/// Renders one non-empty field of the trimmed line `l`.
fn render_field(f: &Vec<char>, l: &Vec<char>) -> (r: Result<Vec<char>, RenderError>)
    ensures
        match field_output(f@) {
            Some(o) => r matches Ok(v) && v@ == o,
            None => r matches Err(e) && matches_failure(&e, f@, l@),
        },
{
    let n = f.len();
    if n >= 2 && f[0] == '[' && f[n - 1] == ']' {
        let token = collect_range(f, 1, n - 1);
        match detect_direction(token.as_str()) {
            Some(d) => match transliterate(token.as_str(), d) {
                Some(m) => {
                    let mut out: Vec<char> = Vec::new();
                    out.push('{');
                    for c in it: m.chars()
                        invariant
                            it.seq() == m@,
                            out@ == seq!['{'] + m@.take(it.index() as int),
                    {
                        out.push(c);
                        proof {
                            assert(m@.take(it.index() + 1) =~= m@.take(it.index() as int).push(c));
                        }
                    }
                    out.push('}');
                    proof {
                        assert(m@.take(m@.len() as int) =~= m@);
                        assert(out@ =~= seq!['{'] + m@ + seq!['}']);
                    }
                    Ok(out)
                },
                None => Err(RenderError::NotMappable { token }),
            },
            None => Err(RenderError::NoDirection { token, line: to_string(l) }),
        }
    } else {
        let mut out: Vec<char> = Vec::new();
        let mut j: usize = 0;
        while j < n
            invariant
                0 <= j <= n,
                n == f@.len(),
                out@ == f@.take(j as int),
            decreases n - j,
        {
            out.push(f[j]);
            proof {
                assert(f@.take(j + 1) =~= f@.take(j as int).push(f@[j as int]));
            }
            j = j + 1;
        }
        proof {
            assert(f@.take(n as int) =~= f@);
        }
        Ok(out)
    }
}

/// Adds the field `f` of line `l` to the rendered line `out`.
fn finish_field(
    f: &Vec<char>,
    l: &Vec<char>,
    out: &mut Vec<char>,
    first: bool,
    tally: &mut Tally,
    Ghost(done): Ghost<Seq<Seq<char>>>,
) -> (r: Result<(), RenderError>)
    requires
        f@.len() > 0,
        first == (done.len() == 0),
        old(out)@ == joined(done),
        first_failure(done) is None,
        tally_sum(*old(tally)) < usize::MAX,
    ensures
        match field_output(f@) {
            Some(o) => r is Ok && final(out)@ == joined(done.push(f@)) && first_failure(
                done.push(f@),
            ) is None && final(tally).sentences == old(tally).sentences
                && final(tally).switch_tokens + final(tally).keep_tokens == old(tally).switch_tokens
                + old(tally).keep_tokens + 1 && final(tally).switch_tokens
                == old(tally).switch_tokens + if bracketed(f@) {
                1int
            } else {
                0int
            },
            None => r matches Err(e) && matches_failure(&e, f@, l@) && first_failure(
                done.push(f@),
            ) == Some(f@),
        },
{
    let ghost all = done.push(f@);
    proof {
        assert(all.drop_last() =~= done);
    }
    match render_field(f, l) {
        Ok(o) => {
            if !first {
                out.push(' ');
            }
            let ghost before = out@;
            let mut j: usize = 0;
            while j < o.len()
                invariant
                    0 <= j <= o@.len(),
                    out@ == before + o@.take(j as int),
                decreases o@.len() - j,
            {
                out.push(o[j]);
                proof {
                    assert(o@.take(j + 1) =~= o@.take(j as int).push(o@[j as int]));
                }
                j = j + 1;
            }
            proof {
                assert(o@.take(o@.len() as int) =~= o@);
                if first {
                    assert(joined(all) == field_output(all[0])->0);
                    assert(all[0] == f@);
                    assert(out@ =~= o@);
                } else {
                    assert(out@ =~= joined(done) + seq![' '] + o@);
                }
            }
            let n = f.len();
            if n >= 2 && f[0] == '[' && f[n - 1] == ']' {
                tally.switch_tokens = tally.switch_tokens + 1;
            } else {
                tally.keep_tokens = tally.keep_tokens + 1;
            }
            Ok(())
        },
        Err(e) => Err(e),
    }
}

proof fn lemma_joined_count(fs: Seq<Seq<char>>)
    ensures
        count_bracketed(fs) <= fs.len(),
    decreases fs.len(),
{
    if fs.len() > 0 {
        lemma_joined_count(fs.drop_last());
    }
}

/// Renders one untrimmed line of the source.
fn render_one_line(line: &Vec<(char, bool)>, out: &mut Vec<char>, tally: &mut Tally) -> (r: Result<
    (),
    RenderError,
>)
    requires
        tally_sum(*old(tally)) + line@.len() + 1 <= usize::MAX,
    ensures
        match render_line(state_of(old(out)@, *old(tally)), line@) {
            Ok(st) => r is Ok && state_of(final(out)@, *final(tally)) == st && tally_sum(
                *final(tally),
            ) <= tally_sum(*old(tally)) + line@.len() + 1,
            Err((f, l)) => r matches Err(e) && matches_failure(&e, f, l),
        },
{
    let (a, b) = trim_bounds(line);
    let ghost l = line@.subrange(a as int, b as int);
    let ghost lc = plain(l);
    if a == b {
        proof {
            assert(l.len() == 0);
        }
        return Ok(());
    }
    // The trimmed line, marked and plain.
    let mut tm: Vec<(char, bool)> = Vec::new();
    let mut trimmed: Vec<char> = Vec::new();
    let mut j = a;
    while j < b
        invariant
            a <= j <= b <= line@.len(),
            tm@ == line@.subrange(a as int, j as int),
            trimmed@ == plain(tm@),
        decreases b - j,
    {
        tm.push(line[j]);
        trimmed.push(line[j].0);
        proof {
            assert(line@.subrange(a as int, j + 1) =~= line@.subrange(a as int, j as int).push(
                line@[j as int],
            ));
            assert(plain(tm@) =~= trimmed@);
        }
        j = j + 1;
    }
    let n = trimmed.len();
    proof {
        assert(tm@ == l);
        assert(trimmed@ == lc);
        assert(lc.len() == l.len());
    }
    if trimmed[0] == '#' {
        let is_header = n >= 5 && trimmed[1] == ' ' && trimmed[2] == '-' && trimmed[3] == '-'
            && trimmed[4] == '-';
        proof {
            if n >= 5 {
                if is_header {
                    assert(lc.subrange(0, 5) =~= seq!['#', ' ', '-', '-', '-']);
                } else {
                    assert(lc.subrange(0, 5) != seq!['#', ' ', '-', '-', '-']) by {
                        if lc.subrange(0, 5) == seq!['#', ' ', '-', '-', '-'] {
                            assert(lc.subrange(0, 5)[1] == lc[1]);
                            assert(lc.subrange(0, 5)[2] == lc[2]);
                            assert(lc.subrange(0, 5)[3] == lc[3]);
                            assert(lc.subrange(0, 5)[4] == lc[4]);
                        }
                    }
                }
            }
        }
        if is_header {
            let ghost before = out@;
            out.push('\n');
            let mut j: usize = 0;
            while j < n
                invariant
                    0 <= j <= n,
                    n == trimmed@.len(),
                    out@ == before + seq!['\n'] + trimmed@.take(j as int),
                decreases n - j,
            {
                out.push(trimmed[j]);
                proof {
                    assert(trimmed@.take(j + 1) =~= trimmed@.take(j as int).push(trimmed@[j as int]));
                }
                j = j + 1;
            }
            out.push('\n');
            proof {
                assert(trimmed@.take(n as int) =~= trimmed@);
                assert(out@ =~= before + comment_output(lc));
            }
        } else {
            proof {
                assert(out@ =~= out@ + comment_output(lc));
            }
        }
        return Ok(());
    }
    let ghost st0 = state_of(out@, *tally);
    // Split the trimmed line into fields and render them.
    let ghost start_tally = *tally;
    let mut rendered: Vec<char> = Vec::new();
    let mut current: Vec<char> = Vec::new();
    let ghost mut done: Seq<Seq<char>> = Seq::empty();
    let mut first = true;
    let mut j: usize = 0;
    proof {
        assert(l.take(0) =~= Seq::<(char, bool)>::empty());
    }
    while j < n
        invariant
            0 <= j <= n,
            n == trimmed@.len(),
            n == tm@.len(),
            tm@ == l,
            trimmed@ == lc,
            lc == plain(l),
            (done, current@) == field_scan(l.take(j as int)),
            first == (done.len() == 0),
            rendered@ == joined(done),
            first_failure(done) is None,
            tally.sentences == start_tally.sentences,
            tally.switch_tokens == start_tally.switch_tokens + count_bracketed(done),
            tally.switch_tokens + tally.keep_tokens == start_tally.switch_tokens
                + start_tally.keep_tokens + done.len(),
            tally_sum(start_tally) + line@.len() + 1 <= usize::MAX,
            l.len() <= line@.len(),
            l == trim(line@),
            l.len() > 0,
            lc[0] != '#',
        decreases n - j,
    {
        let (c, space) = tm[j];
        proof {
            assert(l.take(j + 1).drop_last() =~= l.take(j as int));
            lemma_field_scan_count(l.take(j as int));
        }
        if space {
            if current.len() > 0 {
                let r = finish_field(&current, &trimmed, &mut rendered, first, tally, Ghost(done));
                match r {
                    Ok(()) => {},
                    Err(e) => {
                        proof {
                            lemma_fields_failure(l, j as int, done, current@);
                            assert(render_line(st0, line@) == Err::<RenderState, (Seq<char>, Seq<char>)>((current@, lc)));
                        }
                        return Err(e);
                    },
                }
                proof {
                    assert(done.push(current@).drop_last() =~= done);
                    done = done.push(current@);
                }
                current = Vec::new();
                first = false;
            }
        } else {
            current.push(c);
        }
        j = j + 1;
    }
    proof {
        assert(l.take(n as int) =~= l);
        lemma_field_scan_count(l);
    }
    if current.len() > 0 {
        let r = finish_field(&current, &trimmed, &mut rendered, first, tally, Ghost(done));
        match r {
            Ok(()) => {},
            Err(e) => {
                proof {
                    assert(fields(l) == done.push(current@));
                    assert(render_line(st0, line@) == Err::<RenderState, (Seq<char>, Seq<char>)>((current@, lc)));
                }
                return Err(e);
            },
        }
        proof {
            assert(done.push(current@).drop_last() =~= done);
            done = done.push(current@);
        }
    }
    proof {
        assert(done == fields(l));
        lemma_joined_count(done);
    }
    // Append the rendered sentence.
    let ghost before = out@;
    let mut k: usize = 0;
    while k < rendered.len()
        invariant
            0 <= k <= rendered@.len(),
            out@ == before + rendered@.take(k as int),
        decreases rendered@.len() - k,
    {
        out.push(rendered[k]);
        proof {
            assert(rendered@.take(k + 1) =~= rendered@.take(k as int).push(rendered@[k as int]));
        }
        k = k + 1;
    }
    out.push('\n');
    tally.sentences = tally.sentences + 1;
    proof {
        assert(rendered@.take(rendered@.len() as int) =~= rendered@);
        assert(out@ =~= before + joined(done) + seq!['\n']);
    }
    Ok(())
}

/// A field that cannot be rendered, met before the end of the line, is the first
/// failure of the whole line.
proof fn lemma_fields_failure(l: Seq<(char, bool)>, j: int, done: Seq<Seq<char>>, f: Seq<char>)
    requires
        0 <= j < l.len(),
        l[j].1,
        f.len() > 0,
        (done, f) == field_scan(l.take(j)),
        first_failure(done.push(f)) == Some(f),
    ensures
        first_failure(fields(l)) == Some(f),
{
    assert(l.take(j + 1).drop_last() =~= l.take(j));
    assert(field_scan(l.take(j + 1)).0 == done.push(f));
    lemma_failure_persists(l, j + 1, done.push(f), f);
}

proof fn lemma_failure_persists(
    l: Seq<(char, bool)>,
    j: int,
    prefix: Seq<Seq<char>>,
    f: Seq<char>,
)
    requires
        0 <= j <= l.len(),
        prefix.is_prefix_of(field_scan(l.take(j)).0),
        first_failure(prefix) == Some(f),
    ensures
        first_failure(fields(l)) == Some(f),
    decreases l.len() - j,
{
    if j < l.len() {
        assert(l.take(j + 1).drop_last() =~= l.take(j));
        let d0 = field_scan(l.take(j)).0;
        let d1 = field_scan(l.take(j + 1)).0;
        assert(prefix.is_prefix_of(d1)) by {
            assert forall|i: int| 0 <= i < prefix.len() implies prefix[i] == d1[i] by {
                assert(prefix[i] == d0[i]);
            }
        }
        lemma_failure_persists(l, j + 1, prefix, f);
    } else {
        assert(l.take(j) =~= l);
        lemma_first_failure_prefix(prefix, fields(l), f);
    }
}

proof fn lemma_first_failure_prefix(prefix: Seq<Seq<char>>, all: Seq<Seq<char>>, f: Seq<char>)
    requires
        prefix.is_prefix_of(all),
        first_failure(prefix) == Some(f),
    ensures
        first_failure(all) == Some(f),
    decreases all.len(),
{
    if all.len() > prefix.len() {
        assert(prefix.is_prefix_of(all.drop_last())) by {
            assert forall|i: int| 0 <= i < prefix.len() implies prefix[i] == all.drop_last()[i] by {
                assert(prefix[i] == all[i]);
            }
        }
        lemma_first_failure_prefix(prefix, all.drop_last(), f);
    } else {
        assert(prefix =~= all);
    }
}

/// Renders the context subcorpus from its characters, each marked with whether it
/// is whitespace: every sentence line as the user would have typed it, family
/// headers carried over, other comments and empty lines dropped. Fails on the first
/// bracketed token that has no layout or does not map.
pub fn render_marked(source: &[(char, bool)]) -> (r: Result<Rendered, RenderError>)
    requires
        source@.len() < usize::MAX,
    ensures
        match render_lines(lines(source@)) {
            Ok(st) => r matches Ok(x) && matches_state(&x, st),
            Err((f, l)) => r matches Err(e) && matches_failure(&e, f, l),
        },
{
    let mut out: Vec<char> = Vec::new();
    let mut tally = Tally { sentences: 0, switch_tokens: 0, keep_tokens: 0 };
    let mut line: Vec<(char, bool)> = Vec::new();
    let ghost mut done: Seq<Seq<(char, bool)>> = Seq::empty();
    let mut i: usize = 0;
    while i < source.len()
        invariant
            0 <= i <= source@.len(),
            source@.len() < usize::MAX,
            (done, line@) == line_scan(source@.take(i as int)),
            render_lines(done) == Ok::<RenderState, (Seq<char>, Seq<char>)>(state_of(out@, tally)),
            tally_sum(tally) + line@.len() <= i,
        decreases source@.len() - i,
    {
        let c = source[i];
        proof {
            assert(source@.take(i + 1).drop_last() =~= source@.take(i as int));
            assert(done.push(line@).drop_last() =~= done);
        }
        if c.0 == '\n' {
            let ghost st = state_of(out@, tally);
            proof {
                assert(line_scan(source@.take(i + 1)).0 == done.push(line@));
                assert(render_lines(done.push(line@)) == render_line(st, line@));
            }
            match render_one_line(&line, &mut out, &mut tally) {
                Ok(()) => {},
                Err(e) => {
                    proof {
                        lemma_lines_failure(source@, i + 1, done.push(line@));
                    }
                    return Err(e);
                },
            }
            proof {
                done = done.push(line@);
            }
            line = Vec::new();
        } else {
            line.push(c);
        }
        i = i + 1;
    }
    proof {
        assert(source@.take(source@.len() as int) =~= source@);
    }
    if line.len() > 0 {
        let ghost st = state_of(out@, tally);
        proof {
            assert(done.push(line@).drop_last() =~= done);
            assert(lines(source@) == done.push(line@));
            assert(render_lines(lines(source@)) == render_line(st, line@));
        }
        match render_one_line(&line, &mut out, &mut tally) {
            Ok(()) => {},
            Err(e) => {
                return Err(e);
            },
        }
    }
    let text = to_string(&out);
    Ok(
        Rendered {
            text,
            sentences: tally.sentences,
            switch_tokens: tally.switch_tokens,
            keep_tokens: tally.keep_tokens,
        },
    )
}

/// Renders the context subcorpus: the characters of `source` are marked with
/// whether they are whitespace, and rendered as `render_marked` does.
pub fn render_context(source: &str) -> (r: Result<Rendered, RenderError>)
    requires
        source@.len() < usize::MAX,
    ensures
        match render_lines(lines(marked(source@))) {
            Ok(st) => r matches Ok(x) && matches_state(&x, st),
            Err((f, l)) => r matches Err(e) && matches_failure(&e, f, l),
        },
{
    let mut chars: Vec<(char, bool)> = Vec::new();
    for c in it: source.chars()
        invariant
            it.seq() == source@,
            chars@ == marked(source@.take(it.index() as int)),
    {
        chars.push((c, is_whitespace(c)));
        proof {
            assert(marked(source@.take(it.index() + 1)) =~= marked(
                source@.take(it.index() as int),
            ).push((c, whitespace(c))));
        }
    }
    proof {
        assert(source@.take(source@.len() as int) =~= source@);
    }
    render_marked(chars.as_slice())
}

/// A line that fails, once completed, makes the whole source fail the same way.
proof fn lemma_lines_failure(s: Seq<(char, bool)>, j: int, prefix: Seq<Seq<(char, bool)>>)
    requires
        0 <= j <= s.len(),
        prefix == line_scan(s.take(j)).0,
        render_lines(prefix) is Err,
    ensures
        render_lines(lines(s)) == render_lines(prefix),
    decreases s.len() - j,
{
    if j < s.len() {
        assert(s.take(j + 1).drop_last() =~= s.take(j));
        let next = line_scan(s.take(j + 1)).0;
        if next != prefix {
            assert(next.drop_last() == prefix);
        }
        lemma_lines_failure(s, j + 1, next);
    } else {
        assert(s.take(j) =~= s);
        if lines(s) != prefix {
            assert(lines(s).drop_last() == prefix);
        }
    }
}

/// A rendered bracketed token is its source token retyped once: retyping what
/// stands between the braces back in the opposite direction gives the token.
pub proof fn lemma_rendered_token_round_trips(f: Seq<char>)
    requires
        bracketed(f),
        field_output(f) is Some,
    ensures
        ({
            let o = field_output(f)->0;
            let d = detected_direction(inner(f))->0;
            transliteration(o.subrange(1, o.len() - 1), d.reversed()) == Some(inner(f))
        }),
{
    let d = detected_direction(inner(f))->0;
    let m = transliteration(inner(f), d)->0;
    let o = field_output(f)->0;
    assert(o.subrange(1, o.len() - 1) =~= m);
    lemma_transliteration_round_trip(inner(f), d);
}

} // verus!
