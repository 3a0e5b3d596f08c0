//! The character-level vocabulary of dependency files: white space, trimming,
//! words, lines and path basenames.
use vstd::prelude::*;

verus! {

/// `c` has the Unicode `White_Space` property.
pub open spec fn is_space(c: char) -> bool {
    let u = c as u32;
    ||| 0x09 <= u <= 0x0D
    ||| u == 0x20
    ||| u == 0x85
    ||| u == 0xA0
    ||| u == 0x1680
    ||| 0x2000 <= u <= 0x200A
    ||| u == 0x2028
    ||| u == 0x2029
    ||| u == 0x202F
    ||| u == 0x205F
    ||| u == 0x3000
}

/// Whether `c` is white space.
pub fn char_is_space(c: char) -> (b: bool)
    ensures
        b == is_space(c),
{
    let u = c as u32;
    (0x09 <= u && u <= 0x0D) || u == 0x20 || u == 0x85 || u == 0xA0 || u == 0x1680 || (0x2000
        <= u && u <= 0x200A) || u == 0x2028 || u == 0x2029 || u == 0x202F || u == 0x205F || u
        == 0x3000
}

/// The characters of `s`, in order.
pub fn chars_of(s: &str) -> (cs: Vec<char>)
    ensures
        cs@ == s@,
{
    let mut cs: Vec<char> = Vec::new();
    for c in it: s.chars()
        invariant
            cs@ == it.seq().take(it.index()),
    {
        cs.push(c);
    }
    assert(cs@ == s@);
    cs
}

} // verus!

verus! {

/// `s` without its leading white space.
pub open spec fn trim_start(s: Seq<char>) -> Seq<char>
    decreases s.len(),
{
    if s.len() > 0 && is_space(s[0]) {
        trim_start(s.drop_first())
    } else {
        s
    }
}

/// `s` without its trailing white space.
pub open spec fn trim_end(s: Seq<char>) -> Seq<char>
    decreases s.len(),
{
    if s.len() > 0 && is_space(s.last()) {
        trim_end(s.drop_last())
    } else {
        s
    }
}

/// `s` without leading and trailing white space.
pub open spec fn trim(s: Seq<char>) -> Seq<char> {
    trim_end(trim_start(s))
}

/// The part of `s` after its last `/` (all of `s` when it has none).
pub open spec fn basename(s: Seq<char>) -> Seq<char>
    decreases s.len(),
{
    if s.len() == 0 {
        s
    } else if s.last() == '/' {
        Seq::empty()
    } else {
        basename(s.drop_last()).push(s.last())
    }
}

/// The maximal runs of non-white-space characters of `s`, in order.
pub open spec fn words(s: Seq<char>) -> Seq<Seq<char>>
    decreases s.len(),
{
    if s.len() == 0 {
        Seq::empty()
    } else {
        let ws = words(s.drop_last());
        if is_space(s.last()) {
            ws
        } else if s.len() >= 2 && !is_space(s[s.len() - 2]) {
            ws.update(ws.len() - 1, ws.last().push(s.last()))
        } else {
            ws.push(seq![s.last()])
        }
    }
}

/// The pieces of `s` between line feeds; a text without line feeds is one
/// line.
pub open spec fn lines(s: Seq<char>) -> Seq<Seq<char>>
    decreases s.len(),
{
    if s.len() == 0 {
        seq![Seq::<char>::empty()]
    } else {
        let ls = lines(s.drop_last());
        if s.last() == '\n' {
            ls.push(Seq::<char>::empty())
        } else {
            ls.update(ls.len() - 1, ls.last().push(s.last()))
        }
    }
}

pub proof fn lemma_lines_nonempty(s: Seq<char>)
    ensures
        lines(s).len() >= 1,
    decreases s.len(),
{
    if s.len() > 0 {
        lemma_lines_nonempty(s.drop_last());
    }
}

proof fn lemma_words_ends_with_word(s: Seq<char>)
    requires
        s.len() > 0,
        !is_space(s.last()),
    ensures
        words(s).len() >= 1,
    decreases s.len(),
{
    if s.len() >= 2 && !is_space(s[s.len() - 2]) {
        assert(s.drop_last().last() == s[s.len() - 2]);
        lemma_words_ends_with_word(s.drop_last());
    }
}

/// Skipping white space at the front of `cs[lo..hi]` up to `a` is trimming it.
proof fn lemma_trim_start_at(cs: Seq<char>, lo: int, a: int, hi: int)
    requires
        0 <= lo <= a <= hi <= cs.len(),
        forall|k: int| lo <= k < a ==> is_space(#[trigger] cs[k]),
        a == hi || !is_space(cs[a]),
    ensures
        trim_start(cs.subrange(lo, hi)) == cs.subrange(a, hi),
    decreases a - lo,
{
    if lo < a {
        assert(cs.subrange(lo, hi).drop_first() =~= cs.subrange(lo + 1, hi));
        lemma_trim_start_at(cs, lo + 1, a, hi);
    }
}

/// Dropping white space at the back of `cs[a..hi]` down to `b` is trimming it.
proof fn lemma_trim_end_at(cs: Seq<char>, a: int, b: int, hi: int)
    requires
        0 <= a <= b <= hi <= cs.len(),
        forall|k: int| b <= k < hi ==> is_space(#[trigger] cs[k]),
        b == a || !is_space(cs[b - 1]),
    ensures
        trim_end(cs.subrange(a, hi)) == cs.subrange(a, b),
    decreases hi - b,
{
    if b < hi {
        assert(cs.subrange(a, hi).drop_last() =~= cs.subrange(a, hi - 1));
        lemma_trim_end_at(cs, a, b, hi - 1);
    }
}

/// With no `/` in `cs[j..hi]` and a `/` (or the start) just before `j`, the
/// basename of `cs[lo..hi]` is `cs[j..hi]`.
proof fn lemma_basename_at(cs: Seq<char>, lo: int, j: int, hi: int)
    requires
        0 <= lo <= j <= hi <= cs.len(),
        forall|k: int| j <= k < hi ==> #[trigger] cs[k] != '/',
        j == lo || cs[j - 1] == '/',
    ensures
        basename(cs.subrange(lo, hi)) == cs.subrange(j, hi),
    decreases hi - j,
{
    let s = cs.subrange(lo, hi);
    if hi > lo {
        assert(s.drop_last() =~= cs.subrange(lo, hi - 1));
        if j == hi {
            assert(s.last() == '/');
        } else {
            lemma_basename_at(cs, lo, j, hi - 1);
            assert(cs.subrange(j, hi - 1).push(cs[hi - 1]) =~= cs.subrange(j, hi));
        }
    } else {
        assert(s =~= cs.subrange(j, hi));
    }
}

/// The range `[a, b)` of `cs` with its white space trimmed off both ends.
pub fn trim_range(cs: &Vec<char>, lo: usize, hi: usize) -> (r: (usize, usize))
    requires
        lo <= hi <= cs@.len(),
    ensures
        lo <= r.0 <= r.1 <= hi,
        cs@.subrange(r.0 as int, r.1 as int) == trim(cs@.subrange(lo as int, hi as int)),
{
    let mut a = lo;
    while a < hi && char_is_space(cs[a])
        invariant
            lo <= a <= hi <= cs@.len(),
            forall|k: int| lo <= k < a ==> is_space(#[trigger] cs@[k]),
        decreases hi - a,
    {
        a += 1;
    }
    let mut b = hi;
    while b > a && char_is_space(cs[b - 1])
        invariant
            lo <= a <= b <= hi <= cs@.len(),
            forall|k: int| b <= k < hi ==> is_space(#[trigger] cs@[k]),
        decreases b - a,
    {
        b -= 1;
    }
    proof {
        lemma_trim_start_at(cs@, lo as int, a as int, hi as int);
        lemma_trim_end_at(cs@, a as int, b as int, hi as int);
    }
    (a, b)
}

/// `String::push`: appends the character `c` to `s`.
#[verifier::external_body]
fn push_char(s: &mut String, c: char)
    ensures
        final(s)@ == old(s)@.push(c),
{
    s.push(c);
}

/// The characters `cs[from..to]` as a `String`.
fn string_of(cs: &Vec<char>, from: usize, to: usize) -> (s: String)
    requires
        from <= to <= cs@.len(),
    ensures
        s@ == cs@.subrange(from as int, to as int),
{
    let mut s = String::new();
    let mut i: usize = from;
    while i < to
        invariant
            from <= i <= to,
            to <= cs@.len(),
            s@ == cs@.subrange(from as int, i as int),
        decreases to - i,
    {
        push_char(&mut s, cs[i]);
        proof {
            assert(cs@.subrange(from as int, i + 1) =~= cs@.subrange(from as int, i as int).push(
                cs@[i as int],
            ));
        }
        i += 1;
    }
    s
}

/// The basename of `cs[lo..hi]` as a `String`.
pub fn basename_of(cs: &Vec<char>, lo: usize, hi: usize) -> (s: String)
    requires
        lo <= hi <= cs@.len(),
    ensures
        s@ == basename(cs@.subrange(lo as int, hi as int)),
{
    let mut j = hi;
    while j > lo && cs[j - 1] != '/'
        invariant
            lo <= j <= hi <= cs@.len(),
            forall|k: int| j <= k < hi ==> #[trigger] cs@[k] != '/',
        decreases j - lo,
    {
        j -= 1;
    }
    proof {
        lemma_basename_at(cs@, lo as int, j as int, hi as int);
    }
    string_of(cs, j, hi)
}

} // verus!

verus! {

/// The views of a sequence of strings.
pub open spec fn views(v: Seq<String>) -> Seq<Seq<char>> {
    v.map_values(|s: String| s@)
}

/// The basename of each path in `ws`.
pub open spec fn basenames(ws: Seq<Seq<char>>) -> Seq<Seq<char>> {
    ws.map_values(|w: Seq<char>| basename(w))
}

/// How the words of `cs[lo..k+1]` follow from those of `cs[lo..k]`.
proof fn lemma_words_step(cs: Seq<char>, lo: int, k: int)
    requires
        0 <= lo <= k < cs.len(),
    ensures
        is_space(cs[k]) ==> words(cs.subrange(lo, k + 1)) == words(cs.subrange(lo, k)),
        !is_space(cs[k]) && (k == lo || is_space(cs[k - 1])) ==> words(cs.subrange(lo, k + 1))
            == words(cs.subrange(lo, k)).push(seq![cs[k]]),
        !is_space(cs[k]) && k > lo && !is_space(cs[k - 1]) ==> {
            let ws = words(cs.subrange(lo, k));
            words(cs.subrange(lo, k + 1)) == ws.update(ws.len() - 1, ws.last().push(cs[k]))
        },
{
    let s = cs.subrange(lo, k + 1);
    assert(s.drop_last() =~= cs.subrange(lo, k));
}

/// The basenames of the white-space separated words of `cs[lo..hi]`.
pub fn word_basenames(cs: &Vec<char>, lo: usize, hi: usize) -> (out: Vec<String>)
    requires
        lo <= hi <= cs@.len(),
    ensures
        views(out@) == basenames(words(cs@.subrange(lo as int, hi as int))),
{
    let ghost s = cs@;
    let mut out: Vec<String> = Vec::new();
    let mut i = lo;
    assert(words(s.subrange(lo as int, lo as int)) =~= Seq::<Seq<char>>::empty());
    assert(views(out@) =~= Seq::<Seq<char>>::empty());
    while i < hi
        invariant
            s == cs@,
            lo <= i <= hi <= s.len(),
            views(out@) == basenames(words(s.subrange(lo as int, i as int))),
            i == lo || i == hi || is_space(s[i - 1]) || is_space(s[i as int]),
        decreases hi - i,
    {
        if char_is_space(cs[i]) {
            proof {
                lemma_words_step(s, lo as int, i as int);
            }
            i += 1;
        } else {
            let start = i;
            let ghost w = words(s.subrange(lo as int, start as int));
            proof {
                lemma_words_step(s, lo as int, i as int);
                assert(seq![s[start as int]] =~= s.subrange(start as int, start as int + 1));
            }
            i += 1;
            while i < hi && !char_is_space(cs[i])
                invariant
                    s == cs@,
                    lo <= start < i <= hi <= s.len(),
                    !is_space(s[i - 1]),
                    words(s.subrange(lo as int, i as int)) == w.push(
                        s.subrange(start as int, i as int),
                    ),
                decreases hi - i,
            {
                proof {
                    lemma_words_step(s, lo as int, i as int);
                    let ws = w.push(s.subrange(start as int, i as int));
                    assert(ws.last() == s.subrange(start as int, i as int));
                    assert(s.subrange(start as int, i as int).push(s[i as int]) =~= s.subrange(
                        start as int,
                        i as int + 1,
                    ));
                    assert(ws.update(ws.len() - 1, ws.last().push(s[i as int])) =~= w.push(
                        s.subrange(start as int, i as int + 1),
                    ));
                }
                i += 1;
            }
            let b = basename_of(cs, start, i);
            let ghost before = out@;
            out.push(b);
            proof {
                assert(views(out@) =~= views(before).push(b@));
                assert(basenames(w.push(s.subrange(start as int, i as int))) =~= basenames(w).push(
                    basename(s.subrange(start as int, i as int)),
                ));
            }
        }
    }
    out
}

} // verus!
