//! Reading `modules.dep` files: each line `path/to/a.ko: path/to/b.ko ...`
//! says that module `a.ko` depends on the modules listed after the colon.
use vstd::prelude::*;
use vstd::hash_map::StringHashMap;

use super::text::{
    basename, basename_of, basenames, chars_of, lines, trim, trim_range, views, word_basenames,
    words,
};

verus! {

/// The first `:` of `t` is at index `i`.
pub open spec fn first_colon_at(t: Seq<char>, i: int) -> bool {
    &&& 0 <= i < t.len()
    &&& t[i] == ':'
    &&& forall|j: int| 0 <= j < i ==> t[j] != ':'
}

/// The module and the dependencies that one line declares: after trimming,
/// the basename of what precedes the first `:` and the basenames of the words
/// that follow it. A line without `:` declares nothing.
pub open spec fn parse_dep_line(line: Seq<char>) -> Option<(Seq<char>, Seq<Seq<char>>)> {
    let t = trim(line);
    if exists|i: int| first_colon_at(t, i) {
        let i = choose|i: int| first_colon_at(t, i);
        Some((basename(trim(t.take(i))), basenames(words(t.skip(i + 1)))))
    } else {
        None
    }
}

/// What a sequence of lines declares: each module maps to the dependencies of
/// the last line that declares it.
pub open spec fn dep_entries(ls: Seq<Seq<char>>) -> Map<Seq<char>, Seq<Seq<char>>>
    decreases ls.len(),
{
    if ls.len() == 0 {
        Map::empty()
    } else {
        let m = dep_entries(ls.drop_last());
        match parse_dep_line(ls.last()) {
            Some(e) => m.insert(e.0, e.1),
            None => m,
        }
    }
}

/// The dependency map that the text of a `modules.dep` file declares.
pub open spec fn dep_map_of_text(text: Seq<char>) -> Map<Seq<char>, Seq<Seq<char>>> {
    dep_entries(lines(text))
}

/// A map of names to lists of names, taken by value.
pub open spec fn dep_view(m: Map<Seq<char>, Vec<String>>) -> Map<Seq<char>, Seq<Seq<char>>> {
    m.map_values(|v: Vec<String>| views(v@))
}

/// What the line `cs[lo..hi]` declares.
fn parse_line(cs: &Vec<char>, lo: usize, hi: usize) -> (r: Option<(String, Vec<String>)>)
    requires
        lo <= hi <= cs@.len(),
    ensures
        match r {
            Some(e) => parse_dep_line(cs@.subrange(lo as int, hi as int)) == Some(
                (e.0@, views(e.1@)),
            ),
            None => parse_dep_line(cs@.subrange(lo as int, hi as int)) is None,
        },
{
    let ghost line = cs@.subrange(lo as int, hi as int);
    let (a, b) = trim_range(cs, lo, hi);
    let ghost t = cs@.subrange(a as int, b as int);
    let mut c = a;
    while c < b && cs[c] != ':'
        invariant
            a <= c <= b <= cs@.len(),
            forall|k: int| a <= k < c ==> #[trigger] cs@[k] != ':',
        decreases b - c,
    {
        c += 1;
    }
    if c == b {
        proof {
            assert forall|i: int| !first_colon_at(t, i) by {
                if 0 <= i < t.len() {
                    assert(t[i] == cs@[a + i]);
                }
            }
        }
        return None;
    }
    let ghost i = c - a;
    proof {
        assert(first_colon_at(t, i)) by {
            assert forall|j: int| 0 <= j < i implies t[j] != ':' by {
                assert(t[j] == cs@[a + j]);
            }
        }
        let i2 = choose|i: int| first_colon_at(t, i);
        assert(i2 == i) by {
            if i2 < i {
                assert(t[i2] != ':');
            }
            if i < i2 {
                assert(t[i] != ':');
            }
        }
        assert(t.take(i) =~= cs@.subrange(a as int, c as int));
        assert(t.skip(i + 1) =~= cs@.subrange(c + 1, b as int));
    }
    let (a2, b2) = trim_range(cs, a, c);
    let name = basename_of(cs, a2, b2);
    let deps = word_basenames(cs, c + 1, b);
    Some((name, deps))
}

/// How the lines of `cs[0..k+1]` follow from those of `cs[0..k]`.
proof fn lemma_lines_step(cs: Seq<char>, k: int)
    requires
        0 <= k < cs.len(),
    ensures
        ({
            let ls = lines(cs.subrange(0, k));
            lines(cs.subrange(0, k + 1)) == if cs[k] == '\n' {
                ls.push(Seq::<char>::empty())
            } else {
                ls.update(ls.len() - 1, ls.last().push(cs[k]))
            }
        }),
{
    assert(cs.subrange(0, k + 1).drop_last() =~= cs.subrange(0, k));
}

/// Adds what the line `cs[lo..hi]` declares to `map`.
fn add_line(map: &mut StringHashMap<Vec<String>>, cs: &Vec<char>, lo: usize, hi: usize)
    requires
        lo <= hi <= cs@.len(),
        old(map)@.dom().finite(),
    ensures
        final(map)@.dom().finite(),
        dep_view(final(map)@) == match parse_dep_line(cs@.subrange(lo as int, hi as int)) {
            Some(e) => dep_view(old(map)@).insert(e.0, e.1),
            None => dep_view(old(map)@),
        },
{
    match parse_line(cs, lo, hi) {
        Some((name, deps)) => {
            let ghost n = name@;
            let ghost d = deps@;
            map.insert(name, deps);
            proof {
                assert(dep_view(map@) =~= dep_view(old(map)@).insert(n, views(d)));
            }
        },
        None => {},
    }
}

/// The dependency map declared by the text of a `modules.dep` file.
pub fn parse_dep_text(text: &str) -> (map: StringHashMap<Vec<String>>)
    ensures
        map@.dom().finite(),
        dep_view(map@) == dep_map_of_text(text@),
{
    let cs = chars_of(text);
    let ghost s = cs@;
    let mut map: StringHashMap<Vec<String>> = StringHashMap::new();
    let ghost mut done: Seq<Seq<char>> = Seq::empty();
    let mut start: usize = 0;
    let mut k: usize = 0;
    proof {
        assert(s.subrange(0, 0) =~= Seq::<char>::empty());
        assert(lines(s.subrange(0, 0)) == done.push(s.subrange(0, 0)));
        assert(dep_view(map@) =~= dep_entries(done));
    }
    while k < cs.len()
        invariant
            s == cs@,
            start <= k <= s.len(),
            lines(s.subrange(0, k as int)) == done.push(s.subrange(start as int, k as int)),
            map@.dom().finite(),
            dep_view(map@) == dep_entries(done),
        decreases s.len() - k,
    {
        proof {
            lemma_lines_step(s, k as int);
        }
        if cs[k] == '\n' {
            add_line(&mut map, &cs, start, k);
            proof {
                let line = s.subrange(start as int, k as int);
                assert(done.push(line).drop_last() =~= done);
                done = done.push(line);
                assert(s.subrange(k + 1, k + 1) =~= Seq::<char>::empty());
            }
            start = k + 1;
        } else {
            proof {
                let ls = done.push(s.subrange(start as int, k as int));
                assert(s.subrange(start as int, k as int).push(s[k as int]) =~= s.subrange(
                    start as int,
                    k + 1,
                ));
                assert(ls.update(ls.len() - 1, ls.last().push(s[k as int])) =~= done.push(
                    s.subrange(start as int, k + 1),
                ));
            }
        }
        k += 1;
    }
    add_line(&mut map, &cs, start, k);
    proof {
        let ls = done.push(s.subrange(start as int, k as int));
        assert(ls.drop_last() =~= done);
        assert(s.subrange(0, k as int) =~= s);
        assert(s == text@);
    }
    map
}

} // verus!

verus! {

/// The characters that `String::from_utf8_lossy` decodes from `bytes`.
pub uninterp spec fn utf8_lossy(bytes: Seq<u8>) -> Seq<char>;

/// The characters of ASCII bytes, one for each.
pub open spec fn ascii_chars(bytes: Seq<u8>) -> Seq<char> {
    bytes.map_values(|b: u8| b as char)
}

/// Decodes `bytes` with `String::from_utf8_lossy`, which keeps valid UTF-8
/// and puts U+FFFD in place of each invalid sequence. The characters that
/// come out are named here (`utf8_lossy`); of them it is stated only that
/// ASCII bytes, which are valid UTF-8, come out as the same characters.
#[verifier::external_body]
fn decode_utf8_lossy(bytes: &[u8]) -> (s: String)
    ensures
        s@ == utf8_lossy(bytes@),
        (forall|i: int| 0 <= i < bytes@.len() ==> #[trigger] bytes@[i] < 128) ==> s@ == ascii_chars(
            bytes@,
        ),
{
    String::from_utf8_lossy(bytes).into_owned()
}

/// Parses the contents of a `modules.dep` file: a map from each declared
/// module's basename to the basenames of its dependencies.
pub fn parse_dep_file(data: &[u8]) -> (map: StringHashMap<Vec<String>>)
    ensures
        map@.dom().finite(),
        dep_view(map@) == dep_map_of_text(utf8_lossy(data@)),
        (forall|i: int| 0 <= i < data@.len() ==> #[trigger] data@[i] < 128) ==> dep_view(map@)
            == dep_map_of_text(ascii_chars(data@)),
{
    let text = decode_utf8_lossy(data);
    parse_dep_text(text.as_str())
}

} // verus!
