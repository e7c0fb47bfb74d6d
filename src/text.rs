use vstd::prelude::*;

verus! {

/// The word-boundary marker, U+0120: a non-ASCII sentinel prefixed to the
/// symbol that follows a space.
pub const MARKER: char = '\u{120}';

/// Whether `c` has the Unicode `White_Space` property: the 25 code points
/// U+0009..U+000D, U+0020, U+0085, U+00A0, U+1680, U+2000..U+200A, U+2028,
/// U+2029, U+202F, U+205F and U+3000.
pub open spec fn is_ws(c: char) -> bool {
    let u = c as u32;
    (0x9 <= u <= 0xd) || u == 0x20 || u == 0x85 || u == 0xa0 || u == 0x1680 || (0x2000 <= u
        <= 0x200a) || u == 0x2028 || u == 0x2029 || u == 0x202f || u == 0x205f || u == 0x3000
}

/// Whether `c` is whitespace, as `char::is_whitespace` answers.
pub(crate) fn char_is_whitespace(c: char) -> (r: bool)
    ensures
        r == is_ws(c),
{
    let u = c as u32;
    (0x9 <= u && u <= 0xd) || u == 0x20 || u == 0x85 || u == 0xa0 || u == 0x1680 || (0x2000 <= u
        && u <= 0x200a) || u == 0x2028 || u == 0x2029 || u == 0x202f || u == 0x205f || u == 0x3000
}

/// Relies on `String::push`: appends one character.
#[verifier::external_body]
pub(crate) fn push_char(s: &mut String, c: char)
    ensures
        final(s)@ == old(s)@.push(c),
{
    s.push(c)
}

/// The characters of `s`, in order.
pub fn chars_of(s: &str) -> (r: Vec<char>)
    ensures
        r@ == s@,
{
    let mut out: Vec<char> = Vec::new();
    for c in it: s.chars()
        invariant
            out@ == it.seq().take(it.index() as int),
    {
        out.push(c);
    }
    out
}

/// The string holding the characters of `v`.
pub fn string_of(v: &[char]) -> (r: String)
    ensures
        r@ == v@,
{
    let mut out = String::new();
    let mut i: usize = 0;
    while i < v.len()
        invariant
            i <= v@.len(),
            out@ == v@.take(i as int),
        decreases v.len() - i,
    {
        push_char(&mut out, v[i]);
        assert(v@.take(i + 1) =~= v@.take(i as int).push(v@[i as int]));
        i += 1;
    }
    assert(v@.take(v@.len() as int) =~= v@);
    out
}

/// A space that is not the first character becomes the marker; a leading
/// space is dropped; every other character is kept.
pub open spec fn marked_text(t: Seq<char>) -> Seq<char> {
    if t.len() == 0 {
        t
    } else {
        let head: Seq<char> = if t[0] == ' ' {
            seq![]
        } else {
            seq![t[0]]
        };
        head + t.drop_first().map_values(|c: char| if c == ' ' { MARKER } else { c })
    }
}

/// The symbol stream that training works on.
pub fn preprocess(t: &[char]) -> (r: Vec<char>)
    ensures
        r@ == marked_text(t@),
{
    let mut out: Vec<char> = Vec::new();
    let mut i: usize = 0;
    while i < t.len()
        invariant
            i <= t@.len(),
            i > 0 ==> out@ == marked_text(t@.take(i as int)),
            i == 0 ==> out@.len() == 0,
        decreases t.len() - i,
    {
        let c = t[i];
        if c == ' ' && i != 0 {
            out.push(MARKER);
        } else if c != ' ' {
            out.push(c);
        }
        proof {
            let p = t@.take(i + 1);
            let q = t@.take(i as int);
            if i > 0 {
                assert(p.drop_first() =~= q.drop_first().push(c));
                assert(marked_text(p) =~= marked_text(q).push(if c == ' ' { MARKER } else { c }));
            } else {
                assert(p.drop_first().len() == 0);
                assert(marked_text(p) =~= out@);
            }
        }
        i += 1;
    }
    assert(t@.take(t@.len() as int) =~= t@);
    out
}

/// The maximal runs of non-whitespace characters of `s`, in order.
pub open spec fn split_words(s: Seq<char>) -> Seq<Seq<char>>
    decreases s.len(),
{
    if s.len() == 0 {
        seq![]
    } else {
        let w = split_words(s.drop_last());
        let c = s.last();
        if is_ws(c) {
            w
        } else if s.len() >= 2 && !is_ws(s[s.len() - 2]) && w.len() > 0 {
            w.drop_last().push(w.last().push(c))
        } else {
            w.push(seq![c])
        }
    }
}

proof fn lemma_split_words_nonempty(s: Seq<char>)
    requires
        s.len() > 0,
        !is_ws(s.last()),
    ensures
        split_words(s).len() > 0,
    decreases s.len(),
{
}

/// Splits `t` at whitespace, dropping the whitespace.
pub fn words_of(t: &[char]) -> (r: Vec<Vec<char>>)
    ensures
        r@.map_values(|w: Vec<char>| w@) == split_words(t@),
{
    let mut words: Vec<Vec<char>> = Vec::new();
    let mut cur: Vec<char> = Vec::new();
    let mut i: usize = 0;
    while i < t.len()
        invariant
            i <= t@.len(),
            cur@.len() > 0 <==> (i > 0 && !is_ws(t@[i - 1])),
            cur@.len() == 0 ==> words@.map_values(|w: Vec<char>| w@) == split_words(
                t@.take(i as int),
            ),
            cur@.len() > 0 ==> words@.map_values(|w: Vec<char>| w@).push(cur@) == split_words(
                t@.take(i as int),
            ),
        decreases t.len() - i,
    {
        let c = t[i];
        let ws = char_is_whitespace(c);
        let ghost p = t@.take(i + 1);
        assert(p.drop_last() =~= t@.take(i as int));
        if ws {
            if cur.len() > 0 {
                let w = cur;
                words.push(w);
                cur = Vec::new();
                assert(words@.map_values(|w: Vec<char>| w@) =~= split_words(t@.take(i as int)));
            }
        } else {
            if cur.len() > 0 {
                proof {
                    lemma_split_words_nonempty(t@.take(i as int));
                }
                cur.push(c);
            } else {
                cur.push(c);
                assert(cur@ =~= seq![c]);
            }
            assert(words@.map_values(|w: Vec<char>| w@).push(cur@) =~= split_words(p));
        }
        i += 1;
    }
    if cur.len() > 0 {
        words.push(cur);
    }
    assert(t@.take(t@.len() as int) =~= t@);
    assert(words@.map_values(|w: Vec<char>| w@) =~= split_words(t@));
    words
}

} // verus!
