use crate::text::split_words;
use vstd::prelude::*;

verus! {

/// One merge-table entry as the persisted merge list holds it: the pair of
/// parent IDs and the merged ID.
pub struct BpeMerge {
    pub pair: Vec<usize>,
    pub new_id: usize,
}

/// Whether `c` is an ASCII decimal digit.
pub open spec fn is_digit(c: char) -> bool {
    48 <= (c as u32) <= 57
}

/// The value of a string of decimal digits.
pub open spec fn digits_value(s: Seq<char>) -> nat
    decreases s.len(),
{
    if s.len() == 0 {
        0
    } else {
        digits_value(s.drop_last()) * 10 + ((s.last() as u32) - 48) as nat
    }
}

/// The number that `s` spells in decimal, with an optional leading `+`, if it
/// fits in `usize`.
pub open spec fn parsed_id(s: Seq<char>) -> Option<usize> {
    let d = unsigned_part(s);
    if d.len() > 0 && all_digits(d) && digits_value(d) <= usize::MAX {
        Some(digits_value(d) as usize)
    } else {
        None
    }
}

/// `s` without a leading `+`.
pub open spec fn unsigned_part(s: Seq<char>) -> Seq<char> {
    if s.len() > 0 && s[0] == '+' {
        s.drop_first()
    } else {
        s
    }
}

/// Every character of `d` is a decimal digit.
pub open spec fn all_digits(d: Seq<char>) -> bool {
    forall|i: int| 0 <= i < d.len() ==> is_digit(#[trigger] d[i])
}

/// `parsed_id(s)`, or 0 where there is none.
pub open spec fn id_or_zero(s: Seq<char>) -> usize {
    match parsed_id(s) {
        Some(v) => v,
        None => 0,
    }
}

/// The vocabulary insertions that a native vocabulary document (ID text, token
/// text) stands for.
pub open spec fn native_vocab_log(doc: Seq<(String, String)>) -> Seq<(usize, Seq<char>)> {
    doc.map_values(|e: (String, String)| (id_or_zero(e.0@), e.1@))
}

/// The vocabulary insertions that an imported vocabulary document (token
/// text, ID text) stands for.
pub open spec fn imported_vocab_log(doc: Seq<(String, String)>) -> Seq<(usize, Seq<char>)> {
    doc.map_values(|e: (String, String)| (id_or_zero(e.1@), e.0@))
}

/// The merge insertions that a merge list stands for: entries whose pair does
/// not have two IDs are left out.
pub open spec fn native_merge_log(ms: Seq<BpeMerge>) -> Seq<(usize, usize, usize)>
    decreases ms.len(),
{
    if ms.len() == 0 {
        seq![]
    } else {
        let rest = native_merge_log(ms.drop_last());
        let m = ms.last();
        if m.pair@.len() == 2 {
            rest.push((m.pair@[0], m.pair@[1], m.new_id))
        } else {
            rest
        }
    }
}

/// The lines of `s`: the pieces between newline characters.
pub open spec fn split_lines(s: Seq<char>) -> Seq<Seq<char>>
    decreases s.len(),
{
    if s.len() == 0 {
        seq![seq![]]
    } else {
        let ls = split_lines(s.drop_last());
        if s.last() == '\n' {
            ls.push(seq![])
        } else {
            ls.drop_last().push(ls.last().push(s.last()))
        }
    }
}

/// The lines of a file: the pieces between newline characters, where a final
/// newline ends the last line rather than starting an empty one.
pub open spec fn file_lines(s: Seq<char>) -> Seq<Seq<char>> {
    if s.len() == 0 || s.last() == '\n' {
        split_lines(s).drop_last()
    } else {
        split_lines(s)
    }
}

/// The lines of a merges file that hold merges: a first line that starts with
/// `#` is a header.
pub open spec fn merge_lines(s: Seq<char>) -> Seq<Seq<char>> {
    let ls = file_lines(s);
    if ls.len() > 0 && ls[0].len() > 0 && ls[0][0] == '#' {
        ls.drop_first()
    } else {
        ls
    }
}

/// Whether a merges-file line can give a merge: it has exactly two words, and
/// both tokens and their concatenation are in the vocabulary.
pub open spec fn line_usable(inv: Map<Seq<char>, usize>, line: Seq<char>) -> bool {
    let ws = split_words(line);
    ws.len() == 2 && inv.contains_key(ws[0]) && inv.contains_key(ws[1]) && inv.contains_key(ws[0] + ws[1])
}

/// The ranks (counted from 1) of the lines that cannot give a merge.
pub open spec fn unusable_ranks(inv: Map<Seq<char>, usize>, lines: Seq<Seq<char>>) -> Seq<usize>
    decreases lines.len(),
{
    if lines.len() == 0 {
        seq![]
    } else if line_usable(inv, lines.last()) {
        unusable_ranks(inv, lines.drop_last())
    } else {
        unusable_ranks(inv, lines.drop_last()).push(lines.len() as usize)
    }
}

/// The merge table after one line `"left right"` of a merges file: the entry is
/// added when both tokens and their concatenation are in the vocabulary and the
/// pair is not in the table yet; the line is skipped otherwise.
pub open spec fn import_line(
    inv: Map<Seq<char>, usize>,
    m: Map<(usize, usize), usize>,
    line: Seq<char>,
) -> Map<(usize, usize), usize> {
    let ws = split_words(line);
    if ws.len() == 2 && inv.contains_key(ws[0]) && inv.contains_key(ws[1]) && inv.contains_key(
        ws[0] + ws[1],
    ) && !m.contains_key((inv[ws[0]], inv[ws[1]])) {
        m.insert((inv[ws[0]], inv[ws[1]]), inv[ws[0] + ws[1]])
    } else {
        m
    }
}

/// The merge table after the given lines, in order.
pub open spec fn import_lines(
    inv: Map<Seq<char>, usize>,
    m: Map<(usize, usize), usize>,
    lines: Seq<Seq<char>>,
) -> Map<(usize, usize), usize>
    decreases lines.len(),
{
    if lines.len() == 0 {
        m
    } else {
        import_line(inv, import_lines(inv, m, lines.drop_last()), lines.last())
    }
}

/// The ASCII digit for `k < 10`.
pub open spec fn digit_char(k: nat) -> char {
    ((48 + k) as u8) as char
}

/// The decimal spelling of `n`, without leading zeros.
pub open spec fn decimal_digits(n: nat) -> Seq<char>
    decreases n,
{
    if n < 10 {
        seq![digit_char(n)]
    } else {
        decimal_digits(n / 10).push(digit_char(n % 10))
    }
}

proof fn lemma_decimal_digits_value(n: nat)
    ensures
        decimal_digits(n).len() > 0,
        all_digits(decimal_digits(n)),
        digits_value(decimal_digits(n)) == n,
    decreases n,
{
    if n < 10 {
        assert(decimal_digits(n).drop_last() =~= Seq::<char>::empty());
        assert(digit_char(n) as u32 == 48 + n);
        assert(digits_value(decimal_digits(n)) == digits_value(Seq::<char>::empty()) * 10 + ((digit_char(n) as u32) - 48) as nat);
    } else {
        lemma_decimal_digits_value(n / 10);
        assert(digit_char(n % 10) as u32 == 48 + n % 10);
        assert(n == (n / 10) * 10 + n % 10);
        let d = decimal_digits(n);
        assert(d.drop_last() =~= decimal_digits(n / 10));
        assert(d.last() == digit_char(n % 10));
        assert(digits_value(d) == digits_value(decimal_digits(n / 10)) * 10 + ((d.last() as u32) - 48) as nat);
        assert forall|i: int| 0 <= i < d.len() implies is_digit(#[trigger] d[i]) by {
            if i < d.len() - 1 {
                assert(d[i] == decimal_digits(n / 10)[i]);
            }
        }
    }
}

/// Reading back the decimal spelling of an ID gives the ID.
pub proof fn lemma_parse_decimal(n: usize)
    ensures
        parsed_id(decimal_digits(n as nat)) == Some(n),
{
    lemma_decimal_digits_value(n as nat);
    let d = decimal_digits(n as nat);
    assert(is_digit(d[0]));
    assert(unsigned_part(d) == d);
}

/// The decimal spelling of `n`.
pub fn id_text(n: usize) -> (r: String)
    ensures
        r@ == decimal_digits(n as nat),
{
    let mut out: Vec<char> = Vec::new();
    let mut m: usize = n;
    while m >= 10
        invariant
            decimal_digits(n as nat) == decimal_digits(m as nat) + out@,
        decreases m,
    {
        let d: u8 = (m % 10) as u8;
        let c = (48 + d) as char;
        assert(c == digit_char((m % 10) as nat));
        assert(decimal_digits(m as nat) == decimal_digits((m / 10) as nat).push(c));
        let ghost prev = out@;
        out.insert(0, c);
        assert(decimal_digits((m / 10) as nat).push(c) + prev =~= decimal_digits((m / 10) as nat) + out@);
        m = m / 10;
    }
    let c = (48 + (m as u8)) as char;
    assert(c == digit_char(m as nat));
    out.insert(0, c);
    assert(decimal_digits(n as nat) =~= out@);
    crate::text::string_of(&out)
}

/// The lines of the text `t`.
pub fn lines_of(t: &[char]) -> (r: Vec<Vec<char>>)
    ensures
        r@.map_values(|l: Vec<char>| l@) == file_lines(t@),
{
    let mut lines: Vec<Vec<char>> = Vec::new();
    let mut cur: Vec<char> = Vec::new();
    let mut i: usize = 0;
    assert(t@.take(0) =~= Seq::<char>::empty());
    assert(lines@.map_values(|l: Vec<char>| l@).push(cur@) =~= split_lines(t@.take(0)));
    while i < t.len()
        invariant
            i <= t@.len(),
            lines@.map_values(|l: Vec<char>| l@).push(cur@) == split_lines(t@.take(i as int)),
        decreases t.len() - i,
    {
        let c = t[i];
        assert(t@.take(i + 1).drop_last() =~= t@.take(i as int));
        let ghost before = split_lines(t@.take(i as int));
        if c == '\n' {
            let done = cur;
            lines.push(done);
            cur = Vec::new();
            assert(lines@.map_values(|l: Vec<char>| l@).push(cur@) =~= before.push(seq![]));
        } else {
            let ghost old_lines = lines@.map_values(|l: Vec<char>| l@);
            cur.push(c);
            assert(old_lines.push(cur@) =~= before.drop_last().push(before.last().push(c)));
        }
        i += 1;
    }
    assert(t@.take(t@.len() as int) =~= t@);
    if t.len() == 0 || t[t.len() - 1] == '\n' {
        assert(lines@.map_values(|l: Vec<char>| l@) =~= split_lines(t@).drop_last());
    } else {
        lines.push(cur);
        assert(lines@.map_values(|l: Vec<char>| l@) =~= split_lines(t@));
    }
    lines
}

proof fn lemma_digits_value_step(s: Seq<char>, c: char)
    ensures
        digits_value(s.push(c)) == digits_value(s) * 10 + ((c as u32) - 48) as nat,
{
    assert(s.push(c).drop_last() =~= s);
}

proof fn lemma_digits_value_grows(s: Seq<char>, k: int)
    requires
        0 <= k <= s.len(),
        forall|i: int| 0 <= i < s.len() ==> is_digit(#[trigger] s[i]),
    ensures
        digits_value(s.take(k)) <= digits_value(s),
    decreases s.len() - k,
{
    if k < s.len() {
        lemma_digits_value_grows(s, k + 1);
        assert(s.take(k + 1).drop_last() =~= s.take(k));
    } else {
        assert(s.take(k) =~= s);
    }
}

/// Reads a decimal ID, as `str::parse::<usize>` does.
pub fn parse_id(s: &[char]) -> (r: Option<usize>)
    ensures
        r == parsed_id(s@),
{
    let start: usize = if s.len() > 0 && s[0] == '+' {
        1
    } else {
        0
    };
    let ghost d = unsigned_part(s@);
    assert(d =~= s@.subrange(start as int, s@.len() as int));
    if start >= s.len() {
        return None;
    }
    let mut i: usize = start;
    while i < s.len()
        invariant
            start <= i <= s@.len(),
            d =~= s@.subrange(start as int, s@.len() as int),
            d == unsigned_part(s@),
            forall|j: int| start <= j < i ==> is_digit(#[trigger] s@[j]),
        decreases s.len() - i,
    {
        let code = s[i] as u32;
        if !(code >= 48 && code <= 57) {
            assert(d[i - start] == s@[i as int]);
            assert(!is_digit(d[i - start]));
            assert(!all_digits(d));
            assert(d == unsigned_part(s@));
            assert(parsed_id(s@) is None);
            return None;
        }
        i += 1;
    }
    assert forall|j: int| 0 <= j < d.len() implies is_digit(#[trigger] d[j]) by {
        assert(d[j] == s@[start + j]);
    }
    let mut v: usize = 0;
    let mut i: usize = start;
    while i < s.len()
        invariant
            start <= i <= s@.len(),
            d =~= s@.subrange(start as int, s@.len() as int),
            d == unsigned_part(s@),
            forall|j: int| 0 <= j < d.len() ==> is_digit(#[trigger] d[j]),
            v as nat == digits_value(d.take(i - start)),
        decreases s.len() - i,
    {
        assert(d[i - start] == s@[i as int]);
        assert(is_digit(d[i - start]));
        let code = s[i] as u32;
        let digit: usize = (code - 48) as usize;
        proof {
            lemma_digits_value_step(d.take(i - start), s@[i as int]);
            assert(d.take(i - start).push(s@[i as int]) =~= d.take(i - start + 1));
        }
        if v > (usize::MAX - digit) / 10 {
            proof {
                assert(v * 10 + digit > usize::MAX) by (nonlinear_arith)
                    requires
                        v > (usize::MAX - digit) / 10,
                        digit <= 9,
                ;
                lemma_digits_value_grows(d, i - start + 1);
                assert(digits_value(d.take(i - start + 1)) == v * 10 + digit);
                assert(digits_value(d) > usize::MAX);
            }
            return None;
        }
        assert(v * 10 + digit <= usize::MAX) by (nonlinear_arith)
            requires
                v <= (usize::MAX - digit) / 10,
                digit <= 9,
        ;
        v = v * 10 + digit;
        i += 1;
    }
    assert(d.take(d.len() as int) =~= d);
    Some(v)
}

} // verus!
