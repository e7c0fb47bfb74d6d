use std::collections::HashMap;
use vstd::prelude::*;

verus! {

/// The sequence obtained by replacing each non-overlapping left-to-right
/// occurrence of the adjacent pair `(a, b)` in `s` by `id`.
pub open spec fn replaced(s: Seq<usize>, a: usize, b: usize, id: usize) -> Seq<usize>
    decreases s.len(),
{
    if s.len() < 2 {
        s
    } else if s[0] == a && s[1] == b {
        seq![id] + replaced(s.drop_first().drop_first(), a, b, id)
    } else {
        seq![s[0]] + replaced(s.drop_first(), a, b, id)
    }
}

/// Number of positions `j < k` at which `(a, b)` occurs adjacently in `s`.
pub open spec fn count_upto(s: Seq<usize>, a: usize, b: usize, k: int) -> nat
    decreases k,
{
    if k <= 0 {
        0
    } else {
        count_upto(s, a, b, k - 1) + if k < s.len() && s[k - 1] == a && s[k] == b {
            1nat
        } else {
            0nat
        }
    }
}

/// Number of adjacent occurrences of `(a, b)` in `s` (overlapping ones included).
pub open spec fn pair_count(s: Seq<usize>, a: usize, b: usize) -> nat {
    count_upto(s, a, b, s.len() - 1)
}

/// Count of the pair that starts at position `i`.
pub open spec fn count_at(s: Seq<usize>, i: int) -> nat {
    pair_count(s, s[i], s[i + 1])
}

/// Position `i` holds a pair of the highest count, and it is the first such position.
pub open spec fn is_first_most_frequent(s: Seq<usize>, i: int) -> bool {
    &&& 0 <= i < s.len() - 1
    &&& forall|j: int| 0 <= j < s.len() - 1 ==> count_at(s, j) <= count_at(s, i)
    &&& forall|j: int| 0 <= j < i ==> count_at(s, j) < count_at(s, i)
}

/// The adjacent pair with the strictly highest count; among pairs of equal
/// count, the one whose first occurrence comes first. `None` when `s` has no
/// adjacent pair at all.
pub open spec fn most_frequent_pair(s: Seq<usize>) -> Option<(usize, usize)> {
    if s.len() < 2 {
        None
    } else {
        let i = choose|i: int| is_first_most_frequent(s, i);
        Some((s[i], s[i + 1]))
    }
}

/// Position `i` holds a pair that `ok` admits, of the highest count among such
/// pairs, and it is the first such position.
pub open spec fn is_first_most_frequent_among(s: Seq<usize>, ok: spec_fn((usize, usize)) -> bool, i: int) -> bool {
    &&& 0 <= i < s.len() - 1
    &&& ok((s[i], s[i + 1]))
    &&& forall|j: int| 0 <= j < s.len() - 1 && ok((s[j], s[j + 1])) ==> count_at(s, j) <= count_at(s, i)
    &&& forall|j: int| 0 <= j < i && ok((s[j], s[j + 1])) ==> count_at(s, j) < count_at(s, i)
}

/// The most frequent adjacent pair among those that `ok` admits, ties going to
/// the one that occurs first; `None` when `s` has no such pair.
pub open spec fn most_frequent_pair_among(s: Seq<usize>, ok: spec_fn((usize, usize)) -> bool) -> Option<(usize, usize)> {
    if exists|i: int| is_first_most_frequent_among(s, ok, i) {
        let i = choose|i: int| is_first_most_frequent_among(s, ok, i);
        Some((s[i], s[i + 1]))
    } else {
        None
    }
}

/// The pair `(a, b)` occurs adjacently somewhere in `s`.
pub open spec fn occurs_adjacent(s: Seq<usize>, a: usize, b: usize) -> bool {
    exists|j: int| 0 <= j < s.len() - 1 && #[trigger] s[j] == a && s[j + 1] == b
}

proof fn lemma_replaced_first(t: Seq<usize>, a: usize, b: usize, d: usize)
    requires
        t.len() > 0,
    ensures
        replaced(t, a, b, d).len() > 0,
        replaced(t, a, b, d)[0] == if t.len() >= 2 && t[0] == a && t[1] == b {
            d
        } else {
            t[0]
        },
{
}

/// An adjacent pair of `replaced(s, a, b, d)` that does not involve `d` was
/// already adjacent in `s`, and it is not `(a, b)`.
pub proof fn lemma_replaced_adjacent(s: Seq<usize>, a: usize, b: usize, d: usize, x: usize, y: usize)
    requires
        d != x,
        d != y,
        occurs_adjacent(replaced(s, a, b, d), x, y),
    ensures
        occurs_adjacent(s, x, y),
        !(x == a && y == b),
    decreases s.len(),
{
    let r = replaced(s, a, b, d);
    let k = choose|k: int| 0 <= k < r.len() - 1 && #[trigger] r[k] == x && r[k + 1] == y;
    if s.len() < 2 {
    } else if s[0] == a && s[1] == b {
        let t = s.drop_first().drop_first();
        let rt = replaced(t, a, b, d);
        assert(r == seq![d] + rt);
        assert(k >= 1);
        assert(rt[k - 1] == x && rt[k] == y);
        lemma_replaced_adjacent(t, a, b, d, x, y);
        let j = choose|j: int| 0 <= j < t.len() - 1 && #[trigger] t[j] == x && t[j + 1] == y;
        assert(s[j + 2] == x && s[j + 3] == y);
    } else {
        let t = s.drop_first();
        let rt = replaced(t, a, b, d);
        assert(r == seq![s[0]] + rt);
        if k == 0 {
            lemma_replaced_first(t, a, b, d);
            assert(s[0] == x);
            assert(s[1] == y);
        } else {
            assert(rt[k - 1] == x && rt[k] == y);
            lemma_replaced_adjacent(t, a, b, d, x, y);
            let j = choose|j: int| 0 <= j < t.len() - 1 && #[trigger] t[j] == x && t[j + 1] == y;
            assert(s[j + 1] == x && s[j + 2] == y);
        }
    }
}

pub open spec fn pair_key(a: usize, b: usize) -> u128 {
    ((a as int) * 0x1_0000_0000_0000_0000 + (b as int)) as u128
}

pub proof fn lemma_pair_key_injective(a: usize, b: usize, c: usize, d: usize)
    requires
        pair_key(a, b) == pair_key(c, d),
    ensures
        a == c && b == d,
{
    let m: int = 0x1_0000_0000_0000_0000;
    assert(0 <= (a as int) * m + (b as int) < 0x1_0000_0000_0000_0000_0000_0000_0000_0000)
        by (nonlinear_arith)
        requires
            a <= 0xffff_ffff_ffff_ffff,
            b <= 0xffff_ffff_ffff_ffff,
            m == 0x1_0000_0000_0000_0000,
    ;
    assert(0 <= (c as int) * m + (d as int) < 0x1_0000_0000_0000_0000_0000_0000_0000_0000)
        by (nonlinear_arith)
        requires
            c <= 0xffff_ffff_ffff_ffff,
            d <= 0xffff_ffff_ffff_ffff,
            m == 0x1_0000_0000_0000_0000,
    ;
    assert((a as int) * m + (b as int) == (c as int) * m + (d as int));
    assert(a == c && b == d) by (nonlinear_arith)
        requires
            (a as int) * m + (b as int) == (c as int) * m + (d as int),
            0 <= b < m,
            0 <= d < m,
            0 <= a,
            0 <= c,
    ;
}

pub(crate) fn make_pair_key(a: usize, b: usize) -> (k: u128)
    ensures
        k == pair_key(a, b),
{
    let m: u128 = 0x1_0000_0000_0000_0000;
    assert((a as int) * (m as int) + (b as int) <= u128::MAX) by (nonlinear_arith)
        requires
            a <= 0xffff_ffff_ffff_ffff,
            b <= 0xffff_ffff_ffff_ffff,
            m == 0x1_0000_0000_0000_0000,
    ;
    (a as u128) * m + (b as u128)
}

proof fn lemma_count_upto_bound(s: Seq<usize>, a: usize, b: usize, k: int)
    ensures
        count_upto(s, a, b, k) <= if k < 0 { 0 } else { k },
    decreases k,
{
    if k > 0 {
        lemma_count_upto_bound(s, a, b, k - 1);
    }
}

/// The number of adjacent occurrences of each pair of `token_ids`, keyed by
/// `pair_key`; pairs that do not occur have no entry.
pub(crate) fn count_pairs(token_ids: &[usize]) -> (counts: HashMap<u128, usize>)
    requires
        token_ids@.len() >= 2,
    ensures
        forall|a: usize, b: usize|
            #![trigger pair_key(a, b)]
            counts@.contains_key(pair_key(a, b)) <==> pair_count(token_ids@, a, b) > 0,
        forall|a: usize, b: usize|
            #![trigger pair_key(a, b)]
            counts@.contains_key(pair_key(a, b)) ==> counts@[pair_key(a, b)] == pair_count(
                token_ids@,
                a,
                b,
            ),
{
    let n = token_ids.len();
    let ghost s = token_ids@;
    broadcast use vstd::std_specs::hash::group_hash_axioms;

    let mut counts: HashMap<u128, usize> = HashMap::new();
    let mut j: usize = 0;
    while j + 1 < n
        invariant
            n == s.len(),
            s == token_ids@,
            n >= 2,
            j + 1 <= n,
            forall|a: usize, b: usize|
                #![trigger pair_key(a, b)]
                counts@.contains_key(pair_key(a, b)) <==> count_upto(s, a, b, j as int) > 0,
            forall|a: usize, b: usize|
                #![trigger pair_key(a, b)]
                counts@.contains_key(pair_key(a, b)) ==> counts@[pair_key(a, b)] == count_upto(
                    s,
                    a,
                    b,
                    j as int,
                ),
        decreases n - j,
    {
        let x = token_ids[j];
        let y = token_ids[j + 1];
        let key = make_pair_key(x, y);
        proof {
            lemma_count_upto_bound(s, x, y, j as int);
        }
        let c: usize = match counts.get(&key) {
            Some(v) => *v,
            None => 0,
        };
        counts.insert(key, c + 1);
        proof {
            assert forall|a: usize, b: usize|
                #![trigger pair_key(a, b)]
                (counts@.contains_key(pair_key(a, b)) <==> count_upto(s, a, b, j + 1) > 0) && (
                counts@.contains_key(pair_key(a, b)) ==> counts@[pair_key(a, b)] == count_upto(
                    s,
                    a,
                    b,
                    j + 1,
                )) by {
                if pair_key(a, b) == key {
                    lemma_pair_key_injective(a, b, x, y);
                }
            }
        }
        j += 1;
    }
    counts
}

/// Returns the most frequent adjacent pair of `token_ids`, ties going to the
/// pair that occurs first.
pub fn find_freq_pair(token_ids: &[usize]) -> (r: Option<(usize, usize)>)
    ensures
        r == most_frequent_pair(token_ids@),
{
    let n = token_ids.len();
    if n < 2 {
        return None;
    }
    let ghost s = token_ids@;
    broadcast use vstd::std_specs::hash::group_hash_axioms;

    let counts = count_pairs(token_ids);
    let k0 = make_pair_key(token_ids[0], token_ids[1]);
    let mut best: usize = 0;
    let mut best_count: usize = match counts.get(&k0) {
        Some(v) => *v,
        None => 0,
    };
    let mut i: usize = 1;
    while i + 1 < n
        invariant
            n == s.len(),
            s == token_ids@,
            n >= 2,
            1 <= i <= n - 1,
            0 <= best < i,
            best_count == count_at(s, best as int),
            forall|a: usize, b: usize|
                #![trigger pair_key(a, b)]
                counts@.contains_key(pair_key(a, b)) <==> pair_count(s, a, b) > 0,
            forall|a: usize, b: usize|
                #![trigger pair_key(a, b)]
                counts@.contains_key(pair_key(a, b)) ==> counts@[pair_key(a, b)] == pair_count(
                    s,
                    a,
                    b,
                ),
            forall|j: int| 0 <= j < i ==> count_at(s, j) <= best_count,
            forall|j: int| 0 <= j < best ==> count_at(s, j) < best_count,
        decreases n - i,
    {
        let key = make_pair_key(token_ids[i], token_ids[i + 1]);
        let c: usize = match counts.get(&key) {
            Some(v) => *v,
            None => 0,
        };
        if c > best_count {
            best = i;
            best_count = c;
        }
        i += 1;
    }
    proof {
        assert(is_first_most_frequent(s, best as int));
        let k = choose|k: int| is_first_most_frequent(s, k);
        if k < best {
            assert(count_at(s, k) < count_at(s, best as int));
        } else if k > best {
            assert(count_at(s, best as int) < count_at(s, k));
        }
    }
    Some((token_ids[best], token_ids[best + 1]))
}

/// Replaces every non-overlapping left-to-right occurrence of `pair_id` by `new_id`.
pub fn replace_pair(token_ids: &[usize], pair_id: &(usize, usize), new_id: usize) -> (r: Vec<usize>)
    ensures
        r@ == replaced(token_ids@, pair_id.0, pair_id.1, new_id),
{
    let n = token_ids.len();
    let mut out: Vec<usize> = Vec::new();
    let mut i: usize = 0;
    assert(token_ids@.subrange(0, n as int) =~= token_ids@);
    while i < n
        invariant
            n == token_ids@.len(),
            i <= n,
            out@ + replaced(token_ids@.subrange(i as int, n as int), pair_id.0, pair_id.1, new_id)
                == replaced(token_ids@, pair_id.0, pair_id.1, new_id),
        decreases n - i,
    {
        let ghost rest = token_ids@.subrange(i as int, n as int);
        let current = token_ids[i];
        if i + 1 < n && current == pair_id.0 && token_ids[i + 1] == pair_id.1 {
            assert(rest.drop_first().drop_first() =~= token_ids@.subrange(i + 2, n as int));
            assert(out@.push(new_id) + replaced(rest.drop_first().drop_first(), pair_id.0, pair_id.1, new_id)
                =~= out@ + replaced(rest, pair_id.0, pair_id.1, new_id));
            out.push(new_id);
            i += 2;
        } else {
            assert(rest.drop_first() =~= token_ids@.subrange(i + 1, n as int));
            proof {
                if rest.len() < 2 {
                    assert(rest.drop_first().len() == 0);
                }
            }
            assert(out@.push(current) + replaced(rest.drop_first(), pair_id.0, pair_id.1, new_id)
                =~= out@ + replaced(rest, pair_id.0, pair_id.1, new_id));
            out.push(current);
            i += 1;
        }
    }
    assert(token_ids@.subrange(n as int, n as int).len() == 0);
    assert(out@ + replaced(token_ids@.subrange(n as int, n as int), pair_id.0, pair_id.1, new_id) =~= out@);
    out
}

} // verus!
