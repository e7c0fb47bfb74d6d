use crate::pairs::{
    is_first_most_frequent_among, lemma_replaced_adjacent, most_frequent_pair_among, occurs_adjacent,
    replaced,
};
use crate::text::{marked_text, MARKER};
use crate::tokenizer::{inverse_map, vocab_map};
use vstd::prelude::*;

verus! {

/// The 256 base symbols: one per value `0..256`, taken as a Latin-1 code point.
pub open spec fn base_chars() -> Seq<char> {
    Seq::new(256, |i: int| (i as u8) as char)
}

/// `l` with `c` inserted in code-point order, unless `c` is already there.
pub open spec fn sorted_insert(l: Seq<char>, c: char) -> Seq<char>
    decreases l.len(),
{
    if l.len() == 0 {
        seq![c]
    } else if l[0] == c {
        l
    } else if (c as u32) < (l[0] as u32) {
        seq![c] + l
    } else {
        seq![l[0]] + sorted_insert(l.drop_first(), c)
    }
}

/// The distinct characters of `s` beyond the base range, in code-point order.
pub open spec fn extra_chars(s: Seq<char>) -> Seq<char>
    decreases s.len(),
{
    if s.len() == 0 {
        seq![]
    } else if (s.last() as u32) >= 256 {
        sorted_insert(extra_chars(s.drop_last()), s.last())
    } else {
        extra_chars(s.drop_last())
    }
}

/// The single symbols that seed the vocabulary: the base range, the extra
/// characters of the text, then the marker if it is not among them.
pub open spec fn seed_chars(marked: Seq<char>) -> Seq<char> {
    let cs = base_chars() + extra_chars(marked);
    if cs.contains(MARKER) {
        cs
    } else {
        cs.push(MARKER)
    }
}

/// `toks` followed by each of `specials` that is not yet among them, in order.
pub open spec fn add_absent(toks: Seq<Seq<char>>, specials: Seq<Seq<char>>) -> Seq<Seq<char>>
    decreases specials.len(),
{
    if specials.len() == 0 {
        toks
    } else {
        let t = add_absent(toks, specials.drop_last());
        if t.contains(specials.last()) {
            t
        } else {
            t.push(specials.last())
        }
    }
}

/// The token texts of the vocabulary before any merge: each seed symbol as a
/// token of its own, then the special tokens, none of them twice.
pub open spec fn seed_tokens(marked: Seq<char>, specials: Seq<Seq<char>>) -> Seq<Seq<char>> {
    add_absent(add_absent(seq![], seed_chars(marked).map_values(|c: char| seq![c])), specials)
}

/// The insertions that give ID `i` the text `toks[i]`, in ID order.
pub open spec fn dense_log(toks: Seq<Seq<char>>) -> Seq<(usize, Seq<char>)> {
    Seq::new(toks.len(), |i: int| (i as usize, toks[i]))
}

/// Position of the first occurrence of `t` in `toks` (`toks.len()` if none).
pub open spec fn first_index(toks: Seq<Seq<char>>, t: Seq<char>) -> int
    decreases toks.len(),
{
    if toks.len() == 0 {
        0
    } else if toks[0] == t {
        0
    } else {
        1 + first_index(toks.drop_first(), t)
    }
}

/// Whether the pair `p` may be merged in a vocabulary `toks`: both IDs are
/// tokens and the text they join is not a token yet.
pub open spec fn mergeable(toks: Seq<Seq<char>>) -> spec_fn((usize, usize)) -> bool {
    |p: (usize, usize)|
        p.0 < toks.len() && p.1 < toks.len() && !toks.contains(toks[p.0 as int] + toks[p.1 as int])
}

/// The merge rounds of training from the given state: while the vocabulary is
/// below `target`, take the most frequent adjacent pair of `ids` whose joined
/// text is not a token yet (pairs whose text is already a token are skipped,
/// so that no two IDs share a text), make that text a new token with the next
/// free ID, and replace the pair by it.
pub open spec fn merge_rounds(
    toks: Seq<Seq<char>>,
    merges: Seq<(usize, usize, usize)>,
    ids: Seq<usize>,
    target: nat,
) -> (Seq<Seq<char>>, Seq<(usize, usize, usize)>)
    decreases target - toks.len(),
{
    if toks.len() >= target {
        (toks, merges)
    } else {
        match most_frequent_pair_among(ids, mergeable(toks)) {
            None => (toks, merges),
            Some(p) => {
                let id = toks.len() as usize;
                merge_rounds(
                    toks.push(toks[p.0 as int] + toks[p.1 as int]),
                    merges.push((p.0, p.1, id)),
                    replaced(ids, p.0, p.1, id),
                    target,
                )
            },
        }
    }
}

/// No text occurs twice in `toks`.
pub open spec fn all_distinct(toks: Seq<Seq<char>>) -> bool {
    forall|i: int, j: int| 0 <= i < j < toks.len() ==> toks[i] != toks[j]
}

/// The IDs of the symbols of `marked` under the seed vocabulary `seed`.
pub open spec fn seed_ids(seed: Seq<Seq<char>>, marked: Seq<char>) -> Seq<usize> {
    marked.map_values(|c: char| inverse_map(dense_log(seed))[seq![c]])
}

/// The token texts (by ID) and the merge insertions that training on `text`
/// produces.
pub open spec fn trained(text: Seq<char>, target: nat, specials: Seq<Seq<char>>) -> (
    Seq<Seq<char>>,
    Seq<(usize, usize, usize)>,
) {
    let marked = marked_text(text);
    let seed = seed_tokens(marked, specials);
    merge_rounds(seed, seq![], seed_ids(seed, marked), target)
}

pub proof fn lemma_dense_log_push(toks: Seq<Seq<char>>, t: Seq<char>)
    ensures
        dense_log(toks.push(t)) == dense_log(toks).push((toks.len() as usize, t)),
{
    assert(dense_log(toks.push(t)) =~= dense_log(toks).push((toks.len() as usize, t)));
}

pub proof fn lemma_dense_inverse(toks: Seq<Seq<char>>, t: Seq<char>)
    ensures
        inverse_map(dense_log(toks)).contains_key(t) <==> toks.contains(t),
    decreases toks.len(),
{
    if toks.len() > 0 {
        let d = toks.drop_last();
        assert(dense_log(toks).drop_last() =~= dense_log(d));
        lemma_dense_inverse(d, t);
        if d.contains(t) {
            let k = choose|k: int| 0 <= k < d.len() && d[k] == t;
            assert(toks[k] == t);
        }
        if toks.contains(t) && toks.last() != t {
            let k = choose|k: int| 0 <= k < toks.len() && toks[k] == t;
            assert(d[k] == t);
        }
    }
}

/// In a dense vocabulary every ID that the inverse gives is below its size.
pub proof fn lemma_dense_inverse_value(toks: Seq<Seq<char>>, t: Seq<char>)
    ensures
        inverse_map(dense_log(toks)).contains_key(t) ==> inverse_map(dense_log(toks))[t] < toks.len(),
    decreases toks.len(),
{
    if toks.len() > 0 {
        let d = toks.drop_last();
        assert(dense_log(toks).drop_last() =~= dense_log(d));
        lemma_dense_inverse_value(d, t);
    }
}

pub proof fn lemma_sorted_insert_at(l: Seq<char>, c: char, p: int)
    requires
        0 <= p <= l.len(),
        forall|j: int| 0 <= j < p ==> (l[j] as u32) < (c as u32),
        p < l.len() ==> (l[p] as u32) >= (c as u32),
    ensures
        sorted_insert(l, c) == if p < l.len() && l[p] == c {
            l
        } else {
            l.insert(p, c)
        },
    decreases p,
{
    if p > 0 {
        lemma_sorted_insert_at(l.drop_first(), c, p - 1);
        assert(sorted_insert(l, c) == seq![l[0]] + sorted_insert(l.drop_first(), c));
        if p < l.len() && l[p] == c {
            assert(seq![l[0]] + l.drop_first() =~= l);
        } else {
            assert(seq![l[0]] + l.drop_first().insert(p - 1, c) =~= l.insert(p, c));
        }
    } else {
        if l.len() == 0 {
            assert(seq![c] =~= l.insert(0, c));
        } else if l[0] != c {
            vstd::utf8::char_u32_cast(l[0], l[0] as u32);
            vstd::utf8::char_u32_cast(c, c as u32);
            assert(seq![c] + l =~= l.insert(0, c));
        }
    }
}

proof fn lemma_sorted_insert_contains(l: Seq<char>, c: char)
    ensures
        sorted_insert(l, c).contains(c),
        forall|x: char| l.contains(x) ==> sorted_insert(l, c).contains(x),
    decreases l.len(),
{
    let r = sorted_insert(l, c);
    if l.len() == 0 {
        assert(r[0] == c);
    } else if l[0] == c {
        assert(r[0] == c);
    } else if (c as u32) < (l[0] as u32) {
        assert(r[0] == c);
        assert forall|x: char| l.contains(x) implies r.contains(x) by {
            let k = choose|k: int| 0 <= k < l.len() && l[k] == x;
            assert(r[k + 1] == x);
        }
    } else {
        lemma_sorted_insert_contains(l.drop_first(), c);
        let r1 = sorted_insert(l.drop_first(), c);
        let k0 = choose|k: int| 0 <= k < r1.len() && r1[k] == c;
        assert(r[k0 + 1] == c);
        assert forall|x: char| l.contains(x) implies r.contains(x) by {
            let k = choose|k: int| 0 <= k < l.len() && l[k] == x;
            if k == 0 {
                assert(r[0] == x);
            } else {
                assert(l.drop_first()[k - 1] == x);
                assert(l.drop_first().contains(x));
                let k1 = choose|k1: int| 0 <= k1 < r1.len() && r1[k1] == x;
                assert(r[k1 + 1] == x);
            }
        }
    }
}

/// Every character of `s` beyond the base range is among `extra_chars(s)`.
pub proof fn lemma_extra_chars_contains(s: Seq<char>, k: int)
    requires
        0 <= k < s.len(),
        (s[k] as u32) >= 256,
    ensures
        extra_chars(s).contains(s[k]),
    decreases s.len(),
{
    let d = s.drop_last();
    if k == s.len() - 1 {
        lemma_sorted_insert_contains(extra_chars(d), s[k]);
    } else {
        lemma_extra_chars_contains(d, k);
        assert(d[k] == s[k]);
        if (s.last() as u32) >= 256 {
            lemma_sorted_insert_contains(extra_chars(d), s.last());
        }
    }
}

pub proof fn lemma_add_absent_prefix(toks: Seq<Seq<char>>, specials: Seq<Seq<char>>)
    ensures
        toks.len() <= add_absent(toks, specials).len(),
        forall|i: int| 0 <= i < toks.len() ==> add_absent(toks, specials)[i] == toks[i],
    decreases specials.len(),
{
    if specials.len() > 0 {
        lemma_add_absent_prefix(toks, specials.drop_last());
    }
}

/// Replacing a pair by an ID below `n` keeps every element below `n`.
pub proof fn lemma_replaced_bounded(s: Seq<usize>, a: usize, b: usize, id: usize, n: int)
    requires
        forall|k: int| 0 <= k < s.len() ==> s[k] < n,
        id < n,
    ensures
        forall|k: int| 0 <= k < replaced(s, a, b, id).len() ==> replaced(s, a, b, id)[k] < n,
    decreases s.len(),
{
    if s.len() >= 2 {
        let r = replaced(s, a, b, id);
        if s[0] == a && s[1] == b {
            let t = s.drop_first().drop_first();
            lemma_replaced_bounded(t, a, b, id, n);
            assert forall|k: int| 0 <= k < r.len() implies r[k] < n by {
                if k > 0 {
                    assert(r[k] == replaced(t, a, b, id)[k - 1]);
                }
            }
        } else {
            let t = s.drop_first();
            lemma_replaced_bounded(t, a, b, id, n);
            assert forall|k: int| 0 <= k < r.len() implies r[k] < n by {
                if k > 0 {
                    assert(r[k] == replaced(t, a, b, id)[k - 1]);
                }
            }
        }
    }
}

/// Every symbol of the marked text has a single-character token in the seed
/// vocabulary, with an ID below its size.
pub proof fn lemma_seed_ids_bounded(marked: Seq<char>, specials: Seq<Seq<char>>, k: int)
    requires
        0 <= k < marked.len(),
    ensures
        inverse_map(dense_log(seed_tokens(marked, specials))).contains_key(seq![marked[k]]),
        inverse_map(dense_log(seed_tokens(marked, specials)))[seq![marked[k]]] < seed_tokens(
            marked,
            specials,
        ).len(),
{
    let c = marked[k];
    let seed = seed_tokens(marked, specials);
    let cs = seed_chars(marked);
    let char_toks = cs.map_values(|c: char| seq![c]);
    let firsts = add_absent(seq![], char_toks);
    lemma_add_absent_prefix(firsts, specials);
    lemma_add_absent_facts(seq![], char_toks);
    vstd::utf8::char_u32_cast(c, c as u32);
    let pos: int = if (c as u32) < 256 {
        c as u32 as int
    } else {
        lemma_extra_chars_contains(marked, k);
        let q = choose|q: int| 0 <= q < extra_chars(marked).len() && extra_chars(marked)[q] == c;
        256 + q
    };
    assert(cs[pos] == c);
    assert(char_toks[pos] == seq![c]);
    assert(firsts.contains(char_toks[pos]));
    let q = choose|q: int| 0 <= q < firsts.len() && firsts[q] == seq![c];
    assert(seed[q] == seq![c]);
    lemma_dense_inverse(seed, seq![c]);
    lemma_dense_inverse_value(seed, seq![c]);
}

/// The IDs of a dense vocabulary are exactly those below its size.
pub proof fn lemma_dense_vocab(toks: Seq<Seq<char>>, id: usize)
    requires
        toks.len() <= usize::MAX,
    ensures
        vocab_map(dense_log(toks)).contains_key(id) <==> id < toks.len(),
        id < toks.len() ==> vocab_map(dense_log(toks))[id] == toks[id as int],
    decreases toks.len(),
{
    if toks.len() > 0 {
        let d = toks.drop_last();
        assert(dense_log(toks).drop_last() =~= dense_log(d));
        lemma_dense_vocab(d, id);
    }
}

/// Each merge round adds exactly one token and records one merge, whose ID is
/// the new one and above both of its parts; the tokens and merges already
/// there stay, and the rounds stop at the target size.
pub proof fn lemma_merge_rounds_growth(
    toks: Seq<Seq<char>>,
    merges: Seq<(usize, usize, usize)>,
    ids: Seq<usize>,
    target: nat,
)
    requires
        target <= usize::MAX + 1,
    ensures
        merge_rounds(toks, merges, ids, target).0.len() >= toks.len(),
        merge_rounds(toks, merges, ids, target).0.len() - toks.len() == merge_rounds(
            toks,
            merges,
            ids,
            target,
        ).1.len() - merges.len(),
        merge_rounds(toks, merges, ids, target).0.len() <= if toks.len() >= target {
            toks.len()
        } else {
            target
        },
        forall|i: int|
            0 <= i < toks.len() ==> #[trigger] merge_rounds(toks, merges, ids, target).0[i] == toks[i],
        forall|i: int|
            0 <= i < merges.len() ==> #[trigger] merge_rounds(toks, merges, ids, target).1[i] == merges[i],
        forall|i: int|
            merges.len() <= i < merge_rounds(toks, merges, ids, target).1.len() ==> {
                let e = #[trigger] merge_rounds(toks, merges, ids, target).1[i];
                &&& e.2 == toks.len() + (i - merges.len())
                &&& e.0 < e.2
                &&& e.1 < e.2
            },
    decreases target - toks.len(),
{
    if toks.len() < target {
        match most_frequent_pair_among(ids, mergeable(toks)) {
            None => {},
            Some(p) => {
                let q = choose|q: int| is_first_most_frequent_among(ids, mergeable(toks), q);
                assert(mergeable(toks)((ids[q], ids[q + 1])));
                let id = toks.len() as usize;
                let t2 = toks.push(toks[p.0 as int] + toks[p.1 as int]);
                let m2 = merges.push((p.0, p.1, id));
                lemma_merge_rounds_growth(t2, m2, replaced(ids, p.0, p.1, id), target);
                let r = merge_rounds(toks, merges, ids, target);
                assert(r == merge_rounds(t2, m2, replaced(ids, p.0, p.1, id), target));
                assert forall|i: int| 0 <= i < toks.len() implies #[trigger] r.0[i] == toks[i] by {
                    assert(t2[i] == toks[i]);
                }
                assert forall|i: int| 0 <= i < merges.len() implies #[trigger] r.1[i] == merges[i] by {
                    assert(m2[i] == merges[i]);
                }
                assert(r.1[merges.len() as int] == m2[merges.len() as int]);
            },
        }
    }
}

/// No pair is merged twice: the merges that the rounds record have distinct
/// pairs.
pub proof fn lemma_merge_rounds_unique(
    toks: Seq<Seq<char>>,
    merges: Seq<(usize, usize, usize)>,
    ids: Seq<usize>,
    target: nat,
)
    requires
        target <= usize::MAX,
        forall|k: int| 0 <= k < ids.len() ==> ids[k] < toks.len(),
        forall|i: int| 0 <= i < merges.len() ==> merges[i].0 < toks.len() && merges[i].1 < toks.len(),
        forall|i: int| 0 <= i < merges.len() ==> !occurs_adjacent(ids, merges[i].0, merges[i].1),
        forall|i: int, j: int|
            0 <= i < j < merges.len() ==> (merges[i].0, merges[i].1) != (merges[j].0, merges[j].1),
    ensures
        forall|i: int, j: int|
            0 <= i < j < merge_rounds(toks, merges, ids, target).1.len() ==> (
            merge_rounds(toks, merges, ids, target).1[i].0,
            merge_rounds(toks, merges, ids, target).1[i].1,
        ) != (merge_rounds(toks, merges, ids, target).1[j].0, merge_rounds(
            toks,
            merges,
            ids,
            target,
        ).1[j].1),
    decreases target - toks.len(),
{
    if toks.len() < target {
        match most_frequent_pair_among(ids, mergeable(toks)) {
            None => {},
            Some(p) => {
                let q = choose|q: int| is_first_most_frequent_among(ids, mergeable(toks), q);
                assert(ids[q] == p.0 && ids[q + 1] == p.1);
                assert(occurs_adjacent(ids, p.0, p.1));
                assert(mergeable(toks)((ids[q], ids[q + 1])));
                let id = toks.len() as usize;
                let t2 = toks.push(toks[p.0 as int] + toks[p.1 as int]);
                let m2 = merges.push((p.0, p.1, id));
                let ids2 = replaced(ids, p.0, p.1, id);
                lemma_replaced_bounded(ids, p.0, p.1, id, t2.len() as int);
                assert forall|i: int| 0 <= i < m2.len() implies !occurs_adjacent(ids2, m2[i].0, m2[i].1) by {
                    if occurs_adjacent(ids2, m2[i].0, m2[i].1) {
                        lemma_replaced_adjacent(ids, p.0, p.1, id, m2[i].0, m2[i].1);
                    }
                }
                assert forall|i: int, j: int|
                    0 <= i < j < m2.len() implies (m2[i].0, m2[i].1) != (m2[j].0, m2[j].1) by {
                    if j == merges.len() {
                        assert(!occurs_adjacent(ids, merges[i].0, merges[i].1));
                    }
                }
                lemma_merge_rounds_unique(t2, m2, ids2, target);
                assert(merge_rounds(toks, merges, ids, target) == merge_rounds(t2, m2, ids2, target));
            },
        }
    }
}

pub proof fn lemma_add_absent_facts(toks: Seq<Seq<char>>, items: Seq<Seq<char>>)
    ensures
        all_distinct(toks) ==> all_distinct(add_absent(toks, items)),
        forall|j: int| 0 <= j < items.len() ==> add_absent(toks, items).contains(#[trigger] items[j]),
    decreases items.len(),
{
    if items.len() > 0 {
        let d = items.drop_last();
        lemma_add_absent_facts(toks, d);
        lemma_add_absent_prefix(add_absent(toks, d), seq![items.last()]);
        let t = add_absent(toks, d);
        let r = add_absent(toks, items);
        assert forall|j: int| 0 <= j < items.len() implies r.contains(#[trigger] items[j]) by {
            if j < items.len() - 1 {
                assert(d[j] == items[j]);
                assert(t.contains(d[j]));
                let q = choose|q: int| 0 <= q < t.len() && t[q] == d[j];
                assert(r[q] == items[j]);
            } else if !t.contains(items.last()) {
                assert(r[t.len() as int] == items[j]);
            }
        }
    }
}

/// In a dense vocabulary of distinct texts, the inverse gives each text its index.
pub proof fn lemma_dense_distinct_inverse(toks: Seq<Seq<char>>, i: int)
    requires
        all_distinct(toks),
        0 <= i < toks.len(),
        toks.len() <= usize::MAX + 1,
    ensures
        inverse_map(dense_log(toks)).contains_key(toks[i]),
        inverse_map(dense_log(toks))[toks[i]] == i,
    decreases toks.len(),
{
    let d = toks.drop_last();
    assert(dense_log(toks).drop_last() =~= dense_log(d));
    if i < toks.len() - 1 {
        lemma_dense_distinct_inverse(d, i);
        assert(toks[i] != toks.last());
    }
}

/// The merge rounds keep the texts distinct.
pub proof fn lemma_merge_rounds_distinct(
    toks: Seq<Seq<char>>,
    merges: Seq<(usize, usize, usize)>,
    ids: Seq<usize>,
    target: nat,
)
    requires
        all_distinct(toks),
    ensures
        all_distinct(merge_rounds(toks, merges, ids, target).0),
    decreases target - toks.len(),
{
    if toks.len() < target {
        match most_frequent_pair_among(ids, mergeable(toks)) {
            None => {},
            Some(p) => {
                let q = choose|q: int| is_first_most_frequent_among(ids, mergeable(toks), q);
                assert(mergeable(toks)((ids[q], ids[q + 1])));
                let t = toks[p.0 as int] + toks[p.1 as int];
                let id = toks.len() as usize;
                let t2 = toks.push(t);
                assert forall|i: int, j: int| 0 <= i < j < t2.len() implies t2[i] != t2[j] by {
                    if j == toks.len() {
                        assert(toks[i] != t);
                    }
                }
                lemma_merge_rounds_distinct(t2, merges.push((p.0, p.1, id)), replaced(ids, p.0, p.1, id), target);
            },
        }
    }
}

/// Seed vocabularies hold no text twice.
pub proof fn lemma_seed_distinct(marked: Seq<char>, specials: Seq<Seq<char>>)
    ensures
        all_distinct(seed_tokens(marked, specials)),
{
    let items = seed_chars(marked).map_values(|c: char| seq![c]);
    lemma_add_absent_facts(seq![], items);
    lemma_add_absent_facts(add_absent(seq![], items), specials);
}

} // verus!
