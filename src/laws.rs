use crate::persist::{id_or_zero, import_lines, line_usable, native_merge_log, native_vocab_log, BpeMerge};
use crate::text::{is_ws, marked_text, split_words, MARKER};
use crate::tokenizer::{
    inverse_map, vocab_map, apply_merges, decoded, encode_words, encoded, known_char_ids, marked_word, merge_map,
    merge_pass, missing_chars, shown, word_ids, BPETokenizerSimple,
};
use crate::training::{
    dense_log, lemma_dense_vocab, lemma_merge_rounds_growth, lemma_merge_rounds_unique,
    lemma_seed_ids_bounded, seed_ids, seed_tokens, trained,
};
use vstd::prelude::*;

verus! {

/// Training is deterministic: two tokenizers trained on the same text, with
/// the same target size and the same special tokens in the same order, hold
/// the same vocabulary, inverse vocabulary and merge table.
pub proof fn law_train_deterministic(
    a: &BPETokenizerSimple,
    b: &BPETokenizerSimple,
    text: Seq<char>,
    vocab_size: nat,
    specials: Seq<Seq<char>>,
)
    requires
        a.trained_from(text, vocab_size, specials),
        b.trained_from(text, vocab_size, specials),
    ensures
        a.vocab() == b.vocab(),
        a.inverse() == b.inverse(),
        a.merges() == b.merges(),
{
}

/// Training grows the vocabulary by exactly one ID per merge: the seed tokens
/// keep their IDs, the `i`-th merge gets ID `seed size + i`, above both of its
/// parts, the IDs are exactly those below the vocabulary size, and the size
/// never exceeds the target (unless the seed alone already does).
pub proof fn law_vocabulary_growth(
    t: &BPETokenizerSimple,
    text: Seq<char>,
    vocab_size: usize,
    specials: Seq<Seq<char>>,
)
    requires
        t.trained_from(text, vocab_size as nat, specials),
    ensures
        forall|id: usize|
            t.vocab().contains_key(id) <==> id < trained(text, vocab_size as nat, specials).0.len(),
        trained(text, vocab_size as nat, specials).0.len() == seed_tokens(marked_text(text), specials).len()
            + t.merge_log().len(),
        forall|id: usize|
            id < seed_tokens(marked_text(text), specials).len() ==> t.vocab()[id] == seed_tokens(
                marked_text(text),
                specials,
            )[id as int],
        forall|i: int|
            0 <= i < t.merge_log().len() ==> (#[trigger] t.merge_log()[i]).2 == seed_tokens(
                marked_text(text),
                specials,
            ).len() + i && t.merge_log()[i].0 < t.merge_log()[i].2 && t.merge_log()[i].1
                < t.merge_log()[i].2,
        trained(text, vocab_size as nat, specials).0.len()
            <= if seed_tokens(marked_text(text), specials).len() >= vocab_size {
            seed_tokens(marked_text(text), specials).len()
        } else {
            vocab_size as nat
        },
{
    let marked = marked_text(text);
    let seed = seed_tokens(marked, specials);
    let toks = trained(text, vocab_size as nat, specials).0;
    lemma_merge_rounds_growth(seed, seq![], seed_ids(seed, marked), vocab_size as nat);
    assert forall|id: usize| t.vocab().contains_key(id) <==> id < toks.len() by {
        lemma_dense_vocab(toks, id);
    }
    assert forall|id: usize| id < seed.len() implies t.vocab()[id] == seed[id as int] by {
        lemma_dense_vocab(toks, id);
        assert(toks[id as int] == seed[id as int]);
    }
}

/// A pair that the merge table holds has an insertion.
proof fn lemma_merge_map_holds(log: Seq<(usize, usize, usize)>, p: (usize, usize))
    requires
        merge_map(log).contains_key(p),
    ensures
        exists|j: int| 0 <= j < log.len() && (log[j].0, log[j].1) == p,
    decreases log.len(),
{
    let d = log.drop_last();
    if merge_map(d).contains_key(p) {
        lemma_merge_map_holds(d, p);
        let j = choose|j: int| 0 <= j < d.len() && (d[j].0, d[j].1) == p;
        assert((log[j].0, log[j].1) == p);
    } else {
        assert((log[log.len() - 1].0, log[log.len() - 1].1) == p);
    }
}

proof fn lemma_merge_map_distinct(log: Seq<(usize, usize, usize)>, i: int)
    requires
        0 <= i < log.len(),
        forall|a: int, b: int| 0 <= a < b < log.len() ==> (log[a].0, log[a].1) != (log[b].0, log[b].1),
    ensures
        merge_map(log).contains_key((log[i].0, log[i].1)),
        merge_map(log)[(log[i].0, log[i].1)] == log[i].2,
    decreases log.len(),
{
    let d = log.drop_last();
    if i < log.len() - 1 {
        lemma_merge_map_distinct(d, i);
        assert((log[i].0, log[i].1) != (log.last().0, log.last().1));
    } else if merge_map(d).contains_key((log[i].0, log[i].1)) {
        lemma_merge_map_holds(d, (log[i].0, log[i].1));
        let j = choose|j: int| 0 <= j < d.len() && (d[j].0, d[j].1) == (log[i].0, log[i].1);
        assert((log[j].0, log[j].1) != (log[i].0, log[i].1));
    }
}

/// Training never assigns a pair twice: the recorded merges have distinct
/// pairs, so the merge table maps each of them to the ID its merge created.
pub proof fn law_merge_pairs_unique(
    t: &BPETokenizerSimple,
    text: Seq<char>,
    vocab_size: usize,
    specials: Seq<Seq<char>>,
)
    requires
        t.trained_from(text, vocab_size as nat, specials),
    ensures
        forall|i: int, j: int|
            0 <= i < j < t.merge_log().len() ==> (t.merge_log()[i].0, t.merge_log()[i].1) != (
            t.merge_log()[j].0,
            t.merge_log()[j].1,
        ),
        forall|i: int|
            0 <= i < t.merge_log().len() ==> #[trigger] t.merges().contains_key(
                (t.merge_log()[i].0, t.merge_log()[i].1),
            ) && t.merges()[(t.merge_log()[i].0, t.merge_log()[i].1)] == t.merge_log()[i].2,
{
    let marked = marked_text(text);
    let seed = seed_tokens(marked, specials);
    let ids = seed_ids(seed, marked);
    assert forall|k: int| 0 <= k < ids.len() implies ids[k] < seed.len() by {
        lemma_seed_ids_bounded(marked, specials, k);
    }
    lemma_merge_rounds_unique(seed, seq![], ids, vocab_size as nat);
    let log = t.merge_log();
    assert forall|i: int| 0 <= i < log.len() implies #[trigger] t.merges().contains_key(
        (log[i].0, log[i].1),
    ) && t.merges()[(log[i].0, log[i].1)] == log[i].2 by {
        lemma_merge_map_distinct(log, i);
    }
}

/// No pair is ever reassigned: whatever is inserted into a merge table, by
/// training, loading or importing, every pair that the table held keeps its
/// merged ID.
pub proof fn law_merge_pair_never_reassigned(log: Seq<(usize, usize, usize)>, e: (usize, usize, usize))
    ensures
        forall|p: (usize, usize)|
            #[trigger] merge_map(log).contains_key(p) ==> merge_map(log.push(e)).contains_key(p)
                && merge_map(log.push(e))[p] == merge_map(log)[p],
{
    assert(log.push(e).drop_last() =~= log);
}

/// Importing merge lines that cannot give a merge (a field count other than
/// two, a token that is not in the vocabulary, or a concatenation that is not)
/// leaves the merge table as it was.
pub proof fn law_import_skips_absent_merges(
    inv: Map<Seq<char>, usize>,
    m: Map<(usize, usize), usize>,
    lines: Seq<Seq<char>>,
)
    requires
        forall|i: int| 0 <= i < lines.len() ==> !line_usable(inv, #[trigger] lines[i]),
    ensures
        import_lines(inv, m, lines) == m,
    decreases lines.len(),
{
    if lines.len() > 0 {
        let d = lines.drop_last();
        assert forall|i: int| 0 <= i < d.len() implies !line_usable(inv, #[trigger] d[i]) by {
            assert(d[i] == lines[i]);
        }
        law_import_skips_absent_merges(inv, m, d);
        assert(!line_usable(inv, lines[lines.len() - 1]));
    }
}

/// Importing never reassigns a pair: every pair that the merge table held
/// keeps its merged ID, whatever the lines say.
pub proof fn law_import_keeps_present_pairs(
    inv: Map<Seq<char>, usize>,
    m: Map<(usize, usize), usize>,
    lines: Seq<Seq<char>>,
)
    ensures
        forall|p: (usize, usize)|
            #[trigger] m.contains_key(p) ==> import_lines(inv, m, lines).contains_key(p)
                && import_lines(inv, m, lines)[p] == m[p],
    decreases lines.len(),
{
    if lines.len() > 0 {
        law_import_keeps_present_pairs(inv, m, lines.drop_last());
    }
}

/// A pair that a merge list maps has an entry of two IDs naming it.
proof fn lemma_native_merge_holds(ms: Seq<BpeMerge>, p: (usize, usize))
    requires
        merge_map(native_merge_log(ms)).contains_key(p),
    ensures
        exists|j: int| 0 <= j < ms.len() && #[trigger] ms[j].pair@ == seq![p.0, p.1],
    decreases ms.len(),
{
    let d = ms.drop_last();
    let e = ms.last();
    let rest = native_merge_log(d);
    if e.pair@.len() == 2 {
        let log = rest.push((e.pair@[0], e.pair@[1], e.new_id));
        assert(log.drop_last() =~= rest);
        if merge_map(rest).contains_key(p) {
            lemma_native_merge_holds(d, p);
            let j = choose|j: int| 0 <= j < d.len() && #[trigger] d[j].pair@ == seq![p.0, p.1];
            assert(ms[j] == d[j]);
        } else {
            assert(e.pair@ =~= seq![p.0, p.1]);
            assert(ms[ms.len() - 1] == e);
        }
    } else {
        lemma_native_merge_holds(d, p);
        let j = choose|j: int| 0 <= j < d.len() && #[trigger] d[j].pair@ == seq![p.0, p.1];
        assert(ms[j] == d[j]);
    }
}

/// Loading keeps the first entry of a pair: the merge table maps a pair to the
/// ID of the first entry of the merge list that names it.
pub proof fn law_load_keeps_first_entry(ms: Seq<BpeMerge>, i: int)
    requires
        0 <= i < ms.len(),
        ms[i].pair@.len() == 2,
        forall|j: int| 0 <= j < i ==> (#[trigger] ms[j]).pair@ != ms[i].pair@,
    ensures
        merge_map(native_merge_log(ms)).contains_key((ms[i].pair@[0], ms[i].pair@[1])),
        merge_map(native_merge_log(ms))[(ms[i].pair@[0], ms[i].pair@[1])] == ms[i].new_id,
    decreases ms.len(),
{
    let d = ms.drop_last();
    let e = ms.last();
    let rest = native_merge_log(d);
    let p = (ms[i].pair@[0], ms[i].pair@[1]);
    if i < ms.len() - 1 {
        assert forall|j: int| 0 <= j < i implies (#[trigger] d[j]).pair@ != d[i].pair@ by {
            assert(d[j] == ms[j]);
        }
        law_load_keeps_first_entry(d, i);
        if e.pair@.len() == 2 {
            let log = rest.push((e.pair@[0], e.pair@[1], e.new_id));
            assert(log.drop_last() =~= rest);
        }
    } else {
        if merge_map(rest).contains_key(p) {
            lemma_native_merge_holds(d, p);
            let j = choose|j: int| 0 <= j < d.len() && #[trigger] d[j].pair@ == seq![p.0, p.1];
            assert(ms[j] == d[j]);
            assert(ms[i].pair@ =~= seq![p.0, p.1]);
        }
        let log = rest.push((e.pair@[0], e.pair@[1], e.new_id));
        assert(log.drop_last() =~= rest);
    }
}

/// The words of `ws` joined by single spaces.
pub open spec fn joined(ws: Seq<Seq<char>>) -> Seq<char>
    decreases ws.len(),
{
    if ws.len() == 0 {
        seq![]
    } else if ws.len() == 1 {
        ws[0]
    } else {
        joined(ws.drop_last()) + seq![' '] + ws.last()
    }
}

/// No merge of `m` applies to two adjacent symbols of `w`.
pub open spec fn needs_no_merge(inv: Map<Seq<char>, usize>, m: Map<(usize, usize), usize>, w: Seq<char>) -> bool {
    forall|k: int|
        0 <= k < w.len() - 1 ==> !m.contains_key((inv[seq![w[k]]], #[trigger] inv[seq![w[k + 1]]]))
}

/// A word: not empty, with no whitespace and no boundary marker.
pub open spec fn is_plain_word(w: Seq<char>) -> bool {
    &&& w.len() > 0
    &&& forall|j: int| 0 <= j < w.len() ==> !is_ws(#[trigger] w[j]) && w[j] != MARKER
}

proof fn lemma_split_append_word(s: Seq<char>, w: Seq<char>)
    requires
        s.len() == 0 || is_ws(s.last()),
        is_plain_word(w),
    ensures
        split_words(s + w) == split_words(s).push(w),
    decreases w.len(),
{
    let c = w.last();
    let w1 = w.drop_last();
    assert((s + w).drop_last() =~= s + w1);
    assert((s + w).last() == c);
    if w1.len() == 0 {
        assert(s + w1 =~= s);
        assert(seq![c] =~= w);
    } else {
        assert(is_plain_word(w1)) by {
            assert forall|j: int| 0 <= j < w1.len() implies !is_ws(#[trigger] w1[j]) && w1[j] != MARKER by {
                assert(w1[j] == w[j]);
            }
        }
        lemma_split_append_word(s, w1);
        assert((s + w)[(s + w).len() - 2] == w[w.len() - 2]);
        assert(w1.push(c) =~= w);
        assert(split_words(s).push(w1).drop_last() =~= split_words(s));
    }
}

proof fn lemma_split_joined(ws: Seq<Seq<char>>)
    requires
        forall|i: int| 0 <= i < ws.len() ==> is_plain_word(#[trigger] ws[i]),
    ensures
        split_words(joined(ws)) == ws,
    decreases ws.len(),
{
    if ws.len() == 1 {
        lemma_split_append_word(seq![], ws[0]);
        assert(Seq::<char>::empty() + ws[0] =~= ws[0]);
        assert(Seq::<Seq<char>>::empty().push(ws[0]) =~= ws);
    } else if ws.len() > 1 {
        let d = ws.drop_last();
        assert forall|i: int| 0 <= i < d.len() implies is_plain_word(#[trigger] d[i]) by {
            assert(d[i] == ws[i]);
        }
        lemma_split_joined(d);
        let p = joined(d) + seq![' '];
        assert(p.drop_last() =~= joined(d));
        assert(is_ws(p.last()));
        lemma_split_append_word(p, ws.last());
        assert(split_words(p) == split_words(joined(d)));
        assert(d.push(ws.last()) =~= ws);
    }
}

proof fn lemma_decoded_concat(v: Map<usize, Seq<char>>, a: Seq<usize>, b: Seq<usize>)
    ensures
        decoded(v, a + b) == decoded(v, a) + decoded(v, b),
    decreases b.len(),
{
    if b.len() == 0 {
        assert(a + b =~= a);
        assert(decoded(v, a) + decoded(v, b) =~= decoded(v, a));
    } else {
        assert((a + b).drop_last() =~= a + b.drop_last());
        lemma_decoded_concat(v, a, b.drop_last());
        assert(decoded(v, a) + decoded(v, b.drop_last()) + shown(v[b.last()]) =~= decoded(v, a) + (
        decoded(v, b.drop_last()) + shown(v[b.last()])));
    }
}

#[verifier::rlimit(40)]
proof fn lemma_merge_pass_unchanged(m: Map<(usize, usize), usize>, s: Seq<usize>)
    requires
        forall|k: int| 0 <= k < s.len() - 1 ==> !m.contains_key((#[trigger] s[k], s[k + 1])),
    ensures
        merge_pass(m, s) == s,
    decreases s.len(),
{
    if s.len() >= 2 {
        let t = s.drop_first();
        assert(!m.contains_key((s[0], s[1])));
        assert forall|k: int| 0 <= k < t.len() - 1 implies !m.contains_key((#[trigger] t[k], t[k + 1])) by {
            assert(t[k] == s[k + 1] && t[k + 1] == s[k + 2]);
        }
        lemma_merge_pass_unchanged(m, t);
        assert(seq![s[0]] + t =~= s);
    }
}

/// The IDs of the characters of `w`, each of which has an entry.
proof fn lemma_known_char_ids(inv: Map<Seq<char>, usize>, w: Seq<char>)
    requires
        forall|j: int| 0 <= j < w.len() ==> inv.contains_key(seq![#[trigger] w[j]]),
    ensures
        missing_chars(inv, w).len() == 0,
        known_char_ids(inv, w).len() == w.len(),
        forall|j: int| 0 <= j < w.len() ==> #[trigger] known_char_ids(inv, w)[j] == inv[seq![w[j]]],
    decreases w.len(),
{
    if w.len() > 0 {
        let d = w.drop_last();
        assert forall|j: int| 0 <= j < d.len() implies inv.contains_key(seq![#[trigger] d[j]]) by {
            assert(d[j] == w[j]);
        }
        lemma_known_char_ids(inv, d);
        assert(inv.contains_key(seq![w[w.len() - 1]]));
        assert forall|j: int| 0 <= j < w.len() implies #[trigger] known_char_ids(inv, w)[j] == inv[seq![w[j]]] by {
            if j < w.len() - 1 {
                assert(d[j] == w[j]);
            }
        }
    }
}

/// Decoding the IDs of the characters of `w` gives `w` with the marker shown
/// as a space.
proof fn lemma_decode_chars(v: Map<usize, Seq<char>>, inv: Map<Seq<char>, usize>, w: Seq<char>)
    requires
        forall|j: int| 0 <= j < w.len() ==> inv.contains_key(seq![#[trigger] w[j]]),
        forall|j: int| 0 <= j < w.len() ==> v[inv[seq![#[trigger] w[j]]]] == seq![w[j]],
    ensures
        decoded(v, known_char_ids(inv, w)) == w.map_values(|c: char| if c == MARKER { ' ' } else { c }),
    decreases w.len(),
{
    lemma_known_char_ids(inv, w);
    if w.len() > 0 {
        let d = w.drop_last();
        assert forall|j: int| 0 <= j < d.len() implies inv.contains_key(seq![#[trigger] d[j]]) by {
            assert(d[j] == w[j]);
        }
        assert forall|j: int| 0 <= j < d.len() implies v[inv[seq![#[trigger] d[j]]]] == seq![d[j]] by {
            assert(d[j] == w[j]);
        }
        lemma_decode_chars(v, inv, d);
        let c = w.last();
        let kd = known_char_ids(inv, d);
        assert(known_char_ids(inv, w) == kd.push(inv[seq![c]]));
        assert(kd.push(inv[seq![c]]).drop_last() =~= kd);
        assert(v[inv[seq![c]]] == seq![c]);
        let sc = shown(seq![c]);
        if c == MARKER {
            assert(sc =~= seq![' ']);
        } else {
            assert(sc =~= seq![c]);
        }
        assert(w.map_values(|c: char| if c == MARKER { ' ' } else { c }) =~= d.map_values(
            |c: char| if c == MARKER { ' ' } else { c },
        ).push(if c == MARKER { ' ' } else { c }));
    }
}

/// Round trip on plain text: for words of characters that each have their own
/// single-character token, in a tokenizer whose inverse vocabulary agrees with
/// its vocabulary and whose merges do not apply to those words, decoding the
/// encoding of the words joined by single spaces gives that text back, and
/// every encoded ID is in the vocabulary.
pub proof fn law_round_trip(t: &BPETokenizerSimple, ws: Seq<Seq<char>>)
    requires
        forall|i: int| 0 <= i < ws.len() ==> is_plain_word(#[trigger] ws[i]),
        forall|s: Seq<char>|
            #[trigger] t.inverse().contains_key(s) ==> t.vocab().contains_key(t.inverse()[s])
                && t.vocab()[t.inverse()[s]] == s,
        t.inverse().contains_key(seq![MARKER]),
        forall|i: int, j: int|
            0 <= i < ws.len() && 0 <= j < ws[i].len() ==> t.inverse().contains_key(
                seq![#[trigger] ws[i][j]],
            ),
        forall|i: int|
            0 <= i < ws.len() ==> needs_no_merge(
                t.inverse(),
                t.merges(),
                #[trigger] marked_word(i, ws[i]),
            ),
    ensures
        decoded(t.vocab(), encoded(t.inverse(), t.merges(), joined(ws))) == joined(ws),
        forall|k: int|
            0 <= k < encoded(t.inverse(), t.merges(), joined(ws)).len() ==> t.vocab().contains_key(
                #[trigger] encoded(t.inverse(), t.merges(), joined(ws))[k],
            ),
{
    lemma_split_joined(ws);
    lemma_round_trip_words(t, ws);
}

/// One word of the round trip: the word (marked unless it comes first)
/// decodes back to itself, preceded by a space unless it comes first.
#[verifier::rlimit(40)]
proof fn lemma_word_round_trip(
    v: Map<usize, Seq<char>>,
    inv: Map<Seq<char>, usize>,
    m: Map<(usize, usize), usize>,
    k: int,
    w: Seq<char>,
)
    requires
        k >= 0,
        is_plain_word(w),
        forall|s: Seq<char>| #[trigger] inv.contains_key(s) ==> v.contains_key(inv[s]) && v[inv[s]] == s,
        inv.contains_key(seq![MARKER]),
        forall|j: int| 0 <= j < w.len() ==> inv.contains_key(seq![#[trigger] w[j]]),
        needs_no_merge(inv, m, marked_word(k, w)),
    ensures
        decoded(v, word_ids(inv, m, marked_word(k, w))) == if k > 0 {
            seq![' '] + w
        } else {
            w
        },
        forall|q: int|
            0 <= q < word_ids(inv, m, marked_word(k, w)).len() ==> v.contains_key(
                #[trigger] word_ids(inv, m, marked_word(k, w))[q],
            ),
{
    let mw = marked_word(k, w);
    let tail: Seq<char> = if k > 0 {
        seq![' '] + w
    } else {
        w
    };
    let ids = word_ids(inv, m, mw);
    assert forall|j: int| 0 <= j < mw.len() implies inv.contains_key(seq![#[trigger] mw[j]]) by {
        if k > 0 {
            if j > 0 {
                assert(mw[j] == w[j - 1]);
            } else {
                assert(mw[j] == MARKER);
            }
        } else {
            assert(mw[j] == w[j]);
        }
    }
    if inv.contains_key(mw) {
        assert(ids == seq![inv[mw]]);
        assert(ids.drop_last() =~= Seq::<usize>::empty());
        assert(decoded(v, ids) == decoded(v, Seq::<usize>::empty()) + shown(v[inv[mw]]));
        if k > 0 {
            assert(shown(mw) =~= tail);
        } else {
            assert(mw[0] != MARKER);
            assert(shown(mw) == tail);
        }
        assert(decoded(v, ids) =~= tail);
    } else {
        lemma_known_char_ids(inv, mw);
        let cids = known_char_ids(inv, mw);
        assert forall|q: int| 0 <= q < cids.len() - 1 implies !m.contains_key((#[trigger] cids[q], cids[q + 1])) by {
            assert(cids[q] == inv[seq![mw[q]]]);
            assert(cids[q + 1] == inv[seq![mw[q + 1]]]);
        }
        lemma_merge_pass_unchanged(m, cids);
        assert(apply_merges(m, cids) == cids);
        assert(ids == cids);
        assert forall|j: int| 0 <= j < mw.len() implies v[inv[seq![#[trigger] mw[j]]]] == seq![mw[j]] by {
            assert(inv.contains_key(seq![mw[j]]));
        }
        lemma_decode_chars(v, inv, mw);
        assert forall|j: int| 0 <= j < mw.len() implies #[trigger] mw[j] == MARKER <==> (k > 0 && j == 0) by {
            if k > 0 && j > 0 {
                assert(mw[j] == w[j - 1]);
            } else if k == 0 {
                assert(mw[j] == w[j]);
            }
        }
        assert(mw.map_values(|c: char| if c == MARKER { ' ' } else { c }) =~= tail);
        assert forall|q: int| 0 <= q < ids.len() implies v.contains_key(#[trigger] ids[q]) by {
            assert(ids[q] == inv[seq![mw[q]]]);
            assert(inv.contains_key(seq![mw[q]]));
        }
    }
}

proof fn lemma_round_trip_words(t: &BPETokenizerSimple, ws: Seq<Seq<char>>)
    requires
        forall|i: int| 0 <= i < ws.len() ==> is_plain_word(#[trigger] ws[i]),
        forall|s: Seq<char>|
            #[trigger] t.inverse().contains_key(s) ==> t.vocab().contains_key(t.inverse()[s])
                && t.vocab()[t.inverse()[s]] == s,
        t.inverse().contains_key(seq![MARKER]),
        forall|i: int, j: int|
            0 <= i < ws.len() && 0 <= j < ws[i].len() ==> t.inverse().contains_key(
                seq![#[trigger] ws[i][j]],
            ),
        forall|i: int|
            0 <= i < ws.len() ==> needs_no_merge(
                t.inverse(),
                t.merges(),
                #[trigger] marked_word(i, ws[i]),
            ),
    ensures
        decoded(t.vocab(), encode_words(t.inverse(), t.merges(), ws)) == joined(ws),
        forall|k: int|
            0 <= k < encode_words(t.inverse(), t.merges(), ws).len() ==> t.vocab().contains_key(
                #[trigger] encode_words(t.inverse(), t.merges(), ws)[k],
            ),
    decreases ws.len(),
{
    let inv = t.inverse();
    let m = t.merges();
    let v = t.vocab();
    if ws.len() > 0 {
        let d = ws.drop_last();
        assert forall|i: int| 0 <= i < d.len() implies is_plain_word(#[trigger] d[i]) by {
            assert(d[i] == ws[i]);
        }
        assert forall|i: int, j: int|
            0 <= i < d.len() && 0 <= j < d[i].len() implies inv.contains_key(seq![#[trigger] d[i][j]]) by {
            assert(d[i] == ws[i]);
        }
        assert forall|i: int| 0 <= i < d.len() implies needs_no_merge(inv, m, #[trigger] marked_word(i, d[i])) by {
            assert(d[i] == ws[i]);
            assert(needs_no_merge(inv, m, marked_word(i, ws[i])));
        }
        lemma_round_trip_words(t, d);
        let k = ws.len() - 1;
        let w = ws.last();
        assert(is_plain_word(ws[k]));
        assert(needs_no_merge(inv, m, marked_word(k, ws[k])));
        assert forall|j: int| 0 <= j < w.len() implies inv.contains_key(seq![#[trigger] w[j]]) by {
            assert(w[j] == ws[k][j]);
        }
        lemma_word_round_trip(v, inv, m, k, w);
        let ids = word_ids(inv, m, marked_word(k, w));
        let tail: Seq<char> = if k > 0 {
            seq![' '] + w
        } else {
            w
        };
        let prev = encode_words(inv, m, d);
        assert(encode_words(inv, m, ws) == prev + ids);
        lemma_decoded_concat(v, prev, ids);
        if k > 0 {
            assert(joined(ws) == joined(d) + seq![' '] + w);
            assert(joined(ws) =~= joined(d) + tail);
        } else {
            assert(d.len() == 0);
            assert(decoded(v, prev) =~= Seq::<char>::empty());
            assert(joined(ws) =~= joined(d) + tail);
        }
        assert forall|q: int| 0 <= q < (prev + ids).len() implies v.contains_key(#[trigger] (prev + ids)[q]) by {
            if q < prev.len() {
                assert((prev + ids)[q] == prev[q]);
            } else {
                assert((prev + ids)[q] == ids[q - prev.len()]);
            }
        }
    }
}

proof fn lemma_dense_consistent(toks: Seq<Seq<char>>, s: Seq<char>)
    requires
        toks.len() <= usize::MAX,
        inverse_map(dense_log(toks)).contains_key(s),
    ensures
        vocab_map(dense_log(toks)).contains_key(inverse_map(dense_log(toks))[s]),
        vocab_map(dense_log(toks))[inverse_map(dense_log(toks))[s]] == s,
    decreases toks.len(),
{
    let d = toks.drop_last();
    assert(dense_log(toks).drop_last() =~= dense_log(d));
    let id = inverse_map(dense_log(toks))[s];
    if toks.last() != s {
        lemma_dense_consistent(d, s);
        assert(id == inverse_map(dense_log(d))[s]);
        lemma_dense_vocab(d, id);
        lemma_dense_vocab(toks, id);
    } else {
        lemma_dense_vocab(toks, id);
    }
}

/// After training, the inverse vocabulary agrees with the vocabulary: the ID
/// that a text maps to has that text.
pub proof fn law_trained_inverse_agrees(
    t: &BPETokenizerSimple,
    text: Seq<char>,
    vocab_size: nat,
    specials: Seq<Seq<char>>,
)
    requires
        t.trained_from(text, vocab_size, specials),
    ensures
        forall|s: Seq<char>|
            #[trigger] t.inverse().contains_key(s) ==> t.vocab().contains_key(t.inverse()[s])
                && t.vocab()[t.inverse()[s]] == s,
{
    let toks = trained(text, vocab_size, specials).0;
    assert forall|s: Seq<char>| #[trigger] t.inverse().contains_key(s) implies t.vocab().contains_key(
        t.inverse()[s],
    ) && t.vocab()[t.inverse()[s]] == s by {
        lemma_dense_consistent(toks, s);
    }
}

/// The words that `split_words` gives are not empty, hold no separator, and
/// are made of characters of the text.
proof fn lemma_split_words_plain(s: Seq<char>)
    ensures
        forall|i: int| 0 <= i < split_words(s).len() ==> (#[trigger] split_words(s)[i]).len() > 0,
        forall|i: int, j: int|
            0 <= i < split_words(s).len() && 0 <= j < split_words(s)[i].len() ==> !is_ws(
                #[trigger] split_words(s)[i][j],
            ) && s.contains(split_words(s)[i][j]),
    decreases s.len(),
{
    if s.len() > 0 {
        let d = s.drop_last();
        lemma_split_words_plain(d);
        let w = split_words(d);
        let r = split_words(s);
        let c = s.last();
        assert forall|x: char| d.contains(x) implies s.contains(x) by {
            let q = choose|q: int| 0 <= q < d.len() && d[q] == x;
            assert(s[q] == x);
        }
        assert(s[s.len() - 1] == c);
        if is_ws(c) {
        } else if s.len() >= 2 && !is_ws(s[s.len() - 2]) && w.len() > 0 {
            assert(r == w.drop_last().push(w.last().push(c)));
            assert forall|i: int, j: int|
                0 <= i < r.len() && 0 <= j < r[i].len() implies !is_ws(#[trigger] r[i][j]) && s.contains(r[i][j]) by {
                if i < r.len() - 1 {
                    assert(r[i] == w[i]);
                } else if j < w.last().len() {
                    assert(r[i][j] == w[w.len() - 1][j]);
                }
            }
            assert forall|i: int| 0 <= i < r.len() implies (#[trigger] r[i]).len() > 0 by {
                if i < r.len() - 1 {
                    assert(r[i] == w[i]);
                }
            }
        } else {
            assert(r == w.push(seq![c]));
            assert forall|i: int, j: int|
                0 <= i < r.len() && 0 <= j < r[i].len() implies !is_ws(#[trigger] r[i][j]) && s.contains(r[i][j]) by {
                if i < r.len() - 1 {
                    assert(r[i] == w[i]);
                }
            }
            assert forall|i: int| 0 <= i < r.len() implies (#[trigger] r[i]).len() > 0 by {
                if i < r.len() - 1 {
                    assert(r[i] == w[i]);
                }
            }
        }
    }
}

/// Round trip on any text: decoding the encoding gives the words of the text
/// joined by single spaces, so runs of whitespace, and whitespace at either
/// end, collapse. The conditions are those of `law_round_trip`, on the words
/// of the text.
pub proof fn law_round_trip_collapses_whitespace(t: &BPETokenizerSimple, text: Seq<char>)
    requires
        forall|j: int|
            0 <= j < text.len() ==> #[trigger] text[j] != MARKER && (is_ws(text[j])
                || t.inverse().contains_key(seq![text[j]])),
        forall|s: Seq<char>|
            #[trigger] t.inverse().contains_key(s) ==> t.vocab().contains_key(t.inverse()[s])
                && t.vocab()[t.inverse()[s]] == s,
        t.inverse().contains_key(seq![MARKER]),
        forall|i: int|
            0 <= i < split_words(text).len() ==> needs_no_merge(
                t.inverse(),
                t.merges(),
                #[trigger] marked_word(i, split_words(text)[i]),
            ),
    ensures
        decoded(t.vocab(), encoded(t.inverse(), t.merges(), text)) == joined(split_words(text)),
        forall|k: int|
            0 <= k < encoded(t.inverse(), t.merges(), text).len() ==> t.vocab().contains_key(
                #[trigger] encoded(t.inverse(), t.merges(), text)[k],
            ),
{
    let ws = split_words(text);
    lemma_split_words_plain(text);
    assert forall|i: int| 0 <= i < ws.len() implies is_plain_word(#[trigger] ws[i]) by {
        assert forall|j: int| 0 <= j < ws[i].len() implies !is_ws(#[trigger] ws[i][j]) && ws[i][j] != MARKER by {
            assert(text.contains(ws[i][j]));
        }
    }
    assert forall|i: int, j: int|
        0 <= i < ws.len() && 0 <= j < ws[i].len() implies t.inverse().contains_key(seq![#[trigger] ws[i][j]]) by {
        assert(text.contains(ws[i][j]));
        assert(!is_ws(ws[i][j]));
    }
    lemma_round_trip_words(t, ws);
}

proof fn lemma_vocab_map_log(log: Seq<(usize, Seq<char>)>)
    requires
        forall|a: int, b: int| 0 <= a < b < log.len() ==> log[a].0 != log[b].0,
    ensures
        forall|j: int|
            0 <= j < log.len() ==> vocab_map(log).contains_key(#[trigger] log[j].0) && vocab_map(log)[log[j].0]
                == log[j].1,
        forall|id: usize|
            #[trigger] vocab_map(log).contains_key(id) ==> exists|j: int| 0 <= j < log.len() && log[j].0 == id,
    decreases log.len(),
{
    if log.len() > 0 {
        let d = log.drop_last();
        assert forall|a: int, b: int| 0 <= a < b < d.len() implies d[a].0 != d[b].0 by {
            assert(d[a] == log[a] && d[b] == log[b]);
        }
        lemma_vocab_map_log(d);
        assert forall|j: int| 0 <= j < log.len() implies vocab_map(log).contains_key(#[trigger] log[j].0)
            && vocab_map(log)[log[j].0] == log[j].1 by {
            if j < log.len() - 1 {
                assert(d[j] == log[j]);
            }
        }
        assert forall|id: usize| #[trigger] vocab_map(log).contains_key(id) implies exists|j: int|
            0 <= j < log.len() && log[j].0 == id by {
            if id != log.last().0 {
                assert(vocab_map(d).contains_key(id));
                let j = choose|j: int| 0 <= j < d.len() && d[j].0 == id;
                assert(d[j] == log[j]);
            } else {
                assert(log[log.len() - 1].0 == id);
            }
        }
    }
}

proof fn lemma_inverse_map_log(log: Seq<(usize, Seq<char>)>)
    requires
        forall|a: int, b: int| 0 <= a < b < log.len() ==> log[a].1 != log[b].1,
    ensures
        forall|j: int|
            0 <= j < log.len() ==> inverse_map(log).contains_key(#[trigger] log[j].1) && inverse_map(log)[log[j].1]
                == log[j].0,
        forall|t: Seq<char>|
            #[trigger] inverse_map(log).contains_key(t) ==> exists|j: int| 0 <= j < log.len() && log[j].1 == t,
    decreases log.len(),
{
    if log.len() > 0 {
        let d = log.drop_last();
        assert forall|a: int, b: int| 0 <= a < b < d.len() implies d[a].1 != d[b].1 by {
            assert(d[a] == log[a] && d[b] == log[b]);
        }
        lemma_inverse_map_log(d);
        assert forall|j: int| 0 <= j < log.len() implies inverse_map(log).contains_key(#[trigger] log[j].1)
            && inverse_map(log)[log[j].1] == log[j].0 by {
            if j < log.len() - 1 {
                assert(d[j] == log[j]);
            }
        }
        assert forall|t: Seq<char>| #[trigger] inverse_map(log).contains_key(t) implies exists|j: int|
            0 <= j < log.len() && log[j].1 == t by {
            if t != log.last().1 {
                assert(inverse_map(d).contains_key(t));
                let j = choose|j: int| 0 <= j < d.len() && d[j].1 == t;
                assert(d[j] == log[j]);
            } else {
                assert(log[log.len() - 1].1 == t);
            }
        }
    }
}

/// Saving and then loading: a tokenizer that loads the documents that
/// `save_vocab_and_merges` gave (as `load_vocab_and_merges` states on success)
/// holds the vocabulary and merge table of the one that saved them, and, when
/// the saving tokenizer's inverse vocabulary and vocabulary are inverse to each
/// other, the same inverse vocabulary too.
pub proof fn law_save_load_round_trip(
    saved: &BPETokenizerSimple,
    loaded: &BPETokenizerSimple,
    vocab_doc: Seq<(String, String)>,
    merges_doc: Seq<BpeMerge>,
)
    requires
        vocab_map(native_vocab_log(vocab_doc)) == saved.vocab(),
        forall|i: int, j: int|
            0 <= i < j < vocab_doc.len() ==> id_or_zero(vocab_doc[i].0@) != id_or_zero(vocab_doc[j].0@),
        merge_map(native_merge_log(merges_doc)) == saved.merges(),
        loaded.vocab_log() == native_vocab_log(vocab_doc),
        loaded.merge_log() == native_merge_log(merges_doc),
    ensures
        loaded.vocab() == saved.vocab(),
        loaded.merges() == saved.merges(),
        (forall|s: Seq<char>|
            #[trigger] saved.inverse().contains_key(s) ==> saved.vocab().contains_key(saved.inverse()[s])
                && saved.vocab()[saved.inverse()[s]] == s) && (forall|i: usize|
            #[trigger] saved.vocab().contains_key(i) ==> saved.inverse().contains_key(saved.vocab()[i])
                && saved.inverse()[saved.vocab()[i]] == i) ==> loaded.inverse() == saved.inverse(),
{
    let l = native_vocab_log(vocab_doc);
    let v = saved.vocab();
    let inv = saved.inverse();
    if (forall|s: Seq<char>|
        #[trigger] inv.contains_key(s) ==> v.contains_key(inv[s]) && v[inv[s]] == s) && (forall|i: usize|
        #[trigger] v.contains_key(i) ==> inv.contains_key(v[i]) && inv[v[i]] == i) {
        assert forall|a: int, b: int| 0 <= a < b < l.len() implies l[a].0 != l[b].0 by {
            assert(l[a].0 == id_or_zero(vocab_doc[a].0@));
            assert(l[b].0 == id_or_zero(vocab_doc[b].0@));
        }
        lemma_vocab_map_log(l);
        assert forall|a: int, b: int| 0 <= a < b < l.len() implies l[a].1 != l[b].1 by {
            assert(v.contains_key(l[a].0) && v[l[a].0] == l[a].1);
            assert(v.contains_key(l[b].0) && v[l[b].0] == l[b].1);
            assert(inv[v[l[a].0]] == l[a].0);
            assert(inv[v[l[b].0]] == l[b].0);
        }
        lemma_inverse_map_log(l);
        let li = inverse_map(l);
        assert forall|t: Seq<char>| li.contains_key(t) <==> inv.contains_key(t) by {
            if li.contains_key(t) {
                let j = choose|j: int| 0 <= j < l.len() && l[j].1 == t;
                assert(v.contains_key(l[j].0) && v[l[j].0] == l[j].1);
            }
            if inv.contains_key(t) {
                let id = inv[t];
                assert(v.contains_key(id));
                let j = choose|j: int| 0 <= j < l.len() && l[j].0 == id;
                assert(v[l[j].0] == l[j].1);
                assert(li.contains_key(l[j].1));
            }
        }
        assert forall|t: Seq<char>| #[trigger] li.contains_key(t) implies li[t] == inv[t] by {
            let j = choose|j: int| 0 <= j < l.len() && l[j].1 == t;
            assert(v.contains_key(l[j].0) && v[l[j].0] == l[j].1);
            assert(li[l[j].1] == l[j].0);
        }
        assert(li =~= inv);
    }
}

} // verus!
