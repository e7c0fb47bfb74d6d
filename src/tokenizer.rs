use crate::pairs::{
    count_pairs, count_at, pair_count, is_first_most_frequent_among, most_frequent_pair_among, lemma_pair_key_injective,
    make_pair_key, pair_key, replace_pair,
};
use crate::persist::{
    id_or_zero, id_text, import_line, import_lines, imported_vocab_log, lemma_parse_decimal,
    lines_of, merge_lines, decimal_digits, line_usable, unusable_ranks, native_merge_log, native_vocab_log, parse_id, parsed_id, BpeMerge,
};
use crate::text::{
    chars_of, marked_text, preprocess, push_char, split_words, string_of, words_of, MARKER,
};
use crate::training::{
    add_absent, base_chars, dense_log, extra_chars,
    lemma_dense_inverse, lemma_dense_log_push, lemma_replaced_bounded, lemma_seed_ids_bounded,
    lemma_sorted_insert_at, merge_rounds, mergeable, all_distinct, lemma_seed_distinct, lemma_dense_vocab,
    lemma_dense_distinct_inverse, lemma_dense_inverse_value, seed_chars, seed_ids, seed_tokens, sorted_insert, trained,
};
use std::collections::HashSet;
use vstd::prelude::*;

verus! {

/// Errors that a tokenizer operation reports to its caller.
#[derive(Debug, PartialEq, Eq)]
pub enum TokenizerError {
    /// A token ID that the vocabulary does not hold.
    UnknownTokenId(usize),
    /// A vocabulary ID field that is not a decimal number that fits in `usize`.
    InvalidTokenId(String),
}

/// A byte-pair-encoding tokenizer: a vocabulary of token texts by ID, its
/// inverse, and a merge table from ordered ID pairs to the merged ID.
///
/// Both tables are kept as the sequence of insertions made into them; a later
/// insertion under the same key overrides an earlier one.
pub struct BPETokenizerSimple {
    vocab: Vec<(usize, Vec<char>)>,
    bpe_merges: Vec<(usize, usize, usize)>,
}

/// The value under `k`, if any.
pub open spec fn get_opt<K, V>(m: Map<K, V>, k: K) -> Option<V> {
    if m.contains_key(k) {
        Some(m[k])
    } else {
        None
    }
}

/// ID to text, after the given insertions.
pub open spec fn vocab_map(log: Seq<(usize, Seq<char>)>) -> Map<usize, Seq<char>>
    decreases log.len(),
{
    if log.len() == 0 {
        Map::empty()
    } else {
        vocab_map(log.drop_last()).insert(log.last().0, log.last().1)
    }
}

/// Text to ID, after the given insertions.
pub open spec fn inverse_map(log: Seq<(usize, Seq<char>)>) -> Map<Seq<char>, usize>
    decreases log.len(),
{
    if log.len() == 0 {
        Map::empty()
    } else {
        inverse_map(log.drop_last()).insert(log.last().1, log.last().0)
    }
}

/// Pair to merged ID, after the given insertions `(left, right, merged)`. A
/// pair is inserted at most once: an insertion for a pair that is already
/// present has no effect, so each pair keeps the ID of its first insertion.
pub open spec fn merge_map(log: Seq<(usize, usize, usize)>) -> Map<(usize, usize), usize>
    decreases log.len(),
{
    if log.len() == 0 {
        Map::empty()
    } else {
        let m = merge_map(log.drop_last());
        if m.contains_key((log.last().0, log.last().1)) {
            m
        } else {
            m.insert((log.last().0, log.last().1), log.last().2)
        }
    }
}

/// Once a prefix of the insertions holds a pair, the whole sequence maps it to
/// the same ID.
pub proof fn lemma_merge_map_prefix(log: Seq<(usize, usize, usize)>, k: int, p: (usize, usize))
    requires
        0 <= k <= log.len(),
        merge_map(log.take(k)).contains_key(p),
    ensures
        merge_map(log).contains_key(p),
        merge_map(log)[p] == merge_map(log.take(k))[p],
    decreases log.len(),
{
    if k == log.len() {
        assert(log.take(k) =~= log);
    } else {
        let d = log.drop_last();
        assert(d.take(k) =~= log.take(k));
        lemma_merge_map_prefix(d, k, p);
    }
}

/// How decode shows a token: a leading marker becomes a space.
pub open spec fn shown(t: Seq<char>) -> Seq<char> {
    if t.len() > 0 && t[0] == MARKER {
        seq![' '] + t.drop_first()
    } else {
        t
    }
}

/// The text that `ids` decode to under `v`.
pub open spec fn decoded(v: Map<usize, Seq<char>>, ids: Seq<usize>) -> Seq<char>
    decreases ids.len(),
{
    if ids.len() == 0 {
        seq![]
    } else {
        decoded(v, ids.drop_last()) + shown(v[ids.last()])
    }
}

/// One left-to-right pass that replaces each non-overlapping pair found in `m`.
pub open spec fn merge_pass(m: Map<(usize, usize), usize>, s: Seq<usize>) -> Seq<usize>
    decreases s.len(),
{
    if s.len() < 2 {
        s
    } else if m.contains_key((s[0], s[1])) {
        seq![m[(s[0], s[1])]] + merge_pass(m, s.drop_first().drop_first())
    } else {
        seq![s[0]] + merge_pass(m, s.drop_first())
    }
}

/// Passes of `merge_pass` repeated until one merges nothing.
pub open spec fn apply_merges(m: Map<(usize, usize), usize>, s: Seq<usize>) -> Seq<usize>
    decreases s.len(),
{
    let t = merge_pass(m, s);
    if s.len() > 1 && t.len() < s.len() {
        apply_merges(m, t)
    } else {
        t
    }
}

/// The characters of `w` that have no single-character entry in `inv`.
pub open spec fn missing_chars(inv: Map<Seq<char>, usize>, w: Seq<char>) -> Seq<char>
    decreases w.len(),
{
    if w.len() == 0 {
        seq![]
    } else if inv.contains_key(seq![w.last()]) {
        missing_chars(inv, w.drop_last())
    } else {
        missing_chars(inv, w.drop_last()).push(w.last())
    }
}

/// The IDs of the characters of `w` that have a single-character entry in `inv`.
pub open spec fn known_char_ids(inv: Map<Seq<char>, usize>, w: Seq<char>) -> Seq<usize>
    decreases w.len(),
{
    if w.len() == 0 {
        seq![]
    } else if inv.contains_key(seq![w.last()]) {
        known_char_ids(inv, w.drop_last()).push(inv[seq![w.last()]])
    } else {
        known_char_ids(inv, w.drop_last())
    }
}

/// The text of the token that stands for characters that cannot be encoded.
pub open spec fn unk_text() -> Seq<char> {
    seq!['<', 'U', 'N', 'K', '>']
}

/// The IDs that one (already marked) word encodes to.
pub open spec fn word_ids(inv: Map<Seq<char>, usize>, m: Map<(usize, usize), usize>, w: Seq<char>) -> Seq<usize> {
    if inv.contains_key(w) {
        seq![inv[w]]
    } else if missing_chars(inv, w).len() == 0 {
        apply_merges(m, known_char_ids(inv, w))
    } else if inv.contains_key(unk_text()) {
        seq![inv[unk_text()]]
    } else {
        known_char_ids(inv, w)
    }
}

/// Every word but the first gets the boundary marker.
pub open spec fn marked_word(k: int, w: Seq<char>) -> Seq<char> {
    if k > 0 {
        seq![MARKER] + w
    } else {
        w
    }
}

/// The IDs that a list of words encodes to.
pub open spec fn encode_words(
    inv: Map<Seq<char>, usize>,
    m: Map<(usize, usize), usize>,
    ws: Seq<Seq<char>>,
) -> Seq<usize>
    decreases ws.len(),
{
    if ws.len() == 0 {
        seq![]
    } else {
        encode_words(inv, m, ws.drop_last()) + word_ids(inv, m, marked_word(ws.len() - 1, ws.last()))
    }
}

/// The IDs that `text` encodes to.
pub open spec fn encoded(inv: Map<Seq<char>, usize>, m: Map<(usize, usize), usize>, text: Seq<char>) -> Seq<usize> {
    encode_words(inv, m, split_words(text))
}

proof fn lemma_merge_pass_len(m: Map<(usize, usize), usize>, s: Seq<usize>)
    ensures
        merge_pass(m, s).len() <= s.len(),
    decreases s.len(),
{
    if s.len() >= 2 {
        lemma_merge_pass_len(m, s.drop_first().drop_first());
        lemma_merge_pass_len(m, s.drop_first());
    }
}

impl BPETokenizerSimple {
    /// The vocabulary insertions, in order.
    pub closed spec fn vocab_log(&self) -> Seq<(usize, Seq<char>)> {
        self.vocab@.map_values(|e: (usize, Vec<char>)| (e.0, e.1@))
    }

    /// The merge-table insertions, in order.
    pub closed spec fn merge_log(&self) -> Seq<(usize, usize, usize)> {
        self.bpe_merges@
    }

    /// The vocabulary: ID to token text.
    pub open spec fn vocab(&self) -> Map<usize, Seq<char>> {
        vocab_map(self.vocab_log())
    }

    /// The inverse vocabulary: token text to ID.
    pub open spec fn inverse(&self) -> Map<Seq<char>, usize> {
        inverse_map(self.vocab_log())
    }

    /// The merge table.
    pub open spec fn merges(&self) -> Map<(usize, usize), usize> {
        merge_map(self.merge_log())
    }

    /// An empty tokenizer.
    pub fn new() -> (r: Self)
        ensures
            r.vocab_log().len() == 0,
            r.merge_log().len() == 0,
            r.vocab() == Map::<usize, Seq<char>>::empty(),
            r.inverse() == Map::<Seq<char>, usize>::empty(),
            r.merges() == Map::<(usize, usize), usize>::empty(),
    {
        BPETokenizerSimple { vocab: Vec::new(), bpe_merges: Vec::new() }
    }

    /// The text of token `id`.
    fn token_of(&self, id: usize) -> (r: Option<&Vec<char>>)
        ensures
            match r {
                Some(t) => self.vocab().contains_key(id) && self.vocab()[id] == t@,
                None => !self.vocab().contains_key(id),
            },
    {
        let ghost log = self.vocab_log();
        let mut i: usize = self.vocab.len();
        assert(log.take(i as int) =~= log);
        while i > 0
            invariant
                i <= self.vocab@.len(),
                log == self.vocab_log(),
                get_opt(vocab_map(log), id) == get_opt(vocab_map(log.take(i as int)), id),
            decreases i,
        {
            assert(log.take(i as int).drop_last() =~= log.take(i - 1));
            if self.vocab[i - 1].0 == id {
                return Some(&self.vocab[i - 1].1);
            }
            i -= 1;
        }
        None
    }

    /// The ID of the token whose text is `t`.
    fn id_of(&self, t: &[char]) -> (r: Option<usize>)
        ensures
            r == get_opt(self.inverse(), t@),
    {
        let ghost log = self.vocab_log();
        let mut i: usize = self.vocab.len();
        assert(log.take(i as int) =~= log);
        while i > 0
            invariant
                i <= self.vocab@.len(),
                log == self.vocab_log(),
                get_opt(inverse_map(log), t@) == get_opt(inverse_map(log.take(i as int)), t@),
            decreases i,
        {
            assert(log.take(i as int).drop_last() =~= log.take(i - 1));
            if same_chars(&self.vocab[i - 1].1, t) {
                return Some(self.vocab[i - 1].0);
            }
            i -= 1;
        }
        None
    }

    /// The ID that the merge table gives the pair `(a, b)`.
    fn merged_id(&self, a: usize, b: usize) -> (r: Option<usize>)
        ensures
            r == get_opt(self.merges(), (a, b)),
    {
        let ghost log = self.merge_log();
        let n = self.bpe_merges.len();
        let mut i: usize = 0;
        assert(log.take(0) =~= Seq::<(usize, usize, usize)>::empty());
        while i < n
            invariant
                n == self.bpe_merges@.len(),
                i <= n,
                log == self.merge_log(),
                !merge_map(log.take(i as int)).contains_key((a, b)),
            decreases n - i,
        {
            assert(log.take(i + 1).drop_last() =~= log.take(i as int));
            let e = self.bpe_merges[i];
            if e.0 == a && e.1 == b {
                proof {
                    lemma_merge_map_prefix(log, i + 1, (a, b));
                }
                return Some(e.2);
            }
            i += 1;
        }
        assert(log.take(n as int) =~= log);
        None
    }

    /// Decodes `token_ids` to text; fails on the first ID that the vocabulary lacks.
    pub fn decode(&self, token_ids: &[usize]) -> (r: Result<String, TokenizerError>)
        ensures
            match r {
                Ok(s) => (forall|i: int|
                    0 <= i < token_ids@.len() ==> self.vocab().contains_key(#[trigger] token_ids@[i]))
                    && s@ == decoded(self.vocab(), token_ids@),
                Err(TokenizerError::UnknownTokenId(id)) => exists|i: int|
                    0 <= i < token_ids@.len() && #[trigger] token_ids@[i] == id && !self.vocab().contains_key(id)
                        && forall|j: int| 0 <= j < i ==> self.vocab().contains_key(#[trigger] token_ids@[j]),
                Err(_) => false,
            },
    {
        let mut out = String::new();
        let mut k: usize = 0;
        while k < token_ids.len()
            invariant
                k <= token_ids@.len(),
                forall|j: int| 0 <= j < k ==> self.vocab().contains_key(#[trigger] token_ids@[j]),
                out@ == decoded(self.vocab(), token_ids@.take(k as int)),
            decreases token_ids.len() - k,
        {
            let id = token_ids[k];
            assert(token_ids@.take(k + 1).drop_last() =~= token_ids@.take(k as int));
            match self.token_of(id) {
                Some(t) => {
                    let ghost before = out@;
                    if t.len() > 0 && t[0] == MARKER {
                        push_char(&mut out, ' ');
                        let mut q: usize = 1;
                        while q < t.len()
                            invariant
                                1 <= q <= t@.len(),
                                out@ == before + seq![' '] + t@.subrange(1, q as int),
                            decreases t.len() - q,
                        {
                            push_char(&mut out, t[q]);
                            assert(t@.subrange(1, q + 1) =~= t@.subrange(1, q as int).push(t@[q as int]));
                            q += 1;
                        }
                        assert(t@.subrange(1, t@.len() as int) =~= t@.drop_first());
                    } else {
                        let mut q: usize = 0;
                        while q < t.len()
                            invariant
                                q <= t@.len(),
                                out@ == before + t@.take(q as int),
                            decreases t.len() - q,
                        {
                            push_char(&mut out, t[q]);
                            assert(t@.take(q + 1) =~= t@.take(q as int).push(t@[q as int]));
                            q += 1;
                        }
                        assert(t@.take(t@.len() as int) =~= t@);
                    }
                    assert(out@ =~= decoded(self.vocab(), token_ids@.take(k + 1)));
                },
                None => {
                    return Err(TokenizerError::UnknownTokenId(id));
                },
            }
            k += 1;
        }
        assert(token_ids@.take(token_ids@.len() as int) =~= token_ids@);
        Ok(out)
    }

    /// One pass of merge application; also says whether anything merged.
    fn merge_pass_once(&self, s: &Vec<usize>) -> (r: (Vec<usize>, bool))
        ensures
            r.0@ == merge_pass(self.merges(), s@),
            r.1 == (r.0@.len() < s@.len()),
    {
        let ghost m = self.merges();
        let n = s.len();
        let mut out: Vec<usize> = Vec::new();
        let mut i: usize = 0;
        let mut merged = false;
        assert(s@.subrange(0, n as int) =~= s@);
        while i < n
            invariant
                n == s@.len(),
                i <= n,
                m == self.merges(),
                out@ + merge_pass(m, s@.subrange(i as int, n as int)) == merge_pass(m, s@),
                merged == (out@.len() < i),
                out@.len() <= i,
            decreases n - i,
        {
            let ghost rest = s@.subrange(i as int, n as int);
            let current = s[i];
            let found = if i + 1 < n {
                self.merged_id(current, s[i + 1])
            } else {
                None
            };
            match found {
                Some(id) => {
                    assert(rest.drop_first().drop_first() =~= s@.subrange(i + 2, n as int));
                    assert(out@.push(id) + merge_pass(m, rest.drop_first().drop_first())
                        =~= out@ + merge_pass(m, rest));
                    out.push(id);
                    merged = true;
                    i += 2;
                },
                None => {
                    assert(rest.drop_first() =~= s@.subrange(i + 1, n as int));
                    proof {
                        if rest.len() < 2 {
                            assert(rest.drop_first().len() == 0);
                        }
                    }
                    assert(out@.push(current) + merge_pass(m, rest.drop_first())
                        =~= out@ + merge_pass(m, rest));
                    out.push(current);
                    i += 1;
                },
            }
        }
        assert(s@.subrange(n as int, n as int).len() == 0);
        assert(out@ + merge_pass(m, s@.subrange(n as int, n as int)) =~= out@);
        (out, merged)
    }

    /// Splits `token` into characters, maps each to its ID and applies merge
    /// passes until one merges nothing. Fails with the characters that have no
    /// entry of their own.
    fn tokenize_with_bpe(&self, token: &[char]) -> (r: Result<Vec<usize>, Vec<char>>)
        ensures
            match r {
                Ok(ids) => missing_chars(self.inverse(), token@).len() == 0 && ids@ == apply_merges(
                    self.merges(),
                    known_char_ids(self.inverse(), token@),
                ),
                Err(missing) => missing@.len() > 0 && missing@ == missing_chars(self.inverse(), token@),
            },
    {
        let ghost inv = self.inverse();
        let mut token_ids: Vec<usize> = Vec::new();
        let mut missing: Vec<char> = Vec::new();
        let mut i: usize = 0;
        while i < token.len()
            invariant
                i <= token@.len(),
                inv == self.inverse(),
                token_ids@ == known_char_ids(inv, token@.take(i as int)),
                missing@ == missing_chars(inv, token@.take(i as int)),
            decreases token.len() - i,
        {
            let c = token[i];
            assert(token@.take(i + 1).drop_last() =~= token@.take(i as int));
            let single = vec![c];
            assert(single@ =~= seq![c]);
            match self.id_of(&single) {
                Some(id) => token_ids.push(id),
                None => missing.push(c),
            }
            i += 1;
        }
        assert(token@.take(token@.len() as int) =~= token@);
        if missing.len() > 0 {
            return Err(missing);
        }
        let ghost start = token_ids@;
        loop
            invariant
                apply_merges(self.merges(), token_ids@) == apply_merges(self.merges(), start),
                start == known_char_ids(self.inverse(), token@),
                missing_chars(self.inverse(), token@).len() == 0,
            decreases token_ids@.len(),
        {
            if token_ids.len() <= 1 {
                assert(merge_pass(self.merges(), token_ids@) == token_ids@);
                assert(apply_merges(self.merges(), token_ids@) == token_ids@);
                return Ok(token_ids);
            }
            let (next, merged) = self.merge_pass_once(&token_ids);
            proof {
                lemma_merge_pass_len(self.merges(), token_ids@);
            }
            if !merged {
                assert(apply_merges(self.merges(), token_ids@) == next@);
                return Ok(next);
            }
            token_ids = next;
        }
    }

    /// Encodes `text`: splits it at whitespace, marks every word but the first
    /// with the boundary marker, and maps each word to IDs. A word found whole in
    /// the vocabulary gives its own ID; otherwise merges are applied to its
    /// characters. A word with a character that has no entry gives the ID of
    /// `<UNK>` if the vocabulary has one, else the IDs of the characters it has.
    pub fn encode(&self, text: &str) -> (r: Vec<usize>)
        ensures
            r@ == encoded(self.inverse(), self.merges(), text@),
    {
        let ghost inv = self.inverse();
        let ghost m = self.merges();
        let chars = chars_of(text);
        let words = words_of(&chars);
        let ghost ws = words@.map_values(|w: Vec<char>| w@);
        let mut token_ids: Vec<usize> = Vec::new();
        let mut k: usize = 0;
        while k < words.len()
            invariant
                k <= words@.len(),
                inv == self.inverse(),
                m == self.merges(),
                ws == words@.map_values(|w: Vec<char>| w@),
                ws == split_words(text@),
                token_ids@ == encode_words(inv, m, ws.take(k as int)),
            decreases words.len() - k,
        {
            // A newline is whitespace, so no word starts with one.
            let word = mark_word(k, &words[k]);
            assert(word@ == marked_word(k as int, ws[k as int]));
            let ghost before = token_ids@;
            match self.id_of(&word) {
                Some(id) => {
                    token_ids.push(id);
                },
                None => {
                    match self.tokenize_with_bpe(&word) {
                        Ok(sub) => {
                            let mut q: usize = 0;
                            while q < sub.len()
                                invariant
                                    q <= sub@.len(),
                                    token_ids@ == before + sub@.take(q as int),
                                decreases sub.len() - q,
                            {
                                token_ids.push(sub[q]);
                                assert(sub@.take(q + 1) =~= sub@.take(q as int).push(sub@[q as int]));
                                q += 1;
                            }
                            assert(sub@.take(sub@.len() as int) =~= sub@);
                        },
                        Err(_) => {
                            let unk: Vec<char> = vec!['<', 'U', 'N', 'K', '>'];
                            assert(unk@ =~= unk_text());
                            match self.id_of(&unk) {
                                Some(unk_id) => token_ids.push(unk_id),
                                None => {
                                    let mut q: usize = 0;
                                    while q < word.len()
                                        invariant
                                            q <= word@.len(),
                                            inv == self.inverse(),
                                            token_ids@ == before + known_char_ids(inv, word@.take(q as int)),
                                        decreases word.len() - q,
                                    {
                                        let single = vec![word[q]];
                                        assert(single@ =~= seq![word@[q as int]]);
                                        assert(word@.take(q + 1).drop_last() =~= word@.take(q as int));
                                        match self.id_of(&single) {
                                            Some(cid) => token_ids.push(cid),
                                            None => {},
                                        }
                                        q += 1;
                                    }
                                    assert(word@.take(word@.len() as int) =~= word@);
                                },
                            }
                        },
                    }
                },
            }
            assert(ws.take(k + 1).drop_last() =~= ws.take(k as int));
            assert(token_ids@ =~= encode_words(inv, m, ws.take(k + 1)));
            k += 1;
        }
        assert(ws.take(ws.len() as int) =~= ws);
        token_ids
    }

    /// Whether the tokenizer holds exactly what training on `text` with
    /// `vocab_size` and `specials` produces.
    pub open spec fn trained_from(&self, text: Seq<char>, vocab_size: nat, specials: Seq<Seq<char>>) -> bool {
        &&& self.vocab_log() == dense_log(trained(text, vocab_size, specials).0)
        &&& self.merge_log() == trained(text, vocab_size, specials).1
        &&& trained(text, vocab_size, specials).0.len() <= usize::MAX
    }

    /// Learns a vocabulary and merge table from `text`, replacing whatever the
    /// tokenizer held. The vocabulary is seeded with the 256 base symbols, the
    /// further characters of the preprocessed text in code-point order, the
    /// boundary marker and the special tokens in the order given, none of them
    /// twice; then, repeatedly, the most frequent adjacent pair whose joined
    /// text is not a token yet becomes a new token with the next free ID, until
    /// the vocabulary has `vocab_size` tokens or no such pair is left. A pair
    /// whose text is already a token (a special token, or a text reached by
    /// another merge) is skipped, so that no two IDs ever share a text and every
    /// merge adds exactly one ID.
    pub fn train(&mut self, text: &str, vocab_size: usize, allowed_special: Vec<String>)
        ensures
            final(self).trained_from(
                text@,
                vocab_size as nat,
                allowed_special@.map_values(|s: String| s@),
            ),
            forall|i: usize, j: usize|
                #[trigger] final(self).vocab().contains_key(i) && #[trigger] final(self).vocab().contains_key(j)
                    && i != j ==> final(self).vocab()[i] != final(self).vocab()[j],
            forall|i: usize|
                #[trigger] final(self).vocab().contains_key(i) ==> final(self).inverse().contains_key(
                    final(self).vocab()[i],
                ) && final(self).inverse()[final(self).vocab()[i]] == i,
    {
        let ghost specials = allowed_special@.map_values(|s: String| s@);
        let chars = chars_of(text);
        let processed = preprocess(&chars);
        let ghost marked = marked_text(text@);

        let mut extras: Vec<char> = Vec::new();
        let mut k: usize = 0;
        while k < processed.len()
            invariant
                k <= processed@.len(),
                extras@ == extra_chars(processed@.take(k as int)),
            decreases processed.len() - k,
        {
            assert(processed@.take(k + 1).drop_last() =~= processed@.take(k as int));
            let c = processed[k];
            if (c as u32) >= 256 {
                insert_sorted(&mut extras, c);
            }
            k += 1;
        }
        assert(processed@.take(processed@.len() as int) =~= processed@);

        let mut unique_chars: Vec<char> = Vec::new();
        let mut b: u32 = 0;
        while b < 256
            invariant
                b <= 256,
                unique_chars@ == base_chars().take(b as int),
            decreases 256 - b,
        {
            unique_chars.push((b as u8) as char);
            assert(base_chars().take(b + 1) =~= base_chars().take(b as int).push((b as u8) as char));
            b += 1;
        }
        let mut e: usize = 0;
        while e < extras.len()
            invariant
                e <= extras@.len(),
                unique_chars@ == base_chars() + extras@.take(e as int),
            decreases extras.len() - e,
        {
            unique_chars.push(extras[e]);
            assert(extras@.take(e + 1) =~= extras@.take(e as int).push(extras@[e as int]));
            assert(base_chars() + extras@.take(e + 1) =~= (base_chars() + extras@.take(e as int)).push(extras@[e as int]));
            e += 1;
        }
        assert(extras@.take(extras@.len() as int) =~= extras@);
        if !contains_char(&unique_chars, MARKER) {
            unique_chars.push(MARKER);
        }
        let ghost cs = seed_chars(marked);
        assert(unique_chars@ == cs);
        let ghost char_toks = cs.map_values(|c: char| seq![c]);

        self.vocab = Vec::new();
        self.bpe_merges = Vec::new();
        let mut i: usize = 0;
        assert(char_toks.take(0) =~= Seq::<Seq<char>>::empty());
        assert(dense_log(Seq::<Seq<char>>::empty()) =~= self.vocab_log());
        while i < unique_chars.len()
            invariant
                i <= unique_chars@.len(),
                unique_chars@ == cs,
                char_toks == cs.map_values(|c: char| seq![c]),
                self.vocab_log() == dense_log(add_absent(seq![], char_toks.take(i as int))),
                self.merge_log().len() == 0,
            decreases unique_chars.len() - i,
        {
            let ghost toks = add_absent(seq![], char_toks.take(i as int));
            let t: Vec<char> = vec![unique_chars[i]];
            assert(t@ =~= seq![cs[i as int]]);
            assert(char_toks.take(i + 1) =~= char_toks.take(i as int).push(t@));
            assert(char_toks.take(i + 1).drop_last() =~= char_toks.take(i as int));
            proof {
                lemma_dense_inverse(toks, t@);
            }
            if self.id_of(&t).is_none() {
                let id = self.vocab.len();
                proof {
                    lemma_dense_log_push(toks, t@);
                }
                self.vocab.push((id, t));
                assert(self.vocab_log() =~= dense_log(toks).push((id, t@)));
            }
            i += 1;
        }
        assert(char_toks.take(char_toks.len() as int) =~= char_toks);
        let ghost firsts = add_absent(seq![], char_toks);

        let mut k: usize = 0;
        while k < allowed_special.len()
            invariant
                k <= allowed_special@.len(),
                specials == allowed_special@.map_values(|s: String| s@),
                firsts == add_absent(seq![], char_toks),
                self.vocab_log() == dense_log(add_absent(firsts, specials.take(k as int))),
                self.merge_log().len() == 0,
            decreases allowed_special.len() - k,
        {
            let ghost toks = add_absent(firsts, specials.take(k as int));
            assert(specials.take(k + 1).drop_last() =~= specials.take(k as int));
            let t = chars_of(allowed_special[k].as_str());
            proof {
                lemma_dense_inverse(toks, t@);
            }
            if self.id_of(&t).is_none() {
                let id = self.vocab.len();
                proof {
                    lemma_dense_log_push(toks, t@);
                }
                self.vocab.push((id, t));
                assert(self.vocab_log() =~= dense_log(toks).push((id, t@)));
            }
            k += 1;
        }
        assert(specials.take(specials.len() as int) =~= specials);
        let ghost seed = seed_tokens(marked, specials);
        assert(self.vocab_log() == dense_log(seed));

        let mut token_ids: Vec<usize> = Vec::new();
        let mut k: usize = 0;
        while k < processed.len()
            invariant
                k <= processed@.len(),
                processed@ == marked,
                seed == seed_tokens(marked, specials),
                self.vocab_log() == dense_log(seed),
                self.merge_log().len() == 0,
                token_ids@ == seed_ids(seed, marked).take(k as int),
                forall|j: int| 0 <= j < k ==> token_ids@[j] < seed.len(),
            decreases processed.len() - k,
        {
            let c = processed[k];
            let single: Vec<char> = vec![c];
            proof {
                lemma_seed_ids_bounded(marked, specials, k as int);
                assert(single@ =~= seq![c]);
            }
            match self.id_of(&single) {
                Some(id) => {
                    token_ids.push(id);
                    assert(token_ids@ =~= seed_ids(seed, marked).take(k + 1));
                },
                None => {},
            }
            k += 1;
        }
        assert(seed_ids(seed, marked).take(marked.len() as int) =~= seed_ids(seed, marked));

        assert(self.vocab@.len() == self.vocab_log().len());
        let ghost target = vocab_size as nat;
        let ghost ids0 = token_ids@;
        let ghost toks = seed;
        let ghost merges: Seq<(usize, usize, usize)> = seq![];
        proof {
            lemma_seed_distinct(marked, specials);
        }
        while self.vocab.len() < vocab_size
            invariant
                self.vocab_log() == dense_log(toks),
                self.vocab@.len() == toks.len(),
                self.merge_log() == merges,
                target == vocab_size as nat,
                forall|j: int| 0 <= j < token_ids@.len() ==> token_ids@[j] < toks.len(),
                merge_rounds(toks, merges, token_ids@, target) == merge_rounds(seed, seq![], ids0, target),
                all_distinct(toks),
            ensures
                self.vocab_log() == dense_log(toks),
                self.merge_log() == merges,
                merge_rounds(seed, seq![], ids0, target) == (toks, merges),
                all_distinct(toks),
                self.vocab@.len() == toks.len(),
            decreases vocab_size - self.vocab.len(),
        {
            let found = self.best_mergeable_pair(&token_ids, Ghost(toks));
            match found {
                None => {
                    break;
                },
                Some(pair_id) => {
                    proof {
                        let q = choose|q: int| is_first_most_frequent_among(token_ids@, mergeable(toks), q);
                        assert(mergeable(toks)((token_ids@[q], token_ids@[q + 1])));
                    }
                    let new_id = self.vocab.len();
                    let merged = match self.mergeable_text(pair_id.0, pair_id.1, Ghost(toks)) {
                        Some(t) => t,
                        None => {
                            break;
                        },
                    };
                    let ghost merged_text = merged@;
                    proof {
                        lemma_dense_log_push(toks, merged_text);
                        lemma_replaced_bounded(token_ids@, pair_id.0, pair_id.1, new_id, toks.len() + 1int);
                        let grown = toks.push(merged_text);
                        assert forall|i: int, j: int| 0 <= i < j < grown.len() implies grown[i] != grown[j] by {
                            if j == toks.len() {
                                assert(toks[i] != merged_text);
                            }
                        }
                        assert(all_distinct(grown));
                    }
                    self.vocab.push((new_id, merged));
                    self.bpe_merges.push((pair_id.0, pair_id.1, new_id));
                    token_ids = replace_pair(&token_ids, &pair_id, new_id);
                    proof {
                        toks = toks.push(merged_text);
                        merges = merges.push((pair_id.0, pair_id.1, new_id));
                    }
                    assert(self.vocab_log() =~= dense_log(toks));
                },
            }
        }
        let final_len = self.vocab.len();
        assert(final_len == toks.len());
        proof {
            assert forall|i: usize| #[trigger] self.vocab().contains_key(i) implies self.inverse().contains_key(
                self.vocab()[i],
            ) && self.inverse()[self.vocab()[i]] == i by {
                lemma_dense_vocab(toks, i);
                lemma_dense_distinct_inverse(toks, i as int);
            }
            assert forall|i: usize, j: usize|
                #[trigger] self.vocab().contains_key(i) && #[trigger] self.vocab().contains_key(j) && i != j
                    implies self.vocab()[i] != self.vocab()[j] by {
                lemma_dense_vocab(toks, i);
                lemma_dense_vocab(toks, j);
            }
        }
    }

    /// The text that `a` and `b` join, when the pair may be merged: both are
    /// tokens and the text is not a token yet.
    fn mergeable_text(&self, a: usize, b: usize, toks: Ghost<Seq<Seq<char>>>) -> (r: Option<Vec<char>>)
        requires
            self.vocab_log() == dense_log(toks@),
            self.vocab@.len() == toks@.len(),
        ensures
            r is Some <==> mergeable(toks@)((a, b)),
            r matches Some(t) ==> t@ == toks@[a as int] + toks@[b as int],
    {
        if a >= self.vocab.len() || b >= self.vocab.len() {
            return None;
        }
        let mut merged: Vec<char> = self.vocab[a].1.clone();
        let right: &Vec<char> = &self.vocab[b].1;
        let ghost left_text = merged@;
        let mut q: usize = 0;
        while q < right.len()
            invariant
                q <= right@.len(),
                merged@ == left_text + right@.take(q as int),
            decreases right.len() - q,
        {
            merged.push(right[q]);
            assert(right@.take(q + 1) =~= right@.take(q as int).push(right@[q as int]));
            q += 1;
        }
        assert(right@.take(right@.len() as int) =~= right@);
        assert(self.vocab_log()[a as int] == dense_log(toks@)[a as int]);
        assert(self.vocab_log()[b as int] == dense_log(toks@)[b as int]);
        assert(left_text == self.vocab@[a as int].1@);
        assert(merged@ == toks@[a as int] + toks@[b as int]);
        proof {
            lemma_dense_inverse(toks@, merged@);
        }
        if self.id_of(&merged).is_some() {
            None
        } else {
            Some(merged)
        }
    }

    /// The most frequent adjacent pair of `token_ids` that may be merged, ties
    /// going to the one that occurs first.
    #[verifier::rlimit(80)]
    fn best_mergeable_pair(&self, token_ids: &Vec<usize>, toks: Ghost<Seq<Seq<char>>>) -> (r: Option<(usize, usize)>)
        requires
            self.vocab_log() == dense_log(toks@),
            self.vocab@.len() == toks@.len(),
        ensures
            r == most_frequent_pair_among(token_ids@, mergeable(toks@)),
    {
        broadcast use vstd::std_specs::hash::group_hash_axioms;

        let ghost s = token_ids@;
        let ghost ok = mergeable(toks@);
        let n = token_ids.len();
        if n < 2 {
            return None;
        }
        let counts = count_pairs(token_ids.as_slice());
        let mut best: Option<(usize, usize)> = None;
        let mut i: usize = 0;
        while i + 1 < n
            invariant
                n == s.len(),
                s == token_ids@,
                ok == mergeable(toks@),
                n >= 2,
                i + 1 <= n,
                self.vocab_log() == dense_log(toks@),
                self.vocab@.len() == toks@.len(),
                forall|a: usize, b: usize|
                    #![trigger pair_key(a, b)]
                    counts@.contains_key(pair_key(a, b)) <==> pair_count(s, a, b) > 0,
                forall|a: usize, b: usize|
                    #![trigger pair_key(a, b)]
                    counts@.contains_key(pair_key(a, b)) ==> counts@[pair_key(a, b)] == pair_count(s, a, b),
                match best {
                    None => forall|j: int| 0 <= j < i ==> !ok((#[trigger] s[j], s[j + 1])),
                    Some(bc) => {
                        &&& bc.0 < i
                        &&& bc.1 == count_at(s, bc.0 as int)
                        &&& ok((s[bc.0 as int], s[bc.0 + 1]))
                        &&& forall|j: int| 0 <= j < i && ok((#[trigger] s[j], s[j + 1])) ==> count_at(s, j) <= bc.1
                        &&& forall|j: int| 0 <= j < bc.0 && ok((#[trigger] s[j], s[j + 1])) ==> count_at(s, j) < bc.1
                    },
                },
            decreases n - i,
        {
            let key = make_pair_key(token_ids[i], token_ids[i + 1]);
            let c: usize = match counts.get(&key) {
                Some(v) => *v,
                None => 0,
            };
            assert(c == count_at(s, i as int));
            let better = match best {
                None => true,
                Some(bc) => c > bc.1,
            };
            let ghost old_best = best;
            if better && self.mergeable_text(token_ids[i], token_ids[i + 1], toks).is_some() {
                best = Some((i, c));
            }
            proof {
                match best {
                    None => {
                        assert forall|j: int| 0 <= j < i + 1 implies !ok((#[trigger] s[j], s[j + 1])) by {
                            if j == i {
                                assert(better);
                            }
                        }
                    },
                    Some(bc) => {
                        assert forall|j: int| 0 <= j < i + 1 && ok((#[trigger] s[j], s[j + 1])) implies count_at(s, j) <= bc.1 by {
                            if j == i && bc.0 != i {
                                assert(!better || !ok((s[j], s[j + 1])));
                            }
                        }
                    },
                }
            }
            i += 1;
        }
        match best {
            None => {
                assert(!exists|q: int| is_first_most_frequent_among(s, ok, q));
                None
            },
            Some(bc) => {
                let b = bc.0;
                proof {
                    assert(is_first_most_frequent_among(s, ok, b as int));
                    let k = choose|k: int| is_first_most_frequent_among(s, ok, k);
                    if k < b {
                        assert(count_at(s, k) < count_at(s, b as int));
                    } else if k > b {
                        assert(count_at(s, b as int) < count_at(s, k));
                    }
                }
                Some((token_ids[b], token_ids[b + 1]))
            },
        }
    }

    /// One entry per ID of the vocabulary, with its current text.
    fn vocab_entries(&self) -> (r: Vec<(usize, Vec<char>)>)
        ensures
            vocab_map(entries_view(r@)) == self.vocab(),
            forall|i: int, j: int| 0 <= i < j < r@.len() ==> r@[i].0 != r@[j].0,
    {
        broadcast use vstd::std_specs::hash::group_hash_axioms;

        let ghost log = self.vocab_log();
        let mut out: Vec<(usize, Vec<char>)> = Vec::new();
        let mut seen: HashSet<usize> = HashSet::new();
        let mut i: usize = self.vocab.len();
        assert(log.take(i as int) =~= log);
        assert(vocab_map(log) =~= vocab_map(log.take(i as int)).union_prefer_right(vocab_map(entries_view(out@))));
        while i > 0
            invariant
                i <= self.vocab@.len(),
                log == self.vocab_log(),
                vocab_map(log) == vocab_map(log.take(i as int)).union_prefer_right(vocab_map(entries_view(out@))),
                forall|x: usize| seen@.contains(x) <==> vocab_map(entries_view(out@)).contains_key(x),
                forall|j: int| 0 <= j < out@.len() ==> vocab_map(entries_view(out@)).contains_key(#[trigger] out@[j].0),
                forall|a: int, b: int| 0 <= a < b < out@.len() ==> out@[a].0 != out@[b].0,
            decreases i,
        {
            let ghost a = vocab_map(log.take(i - 1));
            let ghost m = vocab_map(entries_view(out@));
            assert(log.take(i as int).drop_last() =~= log.take(i - 1));
            let id = self.vocab[i - 1].0;
            let ghost t = log[i - 1].1;
            if !seen.contains(&id) {
                let text = self.vocab[i - 1].1.clone();
                let ghost prev = out@;
                out.push((id, text));
                seen.insert(id);
                assert(entries_view(out@) =~= entries_view(prev).push((id, t)));
                assert(entries_view(out@).drop_last() =~= entries_view(prev));
                assert(vocab_map(entries_view(out@)) == m.insert(id, t));
                assert(a.insert(id, t).union_prefer_right(m) =~= a.union_prefer_right(m.insert(id, t)));
            } else {
                assert(a.insert(id, t).union_prefer_right(m) =~= a.union_prefer_right(m));
            }
            i -= 1;
        }
        assert(log.take(0) =~= Seq::<(usize, Seq<char>)>::empty());
        assert(vocab_map(log) =~= vocab_map(entries_view(out@)));
        out
    }

    /// One entry per pair of the merge table, with its merged ID.
    fn merge_entries(&self) -> (r: Vec<(usize, usize, usize)>)
        ensures
            merge_map(r@) == self.merges(),
            forall|i: int, j: int|
                0 <= i < j < r@.len() ==> (r@[i].0, r@[i].1) != (r@[j].0, r@[j].1),
    {
        broadcast use vstd::std_specs::hash::group_hash_axioms;

        let ghost log = self.merge_log();
        let n = self.bpe_merges.len();
        let mut out: Vec<(usize, usize, usize)> = Vec::new();
        let mut seen: HashSet<u128> = HashSet::new();
        let mut i: usize = 0;
        assert(log.take(0) =~= Seq::<(usize, usize, usize)>::empty());
        while i < n
            invariant
                n == self.bpe_merges@.len(),
                i <= n,
                log == self.merge_log(),
                merge_map(log.take(i as int)) == merge_map(out@),
                forall|x: usize, y: usize| #![trigger pair_key(x, y)]
                    seen@.contains(pair_key(x, y)) <==> merge_map(out@).contains_key((x, y)),
                forall|j: int| 0 <= j < out@.len() ==> merge_map(out@).contains_key((#[trigger] out@[j].0, out@[j].1)),
                forall|a: int, b: int| 0 <= a < b < out@.len() ==> (out@[a].0, out@[a].1) != (out@[b].0, out@[b].1),
            decreases n - i,
        {
            let ghost m = merge_map(out@);
            assert(log.take(i + 1).drop_last() =~= log.take(i as int));
            let e = self.bpe_merges[i];
            let key = make_pair_key(e.0, e.1);
            if !seen.contains(&key) {
                let ghost prev = out@;
                out.push(e);
                seen.insert(key);
                assert(out@.drop_last() =~= prev);
                assert(merge_map(out@) == m.insert((e.0, e.1), e.2));
                assert forall|x: usize, y: usize| #![trigger pair_key(x, y)]
                    seen@.contains(pair_key(x, y)) <==> merge_map(out@).contains_key((x, y)) by {
                    if pair_key(x, y) == key {
                        lemma_pair_key_injective(x, y, e.0, e.1);
                    }
                }
            }
            i += 1;
        }
        assert(log.take(n as int) =~= log);
        out
    }

    /// The two persisted documents: the vocabulary as (decimal ID, token text)
    /// entries, one per ID, and the merge table as a list of merges.
    pub fn save_vocab_and_merges(&self) -> (r: (Vec<(String, String)>, Vec<BpeMerge>))
        ensures
            forall|i: int| 0 <= i < r.0@.len() ==> parsed_id(#[trigger] r.0@[i].0@) is Some,
            forall|i: int|
                0 <= i < r.0@.len() ==> (#[trigger] r.0@[i]).0@ == decimal_digits(
                    id_or_zero(r.0@[i].0@) as nat,
                ),
            forall|i: int, j: int|
                0 <= i < j < r.0@.len() ==> id_or_zero(r.0@[i].0@) != id_or_zero(r.0@[j].0@),
            vocab_map(native_vocab_log(r.0@)) == self.vocab(),
            forall|i: int| 0 <= i < r.1@.len() ==> (#[trigger] r.1@[i]).pair@.len() == 2,
            forall|i: int, j: int| 0 <= i < j < r.1@.len() ==> r.1@[i].pair@ != r.1@[j].pair@,
            merge_map(native_merge_log(r.1@)) == self.merges(),
    {
        let entries = self.vocab_entries();
        let mut doc: Vec<(String, String)> = Vec::new();
        let mut k: usize = 0;
        while k < entries.len()
            invariant
                k <= entries@.len(),
                forall|i: int| 0 <= i < doc@.len() ==> parsed_id(#[trigger] doc@[i].0@) is Some,
                forall|i: int| 0 <= i < doc@.len() ==> (#[trigger] doc@[i]).0@ == decimal_digits(
                    entries@[i].0 as nat,
                ),
                native_vocab_log(doc@) == entries_view(entries@).take(k as int),
            decreases entries.len() - k,
        {
            let key = id_text(entries[k].0);
            let value = string_of(&entries[k].1);
            proof {
                lemma_parse_decimal(entries@[k as int].0);
            }
            let ghost prev = doc@;
            doc.push((key, value));
            assert(native_vocab_log(doc@) =~= native_vocab_log(prev).push((entries@[k as int].0, entries@[k as int].1@)));
            assert(entries_view(entries@).take(k + 1) =~= entries_view(entries@).take(k as int).push((entries@[k as int].0, entries@[k as int].1@)));
            assert(native_vocab_log(doc@) =~= entries_view(entries@).take(k + 1));
            k += 1;
        }
        assert(entries_view(entries@).take(entries@.len() as int) =~= entries_view(entries@));
        assert forall|i: int, j: int|
            0 <= i < j < doc@.len() implies id_or_zero(doc@[i].0@) != id_or_zero(doc@[j].0@) by {
            assert(native_vocab_log(doc@)[i].0 == entries@[i].0);
            assert(native_vocab_log(doc@)[j].0 == entries@[j].0);
        }

        let mentries = self.merge_entries();
        let mut list: Vec<BpeMerge> = Vec::new();
        let mut k: usize = 0;
        assert(mentries@.take(0) =~= Seq::<(usize, usize, usize)>::empty());
        while k < mentries.len()
            invariant
                k <= mentries@.len(),
                forall|i: int| 0 <= i < list@.len() ==> (#[trigger] list@[i]).pair@.len() == 2,
                list@.len() == k,
                forall|i: int| 0 <= i < list@.len() ==> (#[trigger] list@[i]).pair@ == seq![mentries@[i].0, mentries@[i].1],
                native_merge_log(list@) == mentries@.take(k as int),
            decreases mentries.len() - k,
        {
            let e = mentries[k];
            let pair: Vec<usize> = vec![e.0, e.1];
            assert(pair@ =~= seq![e.0, e.1]);
            let ghost prev = list@;
            list.push(BpeMerge { pair, new_id: e.2 });
            assert(list@.drop_last() =~= prev);
            assert(list@[k as int].pair@ == seq![mentries@[k as int].0, mentries@[k as int].1]);
            assert(native_merge_log(list@) =~= mentries@.take(k + 1));
            k += 1;
        }
        assert(mentries@.take(mentries@.len() as int) =~= mentries@);
        assert forall|i: int, j: int| 0 <= i < j < list@.len() implies list@[i].pair@ != list@[j].pair@ by {
            assert(list@[i].pair@[0] == mentries@[i].0 && list@[i].pair@[1] == mentries@[i].1);
            assert(list@[j].pair@[0] == mentries@[j].0 && list@[j].pair@[1] == mentries@[j].1);
            assert((mentries@[i].0, mentries@[i].1) != (mentries@[j].0, mentries@[j].1));
        }
        assert forall|i: int| 0 <= i < doc@.len() implies (#[trigger] doc@[i]).0@ == decimal_digits(
            id_or_zero(doc@[i].0@) as nat,
        ) by {
            lemma_parse_decimal(entries@[i].0);
        }
        (doc, list)
    }

    /// Replaces the vocabulary and the merge table by those of the persisted
    /// documents. Fails on the first vocabulary ID that is not a decimal number.
    pub fn load_vocab_and_merges(&mut self, vocab_doc: Vec<(String, String)>, merges_doc: Vec<BpeMerge>) -> (r: Result<(), TokenizerError>)
        ensures
            r is Ok <==> forall|i: int| 0 <= i < vocab_doc@.len() ==> parsed_id(#[trigger] vocab_doc@[i].0@) is Some,
            r is Ok ==> final(self).vocab_log() == native_vocab_log(vocab_doc@)
                && final(self).merge_log() == native_merge_log(merges_doc@),
            match r {
                Err(TokenizerError::InvalidTokenId(k)) => exists|i: int|
                    0 <= i < vocab_doc@.len() && (#[trigger] vocab_doc@[i]).0@ == k@ && parsed_id(k@) is None,
                Err(_) => false,
                Ok(_) => true,
            },
    {
        self.vocab = Vec::new();
        let mut k: usize = 0;
        assert(vocab_doc@.take(0) =~= Seq::<(String, String)>::empty());
        while k < vocab_doc.len()
            invariant
                k <= vocab_doc@.len(),
                self.vocab_log() == native_vocab_log(vocab_doc@.take(k as int)),
                forall|i: int| 0 <= i < k ==> parsed_id(#[trigger] vocab_doc@[i].0@) is Some,
            decreases vocab_doc.len() - k,
        {
            let key = chars_of(vocab_doc[k].0.as_str());
            match parse_id(&key) {
                Some(id) => {
                    let text = chars_of(vocab_doc[k].1.as_str());
                    let ghost prev = self.vocab_log();
                    self.vocab.push((id, text));
                    assert(self.vocab_log() =~= prev.push((id, text@)));
                    assert(vocab_doc@.take(k + 1) =~= vocab_doc@.take(k as int).push(vocab_doc@[k as int]));
                    assert(native_vocab_log(vocab_doc@.take(k + 1)) =~= native_vocab_log(vocab_doc@.take(k as int)).push((id, text@)));
                },
                None => {
                    return Err(TokenizerError::InvalidTokenId(vocab_doc[k].0.clone()));
                },
            }
            k += 1;
        }
        assert(vocab_doc@.take(vocab_doc@.len() as int) =~= vocab_doc@);
        self.bpe_merges = Vec::new();
        let mut k: usize = 0;
        assert(merges_doc@.take(0) =~= Seq::<BpeMerge>::empty());
        while k < merges_doc.len()
            invariant
                k <= merges_doc@.len(),
                self.merge_log() == native_merge_log(merges_doc@.take(k as int)),
                self.vocab_log() == native_vocab_log(vocab_doc@),
            decreases merges_doc.len() - k,
        {
            assert(merges_doc@.take(k + 1).drop_last() =~= merges_doc@.take(k as int));
            let m = &merges_doc[k];
            if m.pair.len() == 2 {
                self.bpe_merges.push((m.pair[0], m.pair[1], m.new_id));
            }
            k += 1;
        }
        assert(merges_doc@.take(merges_doc@.len() as int) =~= merges_doc@);
        Ok(())
    }

    /// Adds a vocabulary given as (token text, decimal ID) entries, then the
    /// merges of a merges file: one `"left right"` pair of token texts per line,
    /// after an optional header line that starts with `#`. A line is skipped
    /// unless it has exactly two words and both tokens and their concatenation
    /// are in the vocabulary. Fails on the first ID that is not a decimal number.
    pub fn load_vocab_and_merges_from_openai(&mut self, vocab_doc: Vec<(String, String)>, merges_text: &str) -> (r: Result<(), TokenizerError>)
        ensures
            r is Ok <==> forall|i: int| 0 <= i < vocab_doc@.len() ==> parsed_id(#[trigger] vocab_doc@[i].1@) is Some,
            r is Ok ==> final(self).vocab_log() == old(self).vocab_log() + imported_vocab_log(vocab_doc@)
                && final(self).merges() == import_lines(final(self).inverse(), old(self).merges(), merge_lines(merges_text@)),
            match r {
                Err(TokenizerError::InvalidTokenId(v)) => exists|i: int|
                    0 <= i < vocab_doc@.len() && (#[trigger] vocab_doc@[i]).1@ == v@ && parsed_id(v@) is None,
                Err(_) => false,
                Ok(_) => true,
            },
    {
        let ghost start = self.vocab_log();
        let mut k: usize = 0;
        assert(vocab_doc@.take(0) =~= Seq::<(String, String)>::empty());
        assert(start + imported_vocab_log(vocab_doc@.take(0)) =~= start);
        while k < vocab_doc.len()
            invariant
                k <= vocab_doc@.len(),
                self.vocab_log() == start + imported_vocab_log(vocab_doc@.take(k as int)),
                self.merge_log() == old(self).merge_log(),
                forall|i: int| 0 <= i < k ==> parsed_id(#[trigger] vocab_doc@[i].1@) is Some,
            decreases vocab_doc.len() - k,
        {
            let value = chars_of(vocab_doc[k].1.as_str());
            match parse_id(&value) {
                Some(id) => {
                    let text = chars_of(vocab_doc[k].0.as_str());
                    let ghost prev = self.vocab_log();
                    self.vocab.push((id, text));
                    assert(self.vocab_log() =~= prev.push((id, text@)));
                    assert(vocab_doc@.take(k + 1) =~= vocab_doc@.take(k as int).push(vocab_doc@[k as int]));
                    assert(imported_vocab_log(vocab_doc@.take(k + 1)) =~= imported_vocab_log(vocab_doc@.take(k as int)).push((id, text@)));
                    assert(self.vocab_log() =~= start + imported_vocab_log(vocab_doc@.take(k + 1)));
                },
                None => {
                    return Err(TokenizerError::InvalidTokenId(vocab_doc[k].1.clone()));
                },
            }
            k += 1;
        }
        assert(vocab_doc@.take(vocab_doc@.len() as int) =~= vocab_doc@);

        let ghost inv = self.inverse();
        let ghost m0 = self.merges();
        assert(m0 == old(self).merges());
        let text = chars_of(merges_text);
        let lines = lines_of(&text);
        let ghost ls = lines@.map_values(|l: Vec<char>| l@);
        let start_idx: usize = if lines.len() > 0 && lines[0].len() > 0 && lines[0][0] == '#' {
            1
        } else {
            0
        };
        let ghost body = merge_lines(merges_text@);
        assert(body =~= ls.subrange(start_idx as int, ls.len() as int));
        let mut k: usize = start_idx;
        assert(body.take(0) =~= Seq::<Seq<char>>::empty());
        while k < lines.len()
            invariant
                start_idx <= k <= lines@.len(),
                ls == lines@.map_values(|l: Vec<char>| l@),
                body == ls.subrange(start_idx as int, ls.len() as int),
                inv == self.inverse(),
                self.vocab_log() == start + imported_vocab_log(vocab_doc@),
                self.merges() == import_lines(inv, m0, body.take(k - start_idx)),
                m0 == old(self).merges(),
            decreases lines.len() - k,
        {
            let ghost before = self.merges();
            assert(body.take(k - start_idx + 1).drop_last() =~= body.take(k - start_idx));
            assert(body[k - start_idx] == ls[k as int]);
            let words = words_of(&lines[k]);
            if words.len() == 2 {
                let first = self.id_of(&words[0]);
                let second = self.id_of(&words[1]);
                if first.is_some() && second.is_some() {
                    let mut merged: Vec<char> = words[0].clone();
                    let mut q: usize = 0;
                    while q < words[1].len()
                        invariant
                            words@.len() == 2,
                            q <= words@[1]@.len(),
                            merged@ == words@[0]@ + words@[1]@.take(q as int),
                        decreases words@[1]@.len() - q,
                    {
                        merged.push(words[1][q]);
                        assert(words@[1]@.take(q + 1) =~= words@[1]@.take(q as int).push(words@[1]@[q as int]));
                        q += 1;
                    }
                    assert(words@[1]@.take(words@[1]@.len() as int) =~= words@[1]@);
                    if let Some(merged_id) = self.id_of(&merged) {
                        let a = first.unwrap();
                        let b = second.unwrap();
                        let ghost log_before = self.merge_log();
                        self.bpe_merges.push((a, b, merged_id));
                        assert(self.merge_log().drop_last() =~= log_before);
                    }
                }
            }
            assert(self.merges() =~= import_line(inv, before, body[k - start_idx]));
            k += 1;
        }
        assert(body.take(body.len() as int) =~= body);
        Ok(())
    }

    /// The ranks (counted from 1, after a header line) of the lines of a
    /// merges file that importing skips because they do not have two words or
    /// because a token or the concatenation is not in the vocabulary.
    pub fn unusable_merge_lines(&self, merges_text: &str) -> (r: Vec<usize>)
        ensures
            r@ == unusable_ranks(self.inverse(), merge_lines(merges_text@)),
    {
        let text = chars_of(merges_text);
        let lines = lines_of(&text);
        let ghost ls = lines@.map_values(|l: Vec<char>| l@);
        let start_idx: usize = if lines.len() > 0 && lines[0].len() > 0 && lines[0][0] == '#' {
            1
        } else {
            0
        };
        let ghost body = merge_lines(merges_text@);
        assert(body =~= ls.subrange(start_idx as int, ls.len() as int));
        let mut out: Vec<usize> = Vec::new();
        let mut k: usize = start_idx;
        assert(body.take(0) =~= Seq::<Seq<char>>::empty());
        while k < lines.len()
            invariant
                start_idx <= k <= lines@.len(),
                start_idx <= 1,
                ls == lines@.map_values(|l: Vec<char>| l@),
                body == ls.subrange(start_idx as int, ls.len() as int),
                out@ == unusable_ranks(self.inverse(), body.take(k - start_idx)),
            decreases lines.len() - k,
        {
            assert(body.take(k - start_idx + 1).drop_last() =~= body.take(k - start_idx));
            assert(body[k - start_idx] == ls[k as int]);
            let words = words_of(&lines[k]);
            let mut usable = false;
            if words.len() == 2 {
                let first = self.id_of(&words[0]);
                let second = self.id_of(&words[1]);
                if first.is_some() && second.is_some() {
                    let mut merged: Vec<char> = words[0].clone();
                    let mut q: usize = 0;
                    while q < words[1].len()
                        invariant
                            words@.len() == 2,
                            q <= words@[1]@.len(),
                            merged@ == words@[0]@ + words@[1]@.take(q as int),
                        decreases words@[1]@.len() - q,
                    {
                        merged.push(words[1][q]);
                        assert(words@[1]@.take(q + 1) =~= words@[1]@.take(q as int).push(words@[1]@[q as int]));
                        q += 1;
                    }
                    assert(words@[1]@.take(words@[1]@.len() as int) =~= words@[1]@);
                    usable = self.id_of(&merged).is_some();
                }
            }
            assert(usable == line_usable(self.inverse(), body[k - start_idx]));
            if !usable {
                out.push(k - start_idx + 1);
            }
            k += 1;
        }
        assert(body.take(body.len() as int) =~= body);
        out
    }

    /// The words of `text` that `encode` cannot decompose into tokens, with
    /// their missing characters.
    pub fn encode_failures(&self, text: &str) -> (r: Vec<(Vec<char>, Vec<char>)>)
        ensures
            r@.map_values(|e: (Vec<char>, Vec<char>)| (e.0@, e.1@)) == encode_failures_of(
                self.inverse(),
                split_words(text@),
            ),
    {
        let ghost inv = self.inverse();
        let chars = chars_of(text);
        let words = words_of(&chars);
        let ghost ws = words@.map_values(|w: Vec<char>| w@);
        let mut out: Vec<(Vec<char>, Vec<char>)> = Vec::new();
        let mut k: usize = 0;
        while k < words.len()
            invariant
                k <= words@.len(),
                inv == self.inverse(),
                ws == words@.map_values(|w: Vec<char>| w@),
                ws == split_words(text@),
                out@.map_values(|e: (Vec<char>, Vec<char>)| (e.0@, e.1@)) == encode_failures_of(inv, ws.take(k as int)),
            decreases words.len() - k,
        {
            let word = mark_word(k, &words[k]);
            assert(ws.take(k + 1).drop_last() =~= ws.take(k as int));
            assert(ws.take(k + 1).last() == ws[k as int]);
            let ghost prev = out@;
            if self.id_of(&word).is_none() {
                match self.tokenize_with_bpe(&word) {
                    Ok(_) => {},
                    Err(missing) => {
                        out.push((word, missing));
                        assert(out@.map_values(|e: (Vec<char>, Vec<char>)| (e.0@, e.1@)) =~= prev.map_values(
                            |e: (Vec<char>, Vec<char>)| (e.0@, e.1@),
                        ).push((word@, missing@)));
                    },
                }
            }
            k += 1;
        }
        assert(ws.take(ws.len() as int) =~= ws);
        out
    }

    /// The ID of the token whose text is exactly `token`.
    pub fn get_special_token_id(&self, token: &str) -> (r: Option<usize>)
        ensures
            r == get_opt(self.inverse(), token@),
    {
        let t = chars_of(token);
        self.id_of(&t)
    }
}

/// The vocabulary insertions that a list of entries stands for.
pub open spec fn entries_view(r: Seq<(usize, Vec<char>)>) -> Seq<(usize, Seq<char>)> {
    r.map_values(|e: (usize, Vec<char>)| (e.0, e.1@))
}

/// The word `w` at position `k`, with the boundary marker unless it comes first.
fn mark_word(k: usize, w: &Vec<char>) -> (r: Vec<char>)
    ensures
        r@ == marked_word(k as int, w@),
{
    if k == 0 {
        return w.clone();
    }
    let mut out: Vec<char> = vec![MARKER];
    let mut q: usize = 0;
    while q < w.len()
        invariant
            q <= w@.len(),
            out@ == seq![MARKER] + w@.take(q as int),
        decreases w.len() - q,
    {
        out.push(w[q]);
        assert(w@.take(q + 1) =~= w@.take(q as int).push(w@[q as int]));
        q += 1;
    }
    assert(w@.take(w@.len() as int) =~= w@);
    out
}

/// The words that encoding cannot decompose, each marked as encode marks it,
/// with the characters of it that have no single-character token. Encoding
/// gives such a word the `<UNK>` token, or the IDs of the characters it has.
pub open spec fn encode_failures_of(inv: Map<Seq<char>, usize>, ws: Seq<Seq<char>>) -> Seq<(Seq<char>, Seq<char>)>
    decreases ws.len(),
{
    if ws.len() == 0 {
        seq![]
    } else {
        let rest = encode_failures_of(inv, ws.drop_last());
        let mw = marked_word(ws.len() - 1, ws.last());
        if !inv.contains_key(mw) && missing_chars(inv, mw).len() > 0 {
            rest.push((mw, missing_chars(inv, mw)))
        } else {
            rest
        }
    }
}

/// Inserts `c` into `l` in code-point order, unless it is already there.
fn insert_sorted(l: &mut Vec<char>, c: char)
    ensures
        final(l)@ == sorted_insert(old(l)@, c),
{
    let mut p: usize = 0;
    while p < l.len() && (l[p] as u32) < (c as u32)
        invariant
            p <= l@.len(),
            l@ == old(l)@,
            forall|j: int| 0 <= j < p ==> (l@[j] as u32) < (c as u32),
        decreases l.len() - p,
    {
        p += 1;
    }
    proof {
        lemma_sorted_insert_at(l@, c, p as int);
    }
    if p < l.len() && l[p] == c {
        return;
    }
    l.insert(p, c);
}

/// Whether `c` occurs in `l`.
fn contains_char(l: &Vec<char>, c: char) -> (r: bool)
    ensures
        r == l@.contains(c),
{
    let mut i: usize = 0;
    while i < l.len()
        invariant
            i <= l@.len(),
            forall|j: int| 0 <= j < i ==> l@[j] != c,
        decreases l.len() - i,
    {
        if l[i] == c {
            return true;
        }
        i += 1;
    }
    false
}

/// Whether `a` and `b` hold the same characters.
fn same_chars(a: &[char], b: &[char]) -> (r: bool)
    ensures
        r == (a@ == b@),
{
    if a.len() != b.len() {
        return false;
    }
    let mut i: usize = 0;
    while i < a.len()
        invariant
            a@.len() == b@.len(),
            i <= a@.len(),
            forall|j: int| 0 <= j < i ==> a@[j] == b@[j],
        decreases a.len() - i,
    {
        if a[i] != b[i] {
            return false;
        }
        i += 1;
    }
    assert(a@ =~= b@);
    true
}


} // verus!
