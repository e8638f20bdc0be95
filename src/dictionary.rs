//! Words with their frequencies, and the table of digraphs (two-letter
//! sequences) that the words use. Each word records its own digraphs as
//! indices into that table, so that a board can test a word without looking
//! at its letters again.

use std::collections::HashMap;
use std::sync::Arc;
use vstd::prelude::*;
use crate::text::{
    append_str, chars_of, pair_string, parse_i8, parse_i8_chars, split_chars, split_on, split_tokens,
    string_of, strings_view, tokens,
};
use vstd::string::StringSliceAdditionalSpecFns;
use vstd::utf8::{decode_utf8, encode_utf8_decode_utf8, valid_utf8};

verus! {

broadcast use vstd::std_specs::hash::group_hash_axioms;

/// Numeric key of the digraph `ab`. Distinct digraphs have distinct keys, and
/// keys order digraphs as their two-letter strings are ordered.
pub open spec fn pair_code(a: char, b: char) -> int {
    (a as int) * 0x110000 + (b as int)
}

/// The key of a two-letter sequence.
pub open spec fn digraph_code(d: Seq<char>) -> int {
    pair_code(d[0], d[1])
}

/// The two-letter sequence of a pair of letters.
pub open spec fn digraph_seq(p: (char, char)) -> Seq<char> {
    seq![p.0, p.1]
}

/// The consecutive letter pairs of a word, in order. A word of fewer than
/// two letters has none.
pub open spec fn pairs_of(w: Seq<char>) -> Seq<(char, char)> {
    Seq::new(
        if w.len() < 2 {
            0
        } else {
            (w.len() - 1) as nat
        },
        |i: int| (w[i], w[i + 1]),
    )
}

/// The indices that `m` gives to the pairs of `ps`, in order; pairs that `m`
/// does not know are skipped.
pub open spec fn known_indices(ps: Seq<(char, char)>, m: Map<u64, usize>) -> Seq<usize>
    decreases ps.len(),
{
    if ps.len() == 0 {
        seq![]
    } else {
        let rest = known_indices(ps.drop_last(), m);
        let k = pair_code(ps.last().0, ps.last().1) as u64;
        if m.contains_key(k) {
            rest.push(m[k])
        } else {
            rest
        }
    }
}

/// A digraph table: two-letter entries, strictly increasing by key.
pub open spec fn table_sorted(t: Seq<Seq<char>>) -> bool {
    &&& forall|i: int| 0 <= i < t.len() ==> (#[trigger] t[i]).len() == 2
    &&& forall|i: int, j: int|
        0 <= i < j < t.len() ==> digraph_code(#[trigger] t[i]) < digraph_code(#[trigger] t[j])
}

/// `m` maps the key of each table entry to that entry's position, and nothing else.
pub open spec fn index_matches(t: Seq<Seq<char>>, m: Map<u64, usize>) -> bool {
    &&& forall|i: int|
        0 <= i < t.len() ==> m.contains_key(#[trigger] digraph_code(t[i]) as u64) && m[digraph_code(
            t[i],
        ) as u64] == i
    &&& forall|k: u64|
        #[trigger] m.contains_key(k) ==> m[k] < t.len() && digraph_code(t[m[k] as int]) == k as int
}

/// Each digraph of the word is recorded, in order, as the index of its table entry.
pub open spec fn refs_table(w: Word, t: Seq<Seq<char>>) -> bool {
    let ps = pairs_of(w.word@);
    &&& w.digraph_indices@.len() == ps.len()
    &&& forall|k: int|
        0 <= k < ps.len() ==> (#[trigger] w.digraph_indices@[k]) < t.len() && t[w.digraph_indices@[k] as int]
            == digraph_seq(ps[k])
}

/// Some word of `ws` has `p` as one of its consecutive letter pairs.
pub open spec fn used_by(ws: Seq<Seq<char>>, p: (char, char)) -> bool {
    exists|i: int, k: int|
        0 <= i < ws.len() && 0 <= k < pairs_of(ws[i]).len() && #[trigger] pairs_of(ws[i])[k] == p
}

/// Pairs strictly increasing by key.
pub open spec fn pairs_sorted(s: Seq<(char, char)>) -> bool {
    forall|i: int, j: int|
        0 <= i < j < s.len() ==> pair_code((#[trigger] s[i]).0, s[i].1) < pair_code(
            (#[trigger] s[j]).0,
            s[j].1,
        )
}

proof fn lemma_pair_code_injective(a: char, b: char, c: char, d: char)
    requires
        pair_code(a, b) == pair_code(c, d),
    ensures
        a == c && b == d,
{
    let (x, y, u, v) = (a as int, b as int, c as int, d as int);
    assert(0 <= y < 0x110000 && 0 <= v < 0x110000);
    assert(x == u) by (nonlinear_arith)
        requires
            x * 0x110000 + y == u * 0x110000 + v,
            0 <= y < 0x110000,
            0 <= v < 0x110000,
    ;
}

proof fn lemma_pair_code_bounds(a: char, b: char)
    ensures
        0 <= pair_code(a, b) < 0x110000 * 0x110000,
        pair_code(a, b) as u64 as int == pair_code(a, b),
{
    let (x, y) = (a as int, b as int);
    assert(0 <= x < 0x110000 && 0 <= y < 0x110000);
    assert(0 <= x * 0x110000 + y < 0x110000 * 0x110000) by (nonlinear_arith)
        requires
            0 <= x < 0x110000,
            0 <= y < 0x110000,
    ;
}

/// The key of the digraph `ab`.
pub fn pair_key(a: char, b: char) -> (r: u64)
    ensures
        r as int == pair_code(a, b),
{
    (a as u64) * 0x110000 + (b as u64)
}

/// A word with its frequency rank (higher is more common) and its digraphs,
/// recorded as indices into the digraph table of the dictionary that holds it.
#[derive(Debug, Clone, PartialEq)]
pub struct Word {
    pub word: String,
    pub frequency: i8,
    pub digraph_indices: Vec<usize>,
}

impl Word {
    /// The consecutive letter pairs of `word`.
    fn extract_digraphs(word: &str) -> (r: Vec<(char, char)>)
        ensures
            r@ == pairs_of(word@),
    {
        let chars = chars_of(word);
        let mut digraphs: Vec<(char, char)> = Vec::new();
        let mut i: usize = 0;
        while i < chars.len() && i + 1 < chars.len()
            invariant
                chars@ == word@,
                i <= pairs_of(word@).len(),
                digraphs@ =~= pairs_of(word@).take(i as int),
            decreases chars.len() - i,
        {
            digraphs.push((chars[i], chars[i + 1]));
            i += 1;
        }
        assert(digraphs@ =~= pairs_of(word@));
        digraphs
    }

    /// A word whose digraphs are not recorded yet.
    pub fn new(word: String, frequency: i8) -> (r: Word)
        ensures
            r.word == word,
            r.frequency == frequency,
            r.digraph_indices@ == Seq::<usize>::empty(),
    {
        Word { word, frequency, digraph_indices: Vec::new() }
    }

    /// A word whose digraphs are recorded through `digraph_to_index`; a
    /// digraph that the index does not know is left out.
    pub fn with_digraph_indices(
        word: String,
        frequency: i8,
        digraph_to_index: &HashMap<u64, usize>,
    ) -> (r: Word)
        ensures
            r.word == word,
            r.frequency == frequency,
            r.digraph_indices@ == known_indices(pairs_of(word@), digraph_to_index@),
    {
        let pairs = Self::extract_digraphs(word.as_str());
        let mut digraph_indices: Vec<usize> = Vec::new();
        let mut k: usize = 0;
        while k < pairs.len()
            invariant
                pairs@ == pairs_of(word@),
                k <= pairs.len(),
                digraph_indices@ == known_indices(pairs@.take(k as int), digraph_to_index@),
            decreases pairs.len() - k,
        {
            let (a, b) = pairs[k];
            let key = pair_key(a, b);
            assert(pairs@.take(k + 1).drop_last() =~= pairs@.take(k as int));
            match digraph_to_index.get(&key) {
                Some(i) => {
                    digraph_indices.push(*i);
                },
                None => {},
            }
            k += 1;
        }
        assert(pairs@.take(k as int) =~= pairs@);
        Word { word, frequency, digraph_indices }
    }
}

/// Inserts `(a, b)` into a list of pairs kept strictly increasing by key,
/// unless it is there already.
fn insert_sorted(pairs: &mut Vec<(char, char)>, a: char, b: char)
    requires
        pairs_sorted(old(pairs)@),
    ensures
        pairs_sorted(final(pairs)@),
        forall|p: (char, char)| #[trigger]
            final(pairs)@.contains(p) <==> old(pairs)@.contains(p) || p == (a, b),
{
    let key = pair_key(a, b);
    let mut lo: usize = 0;
    let mut hi: usize = pairs.len();
    while lo < hi
        invariant
            pairs_sorted(pairs@),
            lo <= hi <= pairs.len(),
            forall|i: int| 0 <= i < lo ==> pair_code((#[trigger] pairs@[i]).0, pairs@[i].1) < key,
            forall|i: int|
                hi <= i < pairs.len() ==> pair_code((#[trigger] pairs@[i]).0, pairs@[i].1) >= key,
        decreases hi - lo,
    {
        let mid = lo + (hi - lo) / 2;
        let (c, d) = pairs[mid];
        if pair_key(c, d) < key {
            lo = mid + 1;
        } else {
            hi = mid;
        }
    }
    let ghost before = pairs@;
    if lo < pairs.len() && pairs[lo].0 == a && pairs[lo].1 == b {
        return;
    }
    if lo < pairs.len() {
        let (c, d) = pairs[lo];
        if pair_key(c, d) == key {
            proof {
                lemma_pair_code_injective(c, d, a, b);
            }
        }
    }
    pairs.insert(lo, (a, b));
    assert forall|p: (char, char)| #[trigger]
        pairs@.contains(p) <==> before.contains(p) || p == (a, b) by {
        if pairs@.contains(p) {
            let i = choose|i: int| 0 <= i < pairs@.len() && #[trigger] pairs@[i] == p;
            if i < lo {
                assert(before[i] == p);
            } else if i > lo {
                assert(before[i - 1] == p);
            }
        }
        if before.contains(p) {
            let i = choose|i: int| 0 <= i < before.len() && #[trigger] before[i] == p;
            if i < lo {
                assert(pairs@[i] == p);
            } else {
                assert(pairs@[i + 1] == p);
            }
        }
        if p == (a, b) {
            assert(pairs@[lo as int] == p);
        }
    }
}


proof fn lemma_known_indices_full(ps: Seq<(char, char)>, m: Map<u64, usize>, t: Seq<Seq<char>>)
    requires
        forall|k: int|
            0 <= k < ps.len() ==> #[trigger] m.contains_key(pair_code(ps[k].0, ps[k].1) as u64)
                && m[pair_code(ps[k].0, ps[k].1) as u64] < t.len() && t[m[pair_code(
                ps[k].0,
                ps[k].1,
            ) as u64] as int] == digraph_seq(ps[k]),
    ensures
        known_indices(ps, m).len() == ps.len(),
        forall|k: int|
            0 <= k < ps.len() ==> (#[trigger] known_indices(ps, m)[k]) == m[pair_code(
                ps[k].0,
                ps[k].1,
            ) as u64],
    decreases ps.len(),
{
    if ps.len() > 0 {
        let init = ps.drop_last();
        assert forall|k: int| 0 <= k < init.len() implies #[trigger] m.contains_key(
            pair_code(init[k].0, init[k].1) as u64,
        ) && m[pair_code(init[k].0, init[k].1) as u64] < t.len() && t[m[pair_code(
            init[k].0,
            init[k].1,
        ) as u64] as int] == digraph_seq(init[k]) by {
            assert(init[k] == ps[k]);
            assert(m.contains_key(pair_code(ps[k].0, ps[k].1) as u64));
        }
        lemma_known_indices_full(init, m, t);
        let l = ps.len() - 1;
        assert(m.contains_key(pair_code(ps[l].0, ps[l].1) as u64));
    }
}

/// A word list with the table of the digraphs that its words use.
///
/// `digraph_strings` is the table: every digraph of the source word list
/// once, in increasing order. `digraph_to_index` maps the key of a digraph
/// (see `pair_key`) to its position in the table. `digraphs` holds the
/// digraphs that the words of this dictionary actually use.
#[derive(Debug)]
pub struct Dictionary {
    pub words: Vec<Arc<Word>>,
    pub digraphs: Vec<String>,
    pub digraph_strings: Vec<String>,
    pub digraph_to_index: HashMap<u64, usize>,
}

/// The (word, frequency) entries of a list of words.
pub open spec fn entries_of(ws: Seq<Word>) -> Seq<(Seq<char>, i8)> {
    ws.map_values(|w: Word| (w.word@, w.frequency))
}

/// The entry that a line `word frequency` gives: its first two
/// whitespace-separated tokens, the second read as an `i8`. Further tokens
/// are ignored; a line without two tokens, or whose second token is not an
/// `i8`, gives none.
pub open spec fn line_entry(line: Seq<char>) -> Option<(Seq<char>, i8)> {
    let t = tokens(line);
    if t.len() >= 2 {
        match parse_i8(t[1]) {
            Some(f) => Some((t[0], f)),
            None => None,
        }
    } else {
        None
    }
}

/// The entries of the lines that give one, in order.
pub open spec fn entries_of_lines(ls: Seq<Seq<char>>) -> Seq<(Seq<char>, i8)>
    decreases ls.len(),
{
    if ls.len() == 0 {
        seq![]
    } else {
        let rest = entries_of_lines(ls.drop_last());
        match line_entry(ls.last()) {
            Some(e) => rest.push(e),
            None => rest,
        }
    }
}

/// The entries of a word-list text, one `word frequency` per line. A line
/// may end in `"\r\n"`: the `'\r'` is white space.
pub open spec fn text_entries(t: Seq<char>) -> Seq<(Seq<char>, i8)> {
    entries_of_lines(split_on(t, '\n'))
}

/// Relies on `std::str::from_utf8`: `Ok` exactly when the bytes are valid
/// UTF-8, and then the text that they encode; otherwise the error's message.
#[verifier::external_body]
fn utf8_text(data: &[u8]) -> (r: Result<&str, String>)
    ensures
        match r {
            Ok(t) => valid_utf8(data@) && t.spec_bytes() == data@,
            Err(_) => !valid_utf8(data@),
        },
{
    std::str::from_utf8(data).map_err(|e| e.to_string())
}

impl Dictionary {
    pub const DEFAULT_FREQUENCY: i8 = 15;

    /// The dictionary holds the words of `entries` in order, with their
    /// frequencies, and the sorted table of every digraph that they use.
    pub open spec fn built_from(&self, entries: Seq<(Seq<char>, i8)>) -> bool {
        &&& self.wf()
        &&& self.words.len() == entries.len()
        &&& forall|i: int|
            0 <= i < entries.len() ==> (#[trigger] self.words@[i]).word@ == entries[i].0
                && self.words@[i].frequency == entries[i].1
        &&& forall|d: Seq<char>| #[trigger]
            self.table().contains(d) <==> exists|p: (char, char)|
                d == digraph_seq(p) && used_by(entries.map_values(|e: (Seq<char>, i8)| e.0), p)
        &&& self.digraph_list() == self.table()
    }

    /// The digraph table, as sequences of characters.
    pub open spec fn table(&self) -> Seq<Seq<char>> {
        strings_view(self.digraph_strings@)
    }

    /// The digraphs that the words use, as sequences of characters.
    pub open spec fn digraph_list(&self) -> Seq<Seq<char>> {
        strings_view(self.digraphs@)
    }

    /// The table is sorted, the index matches it, and every word records
    /// its digraphs through the table.
    pub open spec fn wf(&self) -> bool {
        &&& table_sorted(self.table())
        &&& index_matches(self.table(), self.digraph_to_index@)
        &&& forall|i: int| 0 <= i < self.words.len() ==> refs_table(#[trigger] *self.words@[i], self.table())
    }

    /// Builds the dictionary of `words`, in their order, with the sorted
    /// table of every digraph that they use.
    pub fn from_words(words: Vec<Word>) -> (r: Dictionary)
        ensures
            r.built_from(entries_of(words@)),
    {
        let ghost texts = words@.map_values(|w: Word| w.word@);
        // Every distinct digraph of the words, in increasing order.
        let mut pairs: Vec<(char, char)> = Vec::new();
        let mut w: usize = 0;
        while w < words.len()
            invariant
                texts == words@.map_values(|w: Word| w.word@),
                w <= words.len(),
                pairs_sorted(pairs@),
                forall|p: (char, char)| #[trigger]
                    pairs@.contains(p) <==> used_by(texts.take(w as int), p),
            decreases words.len() - w,
        {
            let ds = Word::extract_digraphs(words[w].word.as_str());
            let mut k: usize = 0;
            while k < ds.len()
                invariant
                    texts == words@.map_values(|w: Word| w.word@),
                    w < words.len(),
                    ds@ == pairs_of(texts[w as int]),
                    k <= ds.len(),
                    pairs_sorted(pairs@),
                    forall|p: (char, char)| #[trigger]
                        pairs@.contains(p) <==> used_by(texts.take(w as int), p) || ds@.take(
                            k as int,
                        ).contains(p),
                decreases ds.len() - k,
            {
                let ghost before = pairs@;
                insert_sorted(&mut pairs, ds[k].0, ds[k].1);
                assert forall|p: (char, char)| ds@.take(k + 1).contains(p) <==> ds@.take(
                    k as int,
                ).contains(p) || p == ds@[k as int] by {
                    if ds@.take(k + 1).contains(p) {
                        let j = choose|j: int| 0 <= j < k + 1 && #[trigger] ds@.take(k + 1)[j] == p;
                        if j < k {
                            assert(ds@.take(k as int)[j] == p);
                        }
                    }
                    if ds@.take(k as int).contains(p) {
                        let j = choose|j: int| 0 <= j < k && #[trigger] ds@.take(k as int)[j] == p;
                        assert(ds@.take(k + 1)[j] == p);
                    }
                    if p == ds@[k as int] {
                        assert(ds@.take(k + 1)[k as int] == p);
                    }
                }
                assert forall|p: (char, char)| #[trigger]
                    pairs@.contains(p) <==> used_by(texts.take(w as int), p) || ds@.take(
                        k + 1,
                    ).contains(p) by {
                    assert(pairs@.contains(p) <==> before.contains(p) || p == (ds@[k as int].0, ds@[k as int].1));
                }
                k += 1;
            }
            assert forall|p: (char, char)| #[trigger]
                pairs@.contains(p) <==> used_by(texts.take(w + 1), p) by {
                let prev = texts.take(w as int);
                let next = texts.take(w + 1);
                if used_by(next, p) {
                    let (i, j) = choose|i: int, j: int|
                        0 <= i < next.len() && 0 <= j < pairs_of(next[i]).len() && #[trigger] pairs_of(
                            next[i],
                        )[j] == p;
                    if i < w {
                        assert(prev[i] == next[i]);
                    } else {
                        assert(ds@.take(k as int)[j] == p);
                    }
                }
                if used_by(prev, p) {
                    let (i, j) = choose|i: int, j: int|
                        0 <= i < prev.len() && 0 <= j < pairs_of(prev[i]).len() && #[trigger] pairs_of(
                            prev[i],
                        )[j] == p;
                    assert(prev[i] == next[i]);
                }
                if ds@.take(k as int).contains(p) {
                    let j = choose|j: int| 0 <= j < k && #[trigger] ds@.take(k as int)[j] == p;
                    assert(next[w as int] == texts[w as int]);
                    assert(pairs_of(next[w as int])[j] == p);
                }
            }
            w += 1;
        }
        assert(texts.take(words.len() as int) =~= texts);

        // The table, its copy for `digraphs`, and the index.
        let mut digraph_strings: Vec<String> = Vec::new();
        let mut digraphs: Vec<String> = Vec::new();
        let mut digraph_to_index: HashMap<u64, usize> = HashMap::new();
        let mut i: usize = 0;
        while i < pairs.len()
            invariant
                i <= pairs.len(),
                pairs_sorted(pairs@),
                strings_view(digraph_strings@) =~= pairs@.take(i as int).map_values(
                    |p: (char, char)| digraph_seq(p),
                ),
                strings_view(digraphs@) == strings_view(digraph_strings@),
                forall|j: int|
                    0 <= j < i ==> #[trigger] digraph_to_index@.contains_key(
                        pair_code(pairs@[j].0, pairs@[j].1) as u64,
                    ) && digraph_to_index@[pair_code(pairs@[j].0, pairs@[j].1) as u64] == j,
                forall|k: u64| #[trigger]
                    digraph_to_index@.contains_key(k) ==> digraph_to_index@[k] < i && pair_code(
                        pairs@[digraph_to_index@[k] as int].0,
                        pairs@[digraph_to_index@[k] as int].1,
                    ) == k as int,
            decreases pairs.len() - i,
        {
            let (a, b) = pairs[i];
            let key = pair_key(a, b);
            let ghost before_strings = digraph_strings@;
            let ghost before_copy = digraphs@;
            let s1 = pair_string(a, b);
            let s2 = pair_string(a, b);
            digraph_strings.push(s1);
            digraphs.push(s2);
            assert(strings_view(digraph_strings@) =~= strings_view(before_strings).push(seq![a, b]));
            assert(strings_view(digraphs@) =~= strings_view(before_copy).push(seq![a, b]));
            assert(pairs@.take(i + 1).map_values(|p: (char, char)| digraph_seq(p)) =~= pairs@.take(
                i as int,
            ).map_values(|p: (char, char)| digraph_seq(p)).push(seq![a, b]));
            digraph_to_index.insert(key, i);
            assert forall|j: int|
                0 <= j < i + 1 implies #[trigger] digraph_to_index@.contains_key(
                pair_code(pairs@[j].0, pairs@[j].1) as u64,
            ) && digraph_to_index@[pair_code(pairs@[j].0, pairs@[j].1) as u64] == j by {
                if j < i {
                    assert(pair_code(pairs@[j].0, pairs@[j].1) < pair_code(a, b));
                    lemma_pair_code_bounds(pairs@[j].0, pairs@[j].1);
                    lemma_pair_code_bounds(a, b);
                }
            }
            i += 1;
        }
        assert(pairs@.take(pairs.len() as int) =~= pairs@);
        let ghost table = strings_view(digraph_strings@);
        assert(table =~= pairs@.map_values(|p: (char, char)| digraph_seq(p)));

        // The words, with their digraphs recorded through the index.
        let ghost source = words@;
        let mut entries: Vec<Arc<Word>> = Vec::new();
        for word in it: words
            invariant
                source == it.seq(),
                texts == source.map_values(|w: Word| w.word@),
                table == pairs@.map_values(|p: (char, char)| digraph_seq(p)),
                pairs_sorted(pairs@),
                index_matches(table, digraph_to_index@),
                forall|p: (char, char)| #[trigger] pairs@.contains(p) <==> used_by(texts, p),
                entries.len() == it.index(),
                forall|j: int|
                    0 <= j < entries.len() ==> (#[trigger] entries@[j]).word@ == source[j].word@
                        && entries@[j].frequency == source[j].frequency && refs_table(
                        *entries@[j],
                        table,
                    ),
        {
            let ghost at = it.index();
            assert(word == source[at]);
            let Word { word, frequency, digraph_indices: _ } = word;
            let entry = Word::with_digraph_indices(word, frequency, &digraph_to_index);
            proof {
                let ps = pairs_of(word@);
                assert(texts[at] == word@);
                assert forall|k: int| 0 <= k < ps.len() implies #[trigger] digraph_to_index@.contains_key(
                    pair_code(ps[k].0, ps[k].1) as u64,
                ) && digraph_to_index@[pair_code(ps[k].0, ps[k].1) as u64] < table.len()
                    && table[digraph_to_index@[pair_code(ps[k].0, ps[k].1) as u64] as int]
                    == digraph_seq(ps[k]) by {
                    assert(used_by(texts, ps[k]));
                    assert(pairs@.contains(ps[k]));
                    let j = choose|j: int| 0 <= j < pairs@.len() && #[trigger] pairs@[j] == ps[k];
                    assert(table[j] == digraph_seq(pairs@[j]));
                    assert(digraph_code(table[j]) == pair_code(ps[k].0, ps[k].1));
                }
                lemma_known_indices_full(ps, digraph_to_index@, table);
                assert forall|k: int| 0 <= k < ps.len() implies (#[trigger] entry.digraph_indices@[k])
                    < table.len() && table[entry.digraph_indices@[k] as int] == digraph_seq(ps[k]) by {
                    assert(entry.digraph_indices@[k] == known_indices(ps, digraph_to_index@)[k]);
                    assert(digraph_to_index@.contains_key(pair_code(ps[k].0, ps[k].1) as u64));
                }
                assert(refs_table(entry, table));
            }
            entries.push(Arc::new(entry));
        }
        let r = Dictionary { words: entries, digraphs, digraph_strings, digraph_to_index };
        assert(entries_of(words@).map_values(|e: (Seq<char>, i8)| e.0) =~= texts);
        proof {
            assert forall|d: Seq<char>| #[trigger]
                r.table().contains(d) <==> exists|p: (char, char)|
                    d == digraph_seq(p) && used_by(texts, p) by {
                if r.table().contains(d) {
                    let j = choose|j: int| 0 <= j < table.len() && #[trigger] table[j] == d;
                    assert(pairs@.contains(pairs@[j]));
                }
                if exists|p: (char, char)| d == digraph_seq(p) && used_by(texts, p) {
                    let p = choose|p: (char, char)| d == digraph_seq(p) && used_by(texts, p);
                    assert(pairs@.contains(p));
                    let j = choose|j: int| 0 <= j < pairs@.len() && #[trigger] pairs@[j] == p;
                    assert(table[j] == d);
                }
            }
        }
        r
    }
}


impl Dictionary {
    /// The dictionary of `words`, each with the default frequency.
    pub fn from_strings(words: Vec<String>) -> (r: Dictionary)
        ensures
            r.built_from(words@.map_values(|w: String| (w@, Self::DEFAULT_FREQUENCY))),
    {
        let ghost source = words@;
        let mut entries: Vec<Word> = Vec::new();
        for w in it: words
            invariant
                source == it.seq(),
                entries_of(entries@) =~= source.take(it.index() as int).map_values(
                    |w: String| (w@, Self::DEFAULT_FREQUENCY),
                ),
        {
            let ghost before = entries@;
            entries.push(Word::new(w, Self::DEFAULT_FREQUENCY));
            assert(entries_of(entries@) =~= entries_of(before).push(
                (entries@.last().word@, Self::DEFAULT_FREQUENCY),
            ));
        }
        assert(source.take(source.len() as int) =~= source);
        Self::from_words(entries)
    }

    /// The word of a line `word frequency`, if the line gives one.
    fn parse_word_line(line: &Vec<char>) -> (r: Option<Word>)
        ensures
            match r {
                Some(w) => line_entry(line@) == Some((w.word@, w.frequency)),
                None => line_entry(line@) is None,
            },
    {
        let parts = split_tokens(line);
        proof {
            let v = parts@.map_values(|t: Vec<char>| t@);
            if parts.len() >= 2 {
                assert(v[0] == parts@[0]@ && v[1] == parts@[1]@);
            }
        }
        if parts.len() < 2 {
            return None;
        }
        match parse_i8_chars(&parts[1]) {
            Some(frequency) => Some(Word::new(string_of(&parts[0]), frequency)),
            None => None,
        }
    }

    /// The word of a line `word frequency`, if the line gives one.
    pub fn parse_line(line: &str) -> (r: Option<Word>)
        ensures
            match r {
                Some(w) => line_entry(line@) == Some((w.word@, w.frequency)),
                None => line_entry(line@) is None,
            },
    {
        let cs = chars_of(line);
        Self::parse_word_line(&cs)
    }

    /// The dictionary of a word-list text: one `word frequency` per line;
    /// lines that do not parse are skipped.
    pub fn from_text(text: &str) -> (r: Dictionary)
        ensures
            r.built_from(text_entries(text@)),
    {
        let chars = chars_of(text);
        let lines = split_chars(&chars, '\n');
        let ghost ls = lines@.map_values(|l: Vec<char>| l@);
        let mut words: Vec<Word> = Vec::new();
        let mut i: usize = 0;
        while i < lines.len()
            invariant
                ls == lines@.map_values(|l: Vec<char>| l@),
                i <= lines.len(),
                entries_of(words@) == entries_of_lines(ls.take(i as int)),
            decreases lines.len() - i,
        {
            assert(ls.take(i + 1).drop_last() =~= ls.take(i as int));
            assert(ls[i as int] == lines@[i as int]@);
            let ghost before = words@;
            match Self::parse_word_line(&lines[i]) {
                Some(w) => {
                    words.push(w);
                    assert(entries_of(words@) =~= entries_of(before).push(
                        (words@.last().word@, words@.last().frequency),
                    ));
                },
                None => {},
            }
            i += 1;
        }
        assert(ls.take(i as int) =~= ls);
        Self::from_words(words)
    }

    /// The dictionary of a word-list text given as bytes; an error if the
    /// bytes are not valid UTF-8.
    pub fn from_bytes(data: &[u8]) -> (r: Result<Dictionary, String>)
        ensures
            match r {
                Ok(d) => valid_utf8(data@) && d.built_from(text_entries(decode_utf8(data@))),
                Err(m) => !valid_utf8(data@) && "Invalid UTF-8 data: "@.is_prefix_of(m@),
            },
    {
        match utf8_text(data) {
            Ok(text) => {
                proof {
                    encode_utf8_decode_utf8(text@);
                }
                Ok(Self::from_text(text))
            },
            Err(e) => {
                let mut m = "Invalid UTF-8 data: ".to_owned();
                let ghost head = m@;
                append_str(&mut m, e.as_str());
                assert(m@.take(head.len() as int) =~= head);
                Err(m)
            },
        }
    }
}

} // verus!
