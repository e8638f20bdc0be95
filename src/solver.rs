//! The search: chains of one to four words, each starting with the letter
//! that the previous one ended with, that together cover every letter of
//! the board, with no shorter chain hidden inside them.

use std::sync::Arc;
use std::sync::atomic::AtomicBool;
use vstd::prelude::*;
use crate::board::{first_index, lemma_board_letters, tagged_letters, Board};
use crate::dictionary::{Dictionary, Word};
use crate::text::{append_str, chars_of, first_char, first_char_of, last_char, last_char_of, push_char};

verus! {

/// A word's frequency as the score counts it: negative ones count as 0.
pub open spec fn counted_frequency(f: i8) -> int {
    if f < 0 {
        0
    } else {
        f as int
    }
}

/// The smallest counted frequency of the words; 256 for no words.
pub open spec fn min_frequency(ws: Seq<Arc<Word>>) -> int
    decreases ws.len(),
{
    if ws.len() == 0 {
        256
    } else {
        let m = min_frequency(ws.drop_last());
        let f = counted_frequency(ws.last().frequency);
        if f < m {
            f
        } else {
            m
        }
    }
}

/// The score of a chain: ten times its least frequency, divided by its length.
pub open spec fn score_of(ws: Seq<Arc<Word>>) -> int {
    min_frequency(ws) * 10 / (ws.len() as int)
}

proof fn lemma_min_frequency_bounds(ws: Seq<Arc<Word>>)
    ensures
        0 <= min_frequency(ws) <= 256,
        ws.len() > 0 ==> min_frequency(ws) <= 127,
    decreases ws.len(),
{
    if ws.len() > 0 {
        lemma_min_frequency_bounds(ws.drop_last());
    }
}

/// Whether bit `i` of `mask` is set.
pub open spec fn bit_set(mask: u32, i: int) -> bool {
    mask & (1u32 << (i as u32)) != 0
}

/// The positions below `k` whose bit is set in `mask`, in increasing order.
pub open spec fn mask_indices(mask: u32, k: int) -> Seq<usize>
    decreases k,
{
    if k <= 0 {
        seq![]
    } else if bit_set(mask, k - 1) {
        mask_indices(mask, k - 1).push((k - 1) as usize)
    } else {
        mask_indices(mask, k - 1)
    }
}

proof fn lemma_mask_indices_below(mask: u32, k: int)
    ensures
        forall|t: int| 0 <= t < mask_indices(mask, k).len() ==> (#[trigger] mask_indices(mask, k)[t]) < k,
        mask_indices(mask, k).len() <= if k < 0 { 0 } else { k },
    decreases k,
{
    if k > 0 {
        lemma_mask_indices_below(mask, k - 1);
    }
}

/// Consecutive members of the subsequence `idx` of `ws` still chain: each
/// ends with the letter that the next begins with.
pub open spec fn chains(ws: Seq<Arc<Word>>, idx: Seq<usize>) -> bool {
    forall|t: int|
        0 <= t < idx.len() - 1 ==> last_char(ws[#[trigger] idx[t] as int].word@) == first_char(
            ws[idx[t + 1] as int].word@,
        )
}

/// A subsequence that drops the first word is always admissible; one that
/// keeps it must still chain.
pub open spec fn admissible(ws: Seq<Arc<Word>>, mask: u32) -> bool {
    mask & 1 == 0 || chains(ws, mask_indices(mask, ws.len() as int))
}

/// The admissible non-empty proper subsequences of `ws` among the masks
/// below `m`, in increasing order of mask.
pub open spec fn redactions_below(ws: Seq<Arc<Word>>, m: int) -> Seq<Seq<usize>>
    decreases m,
{
    if m <= 1 {
        seq![]
    } else {
        let prev = redactions_below(ws, m - 1);
        let mask = (m - 1) as u32;
        let n = ws.len() as int;
        let idx = mask_indices(mask, n);
        if mask as int != (1u32 << (n as u32)) - 1 && idx.len() > 0 && admissible(ws, mask) {
            prev.push(idx)
        } else {
            prev
        }
    }
}

/// The subsequences of a chain that could stand for it: every non-empty,
/// proper, admissible one, as index lists, in increasing order of mask.
pub open spec fn redactions(ws: Seq<Arc<Word>>) -> Seq<Seq<usize>> {
    if ws.len() <= 1 {
        seq![]
    } else {
        redactions_below(ws, (1u32 << (ws.len() as u32)) as int)
    }
}

/// The sequences that a list of index lists holds.
pub open spec fn paths_view(v: Seq<Vec<usize>>) -> Seq<Seq<usize>> {
    v.map_values(|p: Vec<usize>| p@)
}

/// Whether two optional letters are the same.
fn same_letter(a: Option<char>, b: Option<char>) -> (r: bool)
    ensures
        r == (a == b),
{
    match (a, b) {
        (Some(x), Some(y)) => x == y,
        (None, None) => true,
        _ => false,
    }
}

/// A chain of words, with its score.
#[derive(Debug, Clone, PartialEq)]
pub struct Solution {
    pub words: Vec<Arc<Word>>,
    pub score: usize,
}

impl Solution {
    /// The chain of `words`, scored.
    pub fn new(words: Vec<Arc<Word>>) -> (r: Solution)
        requires
            1 <= words.len() <= 4,
        ensures
            r.words@ == words@,
            r.score as int == score_of(words@),
    {
        let mut least: usize = 256;
        let mut i: usize = 0;
        while i < words.len()
            invariant
                i <= words.len(),
                least as int == min_frequency(words@.take(i as int)),
            decreases words.len() - i,
        {
            assert(words@.take(i + 1).drop_last() =~= words@.take(i as int));
            let f: usize = if words[i].frequency < 0 {
                0
            } else {
                words[i].frequency as usize
            };
            if f < least {
                least = f;
            }
            i += 1;
        }
        assert(words@.take(i as int) =~= words@);
        proof {
            lemma_min_frequency_bounds(words@);
        }
        let score: usize = (least * 10) / words.len();
        Solution { words, score }
    }

    /// The subsequences of this chain that could stand for it (see
    /// `redactions`), as lists of positions. A chain of one word has none.
    #[verifier::rlimit(40)]
    pub fn redactable_subsequences(&self) -> (r: Vec<Vec<usize>>)
        requires
            self.words.len() <= 4,
        ensures
            paths_view(r@) == redactions(self.words@),
            self.words.len() <= 1 ==> r.len() == 0,
    {
        let n = self.words.len();
        let ghost ws = self.words@;
        if n <= 1 {
            let r: Vec<Vec<usize>> = Vec::new();
            assert(paths_view(r@) =~= seq![]);
            return r;
        }
        let mut firsts: Vec<Option<char>> = Vec::new();
        let mut lasts: Vec<Option<char>> = Vec::new();
        let mut i: usize = 0;
        while i < n
            invariant
                n == ws.len(),
                ws == self.words@,
                i <= n,
                firsts.len() == i,
                lasts.len() == i,
                forall|j: int| 0 <= j < i ==> #[trigger] firsts@[j] == first_char(ws[j].word@),
                forall|j: int| 0 <= j < i ==> #[trigger] lasts@[j] == last_char(ws[j].word@),
            decreases n - i,
        {
            let cs = chars_of(self.words[i].word.as_str());
            firsts.push(first_char_of(&cs));
            lasts.push(last_char_of(&cs));
            i += 1;
        }
        let mut redactions: Vec<Vec<usize>> = Vec::new();
        let num_subsets: u32 = 1u32 << (n as u32);
        assert(num_subsets >= 4 && num_subsets <= 16) by (bit_vector)
            requires
                num_subsets == 1u32 << (n as u32),
                2 <= n <= 4,
        ;
        let mut mask: u32 = 1;
        while mask < num_subsets
            invariant
                n == ws.len(),
                2 <= n <= 4,
                ws == self.words@,
                num_subsets == 1u32 << (n as u32),
                4 <= num_subsets <= 16,
                1 <= mask <= num_subsets,
                firsts.len() == n,
                lasts.len() == n,
                forall|j: int| 0 <= j < n ==> #[trigger] firsts@[j] == first_char(ws[j].word@),
                forall|j: int| 0 <= j < n ==> #[trigger] lasts@[j] == last_char(ws[j].word@),
                paths_view(redactions@) == redactions_below(ws, mask as int),
            decreases num_subsets - mask,
        {
            let ghost before = paths_view(redactions@);
            if mask != num_subsets - 1 {
                let mut indices: Vec<usize> = Vec::new();
                let mut i: usize = 0;
                while i < n
                    invariant
                        n == ws.len(),
                        2 <= n <= 4,
                        i <= n,
                        indices@ == mask_indices(mask, i as int),
                    decreases n - i,
                {
                    if mask & (1u32 << (i as u32)) != 0 {
                        indices.push(i);
                    }
                    i += 1;
                }
                proof {
                    lemma_mask_indices_below(mask, n as int);
                }
                if indices.len() > 0 {
                    let drops_head = mask & 1 == 0;
                    let mut chained = true;
                    if !drops_head {
                        let mut t: usize = 0;
                        while t + 1 < indices.len()
                            invariant
                                n == ws.len(),
                                2 <= n <= 4,
                                indices@ == mask_indices(mask, n as int),
                                indices.len() <= n,
                                forall|u: int| 0 <= u < indices.len() ==> #[trigger] indices@[u] < n,
                                firsts.len() == n,
                                lasts.len() == n,
                                forall|j: int| 0 <= j < n ==> #[trigger] firsts@[j] == first_char(ws[j].word@),
                                forall|j: int| 0 <= j < n ==> #[trigger] lasts@[j] == last_char(ws[j].word@),
                                t <= indices.len(),
                                chained == forall|u: int|
                                    0 <= u < t && u < indices.len() - 1 ==> last_char(
                                        ws[#[trigger] indices@[u] as int].word@,
                                    ) == first_char(ws[indices@[u + 1] as int].word@),
                            decreases indices.len() - t,
                        {
                            let a = indices[t];
                            let b = indices[t + 1];
                            chained = chained && same_letter(lasts[a], firsts[b]);
                            t += 1;
                        }
                    }
                    if drops_head || chained {
                        redactions.push(indices);
                        assert(paths_view(redactions@) =~= before.push(mask_indices(mask, n as int)));
                    }
                }
            }
            mask += 1;
        }
        redactions
    }
}


/// The words of a chain joined by hyphens.
pub open spec fn chain_text(ws: Seq<Arc<Word>>) -> Seq<char>
    decreases ws.len(),
{
    if ws.len() == 0 {
        seq![]
    } else if ws.len() == 1 {
        ws[0].word@
    } else {
        chain_text(ws.drop_last()) + seq!['-'] + ws.last().word@
    }
}

impl Solution {
    /// The words of the chain joined by hyphens, as `word-dojo-ocean`.
    pub fn to_text(&self) -> (r: String)
        ensures
            r@ == chain_text(self.words@),
    {
        let mut s = String::new();
        let mut i: usize = 0;
        while i < self.words.len()
            invariant
                i <= self.words.len(),
                s@ == chain_text(self.words@.take(i as int)),
            decreases self.words.len() - i,
        {
            let ghost before = s@;
            assert(self.words@.take(i + 1).drop_last() =~= self.words@.take(i as int));
            if i > 0 {
                push_char(&mut s, '-');
            } else {
                assert(before =~= seq![]);
            }
            append_str(&mut s, self.words[i].word.as_str());
            if i == 0 {
                assert(s@ =~= self.words@[0].word@);
            }
            i += 1;
        }
        assert(self.words@.take(i as int) =~= self.words@);
        s
    }
}


/// The bit of the letter `c`: bit `p` for the letter at position `p` of
/// `letters`; none for a letter that is not there.
pub open spec fn letter_bit(letters: Seq<(char, usize)>, c: char) -> u32 {
    let p = first_index(letters, c, letters.len() as int);
    if p >= 0 {
        1u32 << (p as u32)
    } else {
        0
    }
}

/// The bits of the letters of `w`.
pub open spec fn word_mask(letters: Seq<(char, usize)>, w: Seq<char>) -> u32
    decreases w.len(),
{
    if w.len() == 0 {
        0
    } else {
        word_mask(letters, w.drop_last()) | letter_bit(letters, w.last())
    }
}

/// The lowest `n` bits.
pub open spec fn full_mask(n: int) -> u32
    decreases n,
{
    if n <= 0 {
        0
    } else {
        full_mask(n - 1) | (1u32 << ((n - 1) as u32))
    }
}

/// The positions below `k` of the words of `ws` that begin with `c`, in order.
pub open spec fn starting_with(ws: Seq<WordBitmap>, c: char, k: int) -> Seq<usize>
    decreases k,
{
    if k <= 0 {
        seq![]
    } else if first_char(ws[k - 1].word.word@) == Some(c) {
        starting_with(ws, c, k - 1).push((k - 1) as usize)
    } else {
        starting_with(ws, c, k - 1)
    }
}

proof fn lemma_starting_with(ws: Seq<WordBitmap>, c: char, k: int)
    requires
        k <= ws.len() <= usize::MAX,
    ensures
        forall|t: int|
            0 <= t < starting_with(ws, c, k).len() ==> (#[trigger] starting_with(ws, c, k)[t]) < k
                && first_char(ws[starting_with(ws, c, k)[t] as int].word.word@) == Some(c),
        starting_with(ws, c, k).len() > 0 ==> exists|i: int|
            0 <= i < k && first_char((#[trigger] ws[i]).word.word@) == Some(c),
    decreases k,
{
    if k > 0 {
        lemma_starting_with(ws, c, k - 1);
        let prev = starting_with(ws, c, k - 1);
        let cur = starting_with(ws, c, k);
        assert forall|t: int| 0 <= t < cur.len() implies (#[trigger] cur[t]) < k && first_char(
            ws[cur[t] as int].word.word@,
        ) == Some(c) by {
            if t < prev.len() {
                assert(cur[t] == prev[t]);
            } else {
                assert(first_char(ws[k - 1].word.word@) == Some(c));
                assert(cur == prev.push((k - 1) as usize));
                assert(cur[t] == (k - 1) as usize);
            }
        }
    }
}

proof fn lemma_first_index_stable(l: Seq<(char, usize)>, c: char, m: int, n: int)
    requires
        0 <= m <= n,
        first_index(l, c, m) >= 0,
    ensures
        first_index(l, c, n) == first_index(l, c, m),
    decreases n - m,
{
    if n > m {
        lemma_first_index_stable(l, c, m, n - 1);
    }
}

/// The bit of the letter `c` among `letters`.
fn bit_of(letters: &Vec<(char, usize)>, c: char) -> (r: u32)
    requires
        letters.len() <= 26,
    ensures
        r == letter_bit(letters@, c),
{
    let mut p: usize = 0;
    while p < letters.len()
        invariant
            p <= letters.len() <= 26,
            first_index(letters@, c, p as int) < 0,
        decreases letters.len() - p,
    {
        if letters[p].0 == c {
            proof {
                lemma_first_index_stable(letters@, c, p + 1, letters.len() as int);
            }
            return 1u32 << (p as u32);
        }
        p += 1;
    }
    0
}

/// The bits of the letters of `w`.
fn word_bitmap(letters: &Vec<(char, usize)>, w: &str) -> (r: u32)
    requires
        letters.len() <= 26,
    ensures
        r == word_mask(letters@, w@),
{
    let cs = chars_of(w);
    let mut acc: u32 = 0;
    let mut i: usize = 0;
    while i < cs.len()
        invariant
            letters.len() <= 26,
            cs@ == w@,
            i <= cs.len(),
            acc == word_mask(letters@, cs@.take(i as int)),
        decreases cs.len() - i,
    {
        assert(cs@.take(i + 1).drop_last() =~= cs@.take(i as int));
        acc = acc | bit_of(letters, cs[i]);
        i += 1;
    }
    assert(cs@.take(i as int) =~= cs@);
    acc
}

/// A word with the bits of the board letters that it uses.
pub struct WordBitmap {
    pub word: Arc<Word>,
    pub bitmap: u32,
}

/// The search over the words that a board allows.
///
/// `words_by_first_letter` lists, for each letter that some word begins
/// with, the positions in `word_bitmaps` of the words that begin with it.
pub struct Solver {
    pub word_bitmaps: Vec<WordBitmap>,
    pub words_by_first_letter: Vec<(char, Vec<usize>)>,
    pub all_letters_mask: u32,
    pub max_solutions: usize,
}

impl Solver {
    /// The index by first letter matches the words.
    pub open spec fn wf(&self) -> bool {
        let ws = self.word_bitmaps@;
        let n = ws.len() as int;
        let ix = self.words_by_first_letter@;
        &&& forall|e: int| 0 <= e < ix.len() ==> (#[trigger] ix[e]).1@ == starting_with(ws, ix[e].0, n)
        &&& forall|c: char| #[trigger]
            starting_with(ws, c, n).len() > 0 ==> exists|e: int| 0 <= e < ix.len() && (#[trigger] ix[e]).0 == c
        &&& forall|i: int| 0 <= i < n && (#[trigger] ws[i]).bitmap != 0 ==> ws[i].word.word@.len() > 0
    }

    /// Prepares the search of `board` over the words of `dictionary` that
    /// the board allows: each letter of the board gets a bit, in reading
    /// order, and each word the bits of its letters.
    pub fn new(board: Board, dictionary: &Dictionary, max_solutions: u16) -> (r: Solver)
        requires
            board.wf(),
            dictionary.wf(),
        ensures
            r.wf(),
            r.max_solutions == max_solutions as usize,
            r.all_letters_mask == full_mask(board.letters().len() as int),
            r.word_bitmaps.len() == board.playable_words(dictionary.words@).len(),
            forall|i: int|
                0 <= i < r.word_bitmaps.len() ==> (#[trigger] r.word_bitmaps@[i]).word
                    == board.playable_words(dictionary.words@)[i] && r.word_bitmaps@[i].bitmap
                    == word_mask(board.letters(), r.word_bitmaps@[i].word.word@),
    {
        let letters = tagged_letters(&board.sides);
        proof {
            lemma_board_letters(&board);
        }
        let mut all_letters_mask: u32 = 0;
        let mut p: usize = 0;
        while p < letters.len()
            invariant
                p <= letters.len() <= 26,
                all_letters_mask == full_mask(p as int),
            decreases letters.len() - p,
        {
            all_letters_mask = all_letters_mask | (1u32 << (p as u32));
            p += 1;
        }

        let board_dictionary = board.playable_dictionary(dictionary);
        let ghost kept = board.playable_words(dictionary.words@);
        let mut word_bitmaps: Vec<WordBitmap> = Vec::new();
        let mut firsts: Vec<Option<char>> = Vec::new();
        let mut i: usize = 0;
        while i < board_dictionary.words.len()
            invariant
                letters@ == board.letters(),
                letters.len() <= 26,
                board_dictionary.words@ == kept,
                i <= kept.len(),
                word_bitmaps.len() == i,
                firsts.len() == i,
                forall|j: int|
                    0 <= j < i ==> (#[trigger] word_bitmaps@[j]).word == kept[j]
                        && word_bitmaps@[j].bitmap == word_mask(board.letters(), kept[j].word@),
                forall|j: int| 0 <= j < i ==> #[trigger] firsts@[j] == first_char(kept[j].word@),
            decreases kept.len() - i,
        {
            let word = board_dictionary.words[i].clone();
            let bitmap = word_bitmap(&letters, word.word.as_str());
            let cs = chars_of(word.word.as_str());
            firsts.push(first_char_of(&cs));
            word_bitmaps.push(WordBitmap { word, bitmap });
            i += 1;
        }
        let ghost ws = word_bitmaps@;
        let n = word_bitmaps.len();

        // The letters that words begin with, each once.
        let mut initials: Vec<char> = Vec::new();
        let mut i: usize = 0;
        while i < n
            invariant
                n == ws.len(),
                firsts.len() == n,
                forall|j: int| 0 <= j < n ==> #[trigger] firsts@[j] == first_char(ws[j].word.word@),
                i <= n,
                forall|j: int|
                    0 <= j < i && (#[trigger] firsts@[j]) is Some ==> initials@.contains(firsts@[j]->0),
            decreases n - i,
        {
            let ghost before = initials@;
            match firsts[i] {
                Some(c) => {
                    let mut found = false;
                    let mut e: usize = 0;
                    while e < initials.len()
                        invariant
                            e <= initials.len(),
                            found ==> initials@.contains(c),
                        decreases initials.len() - e,
                    {
                        if initials[e] == c {
                            found = true;
                        }
                        e += 1;
                    }
                    if !found {
                        initials.push(c);
                        assert(initials@[initials.len() - 1] == c);
                    }
                    assert(initials@.contains(c));
                },
                None => {},
            }
            assert forall|x: char| before.contains(x) implies initials@.contains(x) by {
                let k = choose|k: int| 0 <= k < before.len() && before[k] == x;
                assert(initials@[k] == x);
            }
            i += 1;
        }

        let mut words_by_first_letter: Vec<(char, Vec<usize>)> = Vec::new();
        let mut e: usize = 0;
        while e < initials.len()
            invariant
                n == ws.len(),
                firsts.len() == n,
                forall|j: int| 0 <= j < n ==> #[trigger] firsts@[j] == first_char(ws[j].word.word@),
                e <= initials.len(),
                words_by_first_letter.len() == e,
                forall|f: int|
                    0 <= f < e ==> (#[trigger] words_by_first_letter@[f]).0 == initials@[f]
                        && words_by_first_letter@[f].1@ == starting_with(ws, initials@[f], n as int),
            decreases initials.len() - e,
        {
            let c = initials[e];
            let mut list: Vec<usize> = Vec::new();
            let mut i: usize = 0;
            while i < n
                invariant
                    n == ws.len(),
                    firsts.len() == n,
                    forall|j: int| 0 <= j < n ==> #[trigger] firsts@[j] == first_char(ws[j].word.word@),
                    i <= n,
                    list@ == starting_with(ws, c, i as int),
                decreases n - i,
            {
                if same_letter(firsts[i], Some(c)) {
                    list.push(i);
                }
                i += 1;
            }
            words_by_first_letter.push((c, list));
            e += 1;
        }

        let r = Solver {
            word_bitmaps,
            words_by_first_letter,
            all_letters_mask,
            max_solutions: max_solutions as usize,
        };
        proof {
            assert forall|c: char| #[trigger]
                starting_with(ws, c, n as int).len() > 0 implies exists|f: int|
                    0 <= f < r.words_by_first_letter@.len() && (#[trigger] r.words_by_first_letter@[f]).0
                        == c by {
                lemma_starting_with(ws, c, n as int);
                let i = choose|i: int| 0 <= i < n && first_char((#[trigger] ws[i]).word.word@) == Some(c);
                assert(firsts@[i] == Some(c));
                let f = choose|f: int| 0 <= f < initials.len() && initials@[f] == c;
                assert(r.words_by_first_letter@[f].0 == c);
            }
        }
        r
    }
}


/// The first `m` items of `s`, or all of them if there are fewer.
pub open spec fn cap(s: Seq<Seq<usize>>, m: int) -> Seq<Seq<usize>> {
    if s.len() <= m {
        s
    } else {
        s.take(m)
    }
}

proof fn lemma_cap_cap(a: Seq<Seq<usize>>, b: Seq<Seq<usize>>, m: int)
    requires
        0 <= m,
    ensures
        cap(cap(a, m) + b, m) == cap(a + b, m),
{
    if a.len() > m {
        assert(cap(a.take(m) + b, m) =~= (a + b).take(m));
    }
}

proof fn lemma_cap_prefix(a: Seq<Seq<usize>>, b: Seq<Seq<usize>>, m: int)
    requires
        0 <= m,
    ensures
        cap(a, m).is_prefix_of(cap(a + b, m)),
        a.len() <= m ==> a.is_prefix_of(cap(a + b, m)),
{
    assert(cap(a, m) =~= cap(a + b, m).subrange(0, cap(a, m).len() as int));
}

proof fn lemma_cap_full(a: Seq<Seq<usize>>, b: Seq<Seq<usize>>, m: int)
    requires
        0 <= m <= a.len(),
    ensures
        cap(a + b, m) == cap(a, m),
{
    assert(cap(a + b, m) =~= cap(a, m));
}

proof fn lemma_prefix_trans(a: Seq<Seq<usize>>, b: Seq<Seq<usize>>, c: Seq<Seq<usize>>)
    requires
        a.is_prefix_of(b),
        b.is_prefix_of(c),
    ensures
        a.is_prefix_of(c),
{
    assert(a =~= c.subrange(0, a.len() as int)) by {
        assert forall|i: int| 0 <= i < a.len() implies a[i] == c[i] by {
            assert(a[i] == b[i]);
            assert(b[i] == c[i]);
        }
    }
}

/// Relies on `AtomicBool::load`: it reads the flag, which another party
/// may set at any time, so nothing is known of the answer.
#[verifier::external_body]
fn is_cancelled(flag: &Arc<AtomicBool>) -> (r: bool) {
    flag.load(std::sync::atomic::Ordering::Relaxed)
}

impl Solver {
    /// The number of words.
    pub open spec fn n(&self) -> int {
        self.word_bitmaps.len() as int
    }

    /// The letters of word `i`.
    pub open spec fn text(&self, i: int) -> Seq<char> {
        self.word_bitmaps@[i].word.word@
    }

    /// The words that may follow a word ending with `last`: those that
    /// begin with it, or all of them where there is no such letter.
    pub open spec fn candidates_after(&self, last: Option<char>) -> Seq<usize> {
        match last {
            Some(c) => starting_with(self.word_bitmaps@, c, self.n()),
            None => Seq::new(self.n() as nat, |i: int| i as usize),
        }
    }

    /// The last letter of the last word of `path`, if any.
    pub open spec fn last_of(&self, path: Seq<usize>) -> Option<char> {
        if path.len() == 0 {
            None
        } else {
            last_char(self.text(path.last() as int))
        }
    }

    /// The words that may extend `path`, in order.
    pub open spec fn candidates(&self, path: Seq<usize>) -> Seq<usize> {
        self.candidates_after(self.last_of(path))
    }

    /// The words of a path of word positions.
    pub open spec fn path_words(&self, path: Seq<usize>) -> Seq<Arc<Word>> {
        path.map_values(|i: usize| self.word_bitmaps@[i as int].word)
    }

    /// The letters covered by the members `idx` of `path`.
    pub open spec fn cover(&self, path: Seq<usize>, idx: Seq<usize>) -> u32
        decreases idx.len(),
    {
        if idx.len() == 0 {
            0
        } else {
            self.cover(path, idx.drop_last()) | self.word_bitmaps@[path[idx.last() as int] as int].bitmap
        }
    }

    /// Some subsequence that could stand for `path` covers every letter.
    pub open spec fn redundant(&self, path: Seq<usize>) -> bool {
        let rs = redactions(self.path_words(path));
        exists|j: int| 0 <= j < rs.len() && self.cover(path, #[trigger] rs[j]) == self.all_letters_mask
    }

    /// The solutions of exactly `target` words that extend `path` (whose
    /// words cover `covered`) through its candidates from the `k`-th on,
    /// in the order of a depth-first search. A word is added only if it
    /// covers a new letter; a full path is kept if it covers every letter
    /// and is not redundant.
    pub open spec fn explore(&self, path: Seq<usize>, covered: u32, target: int, k: int) -> Seq<
        Seq<usize>,
    >
        decreases target - path.len(), self.candidates(path).len() - k,
    {
        if path.len() >= target {
            if path.len() == target && covered == self.all_letters_mask && !self.redundant(path) {
                seq![path]
            } else {
                seq![]
            }
        } else if k < 0 || k >= self.candidates(path).len() {
            seq![]
        } else {
            let c = self.candidates(path)[k];
            let grown = covered | self.word_bitmaps@[c as int].bitmap;
            let here = if grown != covered {
                self.explore(path.push(c), grown, target, 0)
            } else {
                seq![]
            };
            here + self.explore(path, covered, target, k + 1)
        }
    }

    /// The solutions of one word, then of two, and so on up to `t`.
    pub open spec fn runs(&self, t: int) -> Seq<Seq<usize>>
        decreases t,
    {
        if t <= 0 {
            seq![]
        } else {
            self.runs(t - 1) + self.explore(seq![], 0, t, 0)
        }
    }

    /// What a complete search collects: the first `max_solutions` solutions,
    /// shortest first.
    pub open spec fn found(&self) -> Seq<Seq<usize>> {
        cap(self.runs(4), self.max_solutions as int)
    }

    /// A path of positions of words.
    pub open spec fn valid_path(&self, path: Seq<usize>) -> bool {
        forall|t: int| 0 <= t < path.len() ==> (#[trigger] path[t] as int) < self.n()
    }

    proof fn lemma_candidates_valid(&self, path: Seq<usize>)
        ensures
            forall|t: int|
                0 <= t < self.candidates(path).len() ==> (#[trigger] self.candidates(path)[t] as int)
                    < self.n(),
    {
        match self.last_of(path) {
            Some(c) => lemma_starting_with(self.word_bitmaps@, c, self.n()),
            None => {},
        }
    }

    proof fn lemma_explore_paths(&self, path: Seq<usize>, covered: u32, target: int, k: int)
        requires
            self.valid_path(path),
            path.len() <= target,
        ensures
            forall|j: int|
                0 <= j < self.explore(path, covered, target, k).len() ==> {
                    let p = #[trigger] self.explore(path, covered, target, k)[j];
                    &&& p.len() == target
                    &&& self.valid_path(p)
                },
        decreases target - path.len(), self.candidates(path).len() - k,
    {
        if path.len() < target && 0 <= k < self.candidates(path).len() {
            let c = self.candidates(path)[k];
            self.lemma_candidates_valid(path);
            let grown = covered | self.word_bitmaps@[c as int].bitmap;
            if grown != covered {
                assert(self.valid_path(path.push(c))) by {
                    assert forall|t: int| 0 <= t < path.push(c).len() implies (#[trigger] path.push(
                        c,
                    )[t] as int) < self.n() by {
                        if t < path.len() {
                            assert(path.push(c)[t] == path[t]);
                        }
                    }
                }
                self.lemma_explore_paths(path.push(c), grown, target, 0);
            }
            self.lemma_explore_paths(path, covered, target, k + 1);
            let here = if grown != covered {
                self.explore(path.push(c), grown, target, 0)
            } else {
                seq![]
            };
            let rest = self.explore(path, covered, target, k + 1);
            assert(self.explore(path, covered, target, k) == here + rest);
            assert forall|j: int| 0 <= j < self.explore(path, covered, target, k).len() implies {
                let p = #[trigger] self.explore(path, covered, target, k)[j];
                &&& p.len() == target
                &&& self.valid_path(p)
            } by {
                if j < here.len() {
                    assert(self.explore(path, covered, target, k)[j] == here[j]);
                } else {
                    assert(self.explore(path, covered, target, k)[j] == rest[j - here.len()]);
                }
            }
        }
    }

    proof fn lemma_runs_paths(&self, t: int)
        requires
            t <= 4,
        ensures
            forall|j: int|
                0 <= j < self.runs(t).len() ==> {
                    let p = #[trigger] self.runs(t)[j];
                    &&& 1 <= p.len() <= 4
                    &&& self.valid_path(p)
                },
        decreases t,
    {
        if t > 0 {
            self.lemma_runs_paths(t - 1);
            self.lemma_explore_paths(seq![], 0, t, 0);
            let a = self.runs(t - 1);
            let b = self.explore(seq![], 0, t, 0);
            assert forall|j: int| 0 <= j < self.runs(t).len() implies {
                let p = #[trigger] self.runs(t)[j];
                &&& 1 <= p.len() <= 4
                &&& self.valid_path(p)
            } by {
                if j < a.len() {
                    assert(self.runs(t)[j] == a[j]);
                } else {
                    assert(self.runs(t)[j] == b[j - a.len()]);
                }
            }
        }
    }
}


proof fn lemma_redactions_below(ws: Seq<Arc<Word>>, m: int)
    ensures
        forall|j: int, t: int|
            0 <= j < redactions_below(ws, m).len() && 0 <= t < redactions_below(ws, m)[j].len()
                ==> (#[trigger] redactions_below(ws, m)[j][t] as int) < ws.len(),
    decreases m,
{
    if m > 1 {
        lemma_redactions_below(ws, m - 1);
        let mask = (m - 1) as u32;
        lemma_mask_indices_below(mask, ws.len() as int);
        let prev = redactions_below(ws, m - 1);
        let idx = mask_indices(mask, ws.len() as int);
        let r = redactions_below(ws, m);
        assert forall|j: int, t: int| 0 <= j < r.len() && 0 <= t < r[j].len() implies (
        #[trigger] r[j][t] as int) < ws.len() by {
            if j < prev.len() {
                assert(r[j] == prev[j]);
            } else {
                assert(r[j] == idx);
            }
        }
    }
}

impl Solver {
    /// The words that may follow a word ending with `last`.
    fn candidates_for(&self, last: Option<char>) -> (r: Vec<usize>)
        requires
            self.wf(),
        ensures
            r@ == self.candidates_after(last),
    {
        match last {
            Some(c) => {
                let mut e: usize = 0;
                while e < self.words_by_first_letter.len()
                    invariant
                        self.wf(),
                        last == Some(c),
                        e <= self.words_by_first_letter.len(),
                        forall|f: int| 0 <= f < e ==> (#[trigger] self.words_by_first_letter@[f]).0 != c,
                    decreases self.words_by_first_letter.len() - e,
                {
                    if self.words_by_first_letter[e].0 == c {
                        let list = &self.words_by_first_letter[e].1;
                        assert(list@ == starting_with(self.word_bitmaps@, c, self.n()));
                        let mut r: Vec<usize> = Vec::new();
                        let mut t: usize = 0;
                        while t < list.len()
                            invariant
                                t <= list.len(),
                                list@ == starting_with(self.word_bitmaps@, c, self.n()),
                                r@ == list@.take(t as int),
                            decreases list.len() - t,
                        {
                            r.push(list[t]);
                            assert(list@.take(t + 1) =~= list@.take(t as int).push(list@[t as int]));
                            t += 1;
                        }
                        assert(list@.take(t as int) =~= list@);
                        return r;
                    }
                    e += 1;
                }
                let r: Vec<usize> = Vec::new();
                assert(starting_with(self.word_bitmaps@, c, self.n()).len() == 0);
                assert(r@ =~= starting_with(self.word_bitmaps@, c, self.n()));
                r
            },
            None => {
                let mut r: Vec<usize> = Vec::new();
                let mut i: usize = 0;
                while i < self.word_bitmaps.len()
                    invariant
                        i <= self.word_bitmaps.len(),
                        r@ =~= Seq::new(i as nat, |j: int| j as usize),
                    decreases self.word_bitmaps.len() - i,
                {
                    r.push(i);
                    i += 1;
                }
                r
            },
        }
    }

    /// The words at the positions of `path`.
    fn words_of(&self, path: &Vec<usize>) -> (r: Vec<Arc<Word>>)
        requires
            self.valid_path(path@),
        ensures
            r@ == self.path_words(path@),
    {
        let mut r: Vec<Arc<Word>> = Vec::new();
        let mut t: usize = 0;
        while t < path.len()
            invariant
                self.valid_path(path@),
                t <= path.len(),
                r@ =~= self.path_words(path@.take(t as int)),
            decreases path.len() - t,
        {
            let i = path[t];
            r.push(self.word_bitmaps[i].word.clone());
            assert(self.path_words(path@.take(t + 1)) =~= self.path_words(path@.take(t as int)).push(
                self.word_bitmaps@[i as int].word,
            ));
            t += 1;
        }
        assert(path@.take(t as int) =~= path@);
        r
    }

    /// Whether some subsequence that could stand for the chain covers every
    /// letter; `solution` holds the words of `path`.
    fn is_solution_redundant(&self, solution: &Solution, path: &Vec<usize>) -> (r: bool)
        requires
            self.valid_path(path@),
            1 <= path.len() <= 4,
            solution.words@ == self.path_words(path@),
        ensures
            r == self.redundant(path@),
    {
        let redaction_indices = solution.redactable_subsequences();
        let ghost rs = redactions(self.path_words(path@));
        proof {
            if path.len() > 1 {
                lemma_redactions_below(self.path_words(path@), (1u32 << (path.len() as u32)) as int);
            }
        }
        let mut j: usize = 0;
        while j < redaction_indices.len()
            invariant
                self.valid_path(path@),
                rs == redactions(self.path_words(path@)),
                paths_view(redaction_indices@) == rs,
                forall|a: int, t: int|
                    0 <= a < rs.len() && 0 <= t < rs[a].len() ==> (#[trigger] rs[a][t] as int) < path.len(),
                j <= redaction_indices.len(),
                forall|a: int| 0 <= a < j ==> self.cover(path@, #[trigger] rs[a]) != self.all_letters_mask,
            decreases redaction_indices.len() - j,
        {
            let indices = &redaction_indices[j];
            assert(indices@ == rs[j as int]);
            let mut combined_bitmap: u32 = 0;
            let mut t: usize = 0;
            while t < indices.len()
                invariant
                    self.valid_path(path@),
                    indices@ == rs[j as int],
                    forall|u: int| 0 <= u < indices.len() ==> (#[trigger] indices@[u] as int) < path.len(),
                    t <= indices.len(),
                    combined_bitmap == self.cover(path@, indices@.take(t as int)),
                decreases indices.len() - t,
            {
                assert(indices@.take(t + 1).drop_last() =~= indices@.take(t as int));
                let idx = indices[t];
                let w = path[idx];
                combined_bitmap = combined_bitmap | self.word_bitmaps[w].bitmap;
                t += 1;
            }
            assert(indices@.take(t as int) =~= indices@);
            if combined_bitmap == self.all_letters_mask {
                return true;
            }
            j += 1;
        }
        false
    }
}


/// A copy of a path.
fn copy_path(path: &Vec<usize>) -> (r: Vec<usize>)
    ensures
        r@ == path@,
{
    let mut r: Vec<usize> = Vec::new();
    let mut t: usize = 0;
    while t < path.len()
        invariant
            t <= path.len(),
            r@ == path@.take(t as int),
        decreases path.len() - t,
    {
        r.push(path[t]);
        assert(path@.take(t + 1) =~= path@.take(t as int).push(path@[t as int]));
        t += 1;
    }
    assert(path@.take(t as int) =~= path@);
    r
}

impl Solver {
    /// Depth-first search for solutions of exactly `target_words` words that
    /// extend `current_path`, appended to `solutions` until it holds
    /// `max_solutions`. Returns false if the search was cancelled; what was
    /// collected until then stays.
    fn search_recursive(
        &self,
        current_path: &mut Vec<usize>,
        covered_bitmap: u32,
        last_char: Option<char>,
        solutions: &mut Vec<Vec<usize>>,
        target_words: usize,
        cancel_flag: Option<&Arc<AtomicBool>>,
    ) -> (r: bool)
        requires
            self.wf(),
            1 <= target_words <= 4,
            old(current_path).len() <= target_words,
            self.valid_path(old(current_path)@),
            last_char == self.last_of(old(current_path)@),
            old(solutions).len() <= self.max_solutions,
        ensures
            final(current_path)@ == old(current_path)@,
            final(solutions).len() <= self.max_solutions,
            cancel_flag is None ==> r,
            ({
                let all = cap(
                    paths_view(old(solutions)@) + self.explore(
                        old(current_path)@,
                        covered_bitmap,
                        target_words as int,
                        0,
                    ),
                    self.max_solutions as int,
                );
                if r {
                    paths_view(final(solutions)@) == all
                } else {
                    &&& paths_view(old(solutions)@).is_prefix_of(paths_view(final(solutions)@))
                    &&& paths_view(final(solutions)@).is_prefix_of(all)
                }
            }),
        decreases target_words - old(current_path).len(),
    {
        let ghost start_path = current_path@;
        let ghost start_found = paths_view(solutions@);
        let ghost max = self.max_solutions as int;
        let ghost t = target_words as int;
        let ghost whole = self.explore(start_path, covered_bitmap, t, 0);
        proof {
            lemma_cap_prefix(start_found, whole, max);
        }
        match cancel_flag {
            Some(flag) => {
                if is_cancelled(flag) {
                    return false;
                }
            },
            None => {},
        }
        if solutions.len() >= self.max_solutions {
            proof {
                lemma_cap_full(start_found, whole, max);
                assert(cap(start_found, max) =~= start_found);
            }
            return true;
        }
        if covered_bitmap == self.all_letters_mask && current_path.len() == target_words {
            let solution = Solution::new(self.words_of(current_path));
            if !self.is_solution_redundant(&solution, current_path) {
                let found = copy_path(current_path);
                solutions.push(found);
                assert(paths_view(solutions@) =~= start_found + seq![start_path]);
                return true;
            }
        }
        if current_path.len() >= target_words {
            assert(whole =~= seq![]);
            assert(start_found + whole =~= start_found);
            return true;
        }
        let word_indices = self.candidates_for(last_char);
        proof {
            self.lemma_candidates_valid(start_path);
        }
        let ghost mut done: Seq<Seq<usize>> = seq![];
        let mut k: usize = 0;
        while k < word_indices.len()
            invariant
                self.wf(),
                1 <= t <= 4,
                t == target_words as int,
                max == self.max_solutions as int,
                start_path.len() < t,
                self.valid_path(start_path),
                start_path == old(current_path)@,
                current_path@ == start_path,
                word_indices@ == self.candidates(start_path),
                forall|u: int| 0 <= u < word_indices.len() ==> (#[trigger] word_indices@[u] as int) < self.n(),
                k <= word_indices.len(),
                start_found == paths_view(old(solutions)@),
                start_found.len() <= max,
                solutions.len() <= max,
                paths_view(solutions@) == cap(start_found + done, max),
                whole == self.explore(start_path, covered_bitmap, t, 0),
                whole == done + self.explore(start_path, covered_bitmap, t, k as int),
            decreases word_indices.len() - k,
        {
            let word_idx = word_indices[k];
            let new_bitmap = covered_bitmap | self.word_bitmaps[word_idx].bitmap;
            let ghost child = if new_bitmap != covered_bitmap {
                self.explore(start_path.push(word_idx), new_bitmap, t, 0)
            } else {
                seq![]
            };
            let ghost rest = self.explore(start_path, covered_bitmap, t, k + 1);
            assert(self.explore(start_path, covered_bitmap, t, k as int) == child + rest);
            if new_bitmap != covered_bitmap {
                current_path.push(word_idx);
                let cs = chars_of(self.word_bitmaps[word_idx].word.word.as_str());
                let new_last_char = last_char_of(&cs);
                proof {
                    assert(current_path@ == start_path.push(word_idx));
                    assert(self.valid_path(current_path@)) by {
                        assert forall|u: int| 0 <= u < current_path@.len() implies (
                        #[trigger] current_path@[u] as int) < self.n() by {
                            if u < start_path.len() {
                                assert(current_path@[u] == start_path[u]);
                            }
                        }
                    }
                }
                let ghost before = paths_view(solutions@);
                let ok = self.search_recursive(
                    current_path,
                    new_bitmap,
                    new_last_char,
                    solutions,
                    target_words,
                    cancel_flag,
                );
                current_path.pop();
                assert(current_path@ =~= start_path);
                proof {
                    lemma_cap_cap(start_found + done, child, max);
                    assert(start_found + done + child =~= start_found + (done + child));
                    assert(whole =~= (done + child) + rest);
                    assert(start_found + whole =~= (start_found + (done + child)) + rest);
                    lemma_cap_prefix(start_found + (done + child), rest, max);
                }
                if !ok {
                    proof {
                        lemma_cap_prefix(start_found, done, max);
                        lemma_prefix_trans(start_found, before, paths_view(solutions@));
                        lemma_prefix_trans(
                            paths_view(solutions@),
                            cap(start_found + (done + child), max),
                            cap(start_found + whole, max),
                        );
                    }
                    return false;
                }
                proof {
                    done = done + child;
                }
            } else {
                assert(done + child =~= done);
            }
            assert(whole =~= done + rest);
            k += 1;
        }
        assert(self.explore(start_path, covered_bitmap, t, k as int) =~= seq![]);
        assert(done + seq![] =~= done);
        true
    }
}


/// No chain scores more: ten times the largest frequency, for one word.
pub const MAX_SCORE: usize = 1270;

impl Solver {
    /// The score of the chain of words at the positions of `path`.
    pub open spec fn path_score(&self, path: Seq<usize>) -> int {
        score_of(self.path_words(path))
    }

    /// The paths of `xs` that score `s`, in order.
    pub open spec fn with_score(&self, xs: Seq<Seq<usize>>, s: int) -> Seq<Seq<usize>> {
        xs.filter(|p: Seq<usize>| self.path_score(p) == s)
    }

    /// The paths of `xs` scoring from `MAX_SCORE` down to `s`: higher
    /// scores first, and in their order in `xs` among equal scores.
    pub open spec fn ranked_from(&self, xs: Seq<Seq<usize>>, s: int) -> Seq<Seq<usize>>
        decreases MAX_SCORE + 1 - s,
    {
        if s > MAX_SCORE as int {
            seq![]
        } else {
            self.ranked_from(xs, s + 1) + self.with_score(xs, s)
        }
    }

    /// `xs` ordered by descending score; equal scores keep their order.
    pub open spec fn ranked(&self, xs: Seq<Seq<usize>>) -> Seq<Seq<usize>> {
        self.ranked_from(xs, 0)
    }

    /// The solutions of `r` are the chains of the paths `ps`, in order, with
    /// their scores.
    pub open spec fn shows(&self, r: Seq<Solution>, ps: Seq<Seq<usize>>) -> bool {
        &&& r.len() == ps.len()
        &&& forall|i: int|
            0 <= i < r.len() ==> (#[trigger] r[i]).words@ == self.path_words(ps[i]) && r[i].score
                == self.path_score(ps[i])
    }

    proof fn lemma_runs_prefix(&self, t: int, u: int)
        requires
            t <= u,
        ensures
            self.runs(t).is_prefix_of(self.runs(u)),
        decreases u - t,
    {
        if t < u {
            self.lemma_runs_prefix(t, u - 1);
            if u > 0 {
                let a = self.runs(u - 1);
                assert(a.is_prefix_of(self.runs(u))) by {
                    assert(a =~= self.runs(u).subrange(0, a.len() as int));
                }
                lemma_prefix_trans(self.runs(t), a, self.runs(u));
            } else {
                assert(self.runs(t) =~= self.runs(u));
            }
        } else {
            assert(self.runs(t) =~= self.runs(u).subrange(0, self.runs(t).len() as int));
        }
    }

    proof fn lemma_found_prefix(&self, t: int)
        requires
            t <= 4,
        ensures
            cap(self.runs(t), self.max_solutions as int).is_prefix_of(self.found()),
            self.runs(t).len() >= self.max_solutions ==> cap(self.runs(t), self.max_solutions as int)
                == self.found(),
    {
        let a = self.runs(t);
        let b = self.runs(4);
        self.lemma_runs_prefix(t, 4);
        let rest = b.subrange(a.len() as int, b.len() as int);
        assert(b =~= a + rest);
        lemma_cap_prefix(a, rest, self.max_solutions as int);
        if a.len() >= self.max_solutions {
            lemma_cap_full(a, rest, self.max_solutions as int);
        }
    }

    proof fn lemma_ranked_members(&self, xs: Seq<Seq<usize>>, s: int)
        ensures
            forall|x: Seq<usize>| #[trigger]
                self.ranked_from(xs, s).contains(x) <==> xs.contains(x) && s <= self.path_score(x)
                    <= MAX_SCORE as int,
        decreases MAX_SCORE + 1 - s,
    {
        if s <= MAX_SCORE as int {
            self.lemma_ranked_members(xs, s + 1);
            let f = |p: Seq<usize>| self.path_score(p) == s;
            let w = self.with_score(xs, s);
            let a = self.ranked_from(xs, s + 1);
            assert forall|x: Seq<usize>| #[trigger]
                self.ranked_from(xs, s).contains(x) <==> xs.contains(x) && s <= self.path_score(x)
                    <= MAX_SCORE as int by {
                if w.contains(x) {
                    let i = choose|i: int| 0 <= i < w.len() && w[i] == x;
                    xs.lemma_filter_pred(f, i);
                    xs.lemma_filter_contains_rev(f, x);
                }
                if xs.contains(x) && self.path_score(x) == s {
                    let i = choose|i: int| 0 <= i < xs.len() && xs[i] == x;
                    xs.lemma_filter_contains(f, i);
                }
                if self.ranked_from(xs, s).contains(x) {
                    let i = choose|i: int| 0 <= i < a.len() + w.len() && (a + w)[i] == x;
                    if i < a.len() {
                        assert(a.contains(a[i]));
                    } else {
                        assert(w.contains(w[i - a.len()]));
                    }
                }
                if a.contains(x) {
                    let i = choose|i: int| 0 <= i < a.len() && a[i] == x;
                    assert((a + w)[i] == x);
                }
                if w.contains(x) {
                    let i = choose|i: int| 0 <= i < w.len() && w[i] == x;
                    assert((a + w)[a.len() + i] == x);
                }
            }
        }
    }

    /// Searches for solutions of one word, then two, three and four, until
    /// `max_solutions` are collected, and returns them by descending score
    /// (equal scores in the order found). The flag is polled before every
    /// step: once it is set the search stops, and what was collected until
    /// then is returned, ranked the same way.
    pub fn solve_cancellable(&self, cancel_flag: Option<Arc<AtomicBool>>) -> (r: Vec<Solution>)
        requires
            self.wf(),
        ensures
            cancel_flag is None ==> self.shows(r@, self.ranked(self.found())),
            exists|p: Seq<Seq<usize>>| p.is_prefix_of(self.found()) && self.shows(r@, self.ranked(p)),
    {
        let ghost max = self.max_solutions as int;
        let mut solutions: Vec<Vec<usize>> = Vec::new();
        let mut target_words: usize = 1;
        let mut stop = false;
        let mut cancelled = false;
        proof {
            self.lemma_found_prefix(0);
            assert(paths_view(solutions@) =~= cap(self.runs(0), max));
        }
        while target_words <= 4 && !stop
            invariant
                self.wf(),
                max == self.max_solutions as int,
                1 <= target_words <= 5,
                solutions.len() <= self.max_solutions,
                paths_view(solutions@).is_prefix_of(self.found()),
                !cancelled ==> paths_view(solutions@) == cap(self.runs(target_words - 1), max),
                !cancelled && stop ==> paths_view(solutions@) == self.found(),
                cancel_flag is None ==> !cancelled,
                cancelled ==> stop,
            decreases 5 - target_words, if stop { 0int } else { 1int },
        {
            let mut current_path: Vec<usize> = Vec::new();
            let ghost before = paths_view(solutions@);
            let ok = self.search_recursive(
                &mut current_path,
                0,
                None,
                &mut solutions,
                target_words,
                cancel_flag.as_ref(),
            );
            proof {
                let t = target_words as int;
                assert(self.runs(t) == self.runs(t - 1) + self.explore(seq![], 0, t, 0));
                lemma_cap_cap(self.runs(t - 1), self.explore(seq![], 0, t, 0), max);
                self.lemma_found_prefix(t);
            }
            if !ok {
                proof {
                    lemma_prefix_trans(
                        paths_view(solutions@),
                        cap(self.runs(target_words as int), max),
                        self.found(),
                    );
                }
                cancelled = true;
                stop = true;
            } else {
                if solutions.len() >= self.max_solutions {
                    stop = true;
                }
                target_words += 1;
            }
        }
        proof {
            if !cancelled && !stop {
                assert(target_words == 5);
            }
        }
        let ghost xs = paths_view(solutions@);
        proof {
            self.lemma_runs_paths(4);
            let f = self.found();
            assert forall|j: int| 0 <= j < xs.len() implies {
                let p = #[trigger] xs[j];
                &&& 1 <= p.len() <= 4
                &&& self.valid_path(p)
            } by {
                assert(xs[j] == f[j]);
                assert(f[j] == self.runs(4)[j]);
            }
        }

        // The score of each solution.
        let mut scores: Vec<usize> = Vec::new();
        let mut i: usize = 0;
        while i < solutions.len()
            invariant
                xs == paths_view(solutions@),
                forall|j: int| 0 <= j < xs.len() ==> {
                    let p = #[trigger] xs[j];
                    &&& 1 <= p.len() <= 4
                    &&& self.valid_path(p)
                },
                i <= solutions.len(),
                scores.len() == i,
                forall|j: int| 0 <= j < i ==> #[trigger] scores@[j] as int == self.path_score(xs[j]),
            decreases solutions.len() - i,
        {
            assert(xs[i as int] == solutions@[i as int]@);
            let solution = Solution::new(self.words_of(&solutions[i]));
            scores.push(solution.score);
            i += 1;
        }

        // Highest score first; equal scores in the order found.
        let mut result: Vec<Solution> = Vec::new();
        let mut s: usize = MAX_SCORE + 1;
        while s > 0
            invariant
                xs == paths_view(solutions@),
                forall|j: int| 0 <= j < xs.len() ==> {
                    let p = #[trigger] xs[j];
                    &&& 1 <= p.len() <= 4
                    &&& self.valid_path(p)
                },
                scores.len() == xs.len(),
                forall|j: int| 0 <= j < xs.len() ==> #[trigger] scores@[j] as int == self.path_score(xs[j]),
                s <= MAX_SCORE + 1,
                self.shows(result@, self.ranked_from(xs, s as int)),
            decreases s,
        {
            s -= 1;
            let ghost base = self.ranked_from(xs, s + 1);
            let ghost f = |p: Seq<usize>| self.path_score(p) == s as int;
            let mut i: usize = 0;
            while i < solutions.len()
                invariant
                    xs == paths_view(solutions@),
                    forall|j: int| 0 <= j < xs.len() ==> {
                        let p = #[trigger] xs[j];
                        &&& 1 <= p.len() <= 4
                        &&& self.valid_path(p)
                    },
                    scores.len() == xs.len(),
                    forall|j: int| 0 <= j < xs.len() ==> #[trigger] scores@[j] as int == self.path_score(xs[j]),
                    f == (|p: Seq<usize>| self.path_score(p) == s as int),
                    i <= xs.len(),
                    self.shows(result@, base + xs.take(i as int).filter(f)),
                decreases xs.len() - i,
            {
                proof {
                    reveal(Seq::filter);
                    assert(xs.take(i + 1).drop_last() =~= xs.take(i as int));
                }
                if scores[i] == s {
                    assert(xs[i as int] == solutions@[i as int]@);
                    let solution = Solution::new(self.words_of(&solutions[i]));
                    let ghost before = result@;
                    result.push(solution);
                    assert(base + xs.take(i + 1).filter(f) =~= (base + xs.take(i as int).filter(f)).push(
                        xs[i as int],
                    ));
                    assert forall|j: int| 0 <= j < result.len() implies (#[trigger] result@[j]).words@
                        == self.path_words((base + xs.take(i + 1).filter(f))[j]) && result@[j].score
                        == self.path_score((base + xs.take(i + 1).filter(f))[j]) by {
                        if j < before.len() {
                            assert(result@[j] == before[j]);
                        }
                    }
                } else {
                    assert(base + xs.take(i + 1).filter(f) =~= base + xs.take(i as int).filter(f));
                }
                i += 1;
            }
            assert(xs.take(i as int) =~= xs);
            assert(self.with_score(xs, s as int) == xs.filter(f));
        }
        result
    }

    /// Searches to the end, with no way to cancel; see `solve_cancellable`.
    pub fn solve(&self) -> (r: Vec<Solution>)
        requires
            self.wf(),
        ensures
            self.shows(r@, self.ranked(self.found())),
    {
        self.solve_cancellable(None)
    }
}


impl Solver {
    /// A chain of one word has no subsequence that could stand for it, so it
    /// is never redundant.
    pub proof fn lemma_single_word_kept(&self, path: Seq<usize>)
        requires
            path.len() == 1,
        ensures
            redactions(self.path_words(path)).len() == 0,
            !self.redundant(path),
    {
    }

    /// A cancelled search returns no solution that the complete search would
    /// not return, and none more often: whatever prefix of the complete
    /// collection it had reached.
    pub proof fn lemma_cancelled_subset(&self, p: Seq<Seq<usize>>)
        requires
            p.is_prefix_of(self.found()),
        ensures
            forall|x: Seq<usize>| #[trigger]
                self.ranked(p).contains(x) ==> self.ranked(self.found()).contains(x),
            self.ranked(p).to_multiset().subset_of(self.ranked(self.found()).to_multiset()),
    {
        self.lemma_ranked_members(p, 0);
        self.lemma_ranked_members(self.found(), 0);
        assert forall|x: Seq<usize>| #[trigger]
            self.ranked(p).contains(x) implies self.ranked(self.found()).contains(x) by {
            let i = choose|i: int| 0 <= i < p.len() && p[i] == x;
            assert(self.found()[i] == x);
        }
        let f = self.found();
        let rest = f.subrange(p.len() as int, f.len() as int);
        assert(f =~= p + rest);
        self.lemma_ranked_multiset(p, 0);
        self.lemma_ranked_multiset(f, 0);
        let pred = |q: Seq<usize>| 0 <= self.path_score(q) <= MAX_SCORE as int;
        assert(self.scored_within(f, 0) == (p + rest).filter(pred));
        Seq::filter_distributes_over_add(p, rest, pred);
        vstd::seq_lib::lemma_multiset_commutative(p.filter(pred), rest.filter(pred));
        let m1 = p.filter(pred).to_multiset();
        let m2 = rest.filter(pred).to_multiset();
        assert(self.ranked(p).to_multiset() == m1);
        assert(self.ranked(f).to_multiset() =~= m1.add(m2));
        assert forall|v: Seq<usize>| m1.count(v) <= m1.add(m2).count(v) by {}
    }
}


impl Solver {
    /// The letters covered by the words of `path`.
    pub open spec fn path_cover(&self, path: Seq<usize>) -> u32
        decreases path.len(),
    {
        if path.len() == 0 {
            0
        } else {
            self.path_cover(path.drop_last()) | self.word_bitmaps@[path.last() as int].bitmap
        }
    }

    /// Each word of `path` begins with the letter that the one before it ends with.
    pub open spec fn chained(&self, path: Seq<usize>) -> bool {
        forall|t: int|
            0 <= t < path.len() - 1 ==> last_char(self.text(#[trigger] path[t] as int)) == first_char(
                self.text(path[t + 1] as int),
            )
    }

    /// The paths of the words that a search keeps: of `target` words,
    /// chained, covering every letter, and not redundant.
    pub open spec fn is_solution(&self, path: Seq<usize>, target: int) -> bool {
        &&& path.len() == target
        &&& self.valid_path(path)
        &&& self.chained(path)
        &&& self.path_cover(path) == self.all_letters_mask
        &&& !self.redundant(path)
    }

    proof fn lemma_explore_solutions(&self, path: Seq<usize>, covered: u32, target: int, k: int)
        requires
            self.wf(),
            self.valid_path(path),
            path.len() <= target,
            covered == self.path_cover(path),
            self.chained(path),
            path.len() > 0 ==> self.text(path.last() as int).len() > 0,
        ensures
            forall|j: int|
                0 <= j < self.explore(path, covered, target, k).len() ==> self.is_solution(
                    #[trigger] self.explore(path, covered, target, k)[j],
                    target,
                ),
        decreases target - path.len(), self.candidates(path).len() - k,
    {
        if path.len() < target && 0 <= k < self.candidates(path).len() {
            let c = self.candidates(path)[k];
            self.lemma_candidates_valid(path);
            let bits = self.word_bitmaps@[c as int].bitmap;
            let grown = covered | bits;
            if grown != covered {
                let next = path.push(c);
                assert(bits != 0) by {
                    if bits == 0 {
                        assert(covered | bits == covered) by (bit_vector)
                            requires
                                bits == 0u32,
                        ;
                    }
                }
                assert(next.drop_last() =~= path);
                assert(self.valid_path(next)) by {
                    assert forall|t: int| 0 <= t < next.len() implies (#[trigger] next[t] as int)
                        < self.n() by {
                        if t < path.len() {
                            assert(next[t] == path[t]);
                        }
                    }
                }
                assert(self.chained(next)) by {
                    if path.len() > 0 {
                        let ch = last_char(self.text(path.last() as int));
                        assert(ch is Some);
                        lemma_starting_with(self.word_bitmaps@, ch->0, self.n());
                        assert(first_char(self.text(c as int)) == ch);
                    }
                    assert forall|t: int| 0 <= t < next.len() - 1 implies last_char(
                        self.text(#[trigger] next[t] as int),
                    ) == first_char(self.text(next[t + 1] as int)) by {
                        if t < path.len() - 1 {
                            assert(next[t] == path[t] && next[t + 1] == path[t + 1]);
                        } else {
                            assert(next[t] == path.last() && next[t + 1] == c);
                        }
                    }
                }
                self.lemma_explore_solutions(next, grown, target, 0);
            }
            self.lemma_explore_solutions(path, covered, target, k + 1);
            let here = if grown != covered {
                self.explore(path.push(c), grown, target, 0)
            } else {
                seq![]
            };
            let rest = self.explore(path, covered, target, k + 1);
            assert forall|j: int| 0 <= j < self.explore(path, covered, target, k).len() implies self.is_solution(
                #[trigger] self.explore(path, covered, target, k)[j],
                target,
            ) by {
                if j < here.len() {
                    assert(self.explore(path, covered, target, k)[j] == here[j]);
                } else {
                    assert(self.explore(path, covered, target, k)[j] == rest[j - here.len()]);
                }
            }
        }
    }

    /// Every path that a complete search collects is a solution: one to
    /// four words, each beginning with the letter that the one before it
    /// ends with, covering every letter of the board, and with no shorter
    /// admissible subsequence that covers them too.
    pub proof fn lemma_found_are_solutions(&self)
        requires
            self.wf(),
        ensures
            forall|j: int|
                0 <= j < self.found().len() ==> {
                    let p = #[trigger] self.found()[j];
                    &&& 1 <= p.len() <= 4
                    &&& self.is_solution(p, p.len() as int)
                },
    {
        self.lemma_runs_solutions(4);
        let r = self.runs(4);
        assert forall|j: int| 0 <= j < self.found().len() implies {
            let p = #[trigger] self.found()[j];
            &&& 1 <= p.len() <= 4
            &&& self.is_solution(p, p.len() as int)
        } by {
            assert(self.found()[j] == r[j]);
        }
    }

    proof fn lemma_runs_solutions(&self, t: int)
        requires
            self.wf(),
            t <= 4,
        ensures
            forall|j: int|
                0 <= j < self.runs(t).len() ==> {
                    let p = #[trigger] self.runs(t)[j];
                    &&& 1 <= p.len() <= 4
                    &&& self.is_solution(p, p.len() as int)
                },
        decreases t,
    {
        if t > 0 {
            self.lemma_runs_solutions(t - 1);
            let empty: Seq<usize> = seq![];
            assert(self.chained(empty));
            self.lemma_explore_solutions(empty, 0, t, 0);
            let a = self.runs(t - 1);
            let b = self.explore(empty, 0, t, 0);
            assert forall|j: int| 0 <= j < self.runs(t).len() implies {
                let p = #[trigger] self.runs(t)[j];
                &&& 1 <= p.len() <= 4
                &&& self.is_solution(p, p.len() as int)
            } by {
                if j < a.len() {
                    assert(self.runs(t)[j] == a[j]);
                } else {
                    assert(self.runs(t)[j] == b[j - a.len()]);
                }
            }
        }
    }
}


proof fn lemma_starting_with_has(ws: Seq<WordBitmap>, c: char, k: int, x: int)
    requires
        0 <= x < k <= ws.len() <= usize::MAX,
        first_char(ws[x].word.word@) == Some(c),
    ensures
        starting_with(ws, c, k).contains(x as usize),
    decreases k,
{
    if x < k - 1 {
        lemma_starting_with_has(ws, c, k - 1, x);
        let prev = starting_with(ws, c, k - 1);
        let j = choose|j: int| 0 <= j < prev.len() && prev[j] == x as usize;
        assert(starting_with(ws, c, k)[j] == x as usize);
    } else {
        let cur = starting_with(ws, c, k);
        assert(cur[cur.len() - 1] == x as usize);
    }
}

impl Solver {
    /// Each word of `path` covers a letter that the words before it do not.
    pub open spec fn each_adds(&self, path: Seq<usize>) -> bool {
        forall|t: int|
            0 <= t < path.len() ==> (self.path_cover(path.take(t)) | self.word_bitmaps@[#[trigger] path[t] as int].bitmap)
                != self.path_cover(path.take(t))
    }

    proof fn lemma_next_is_candidate(&self, q: Seq<usize>, i: int)
        requires
            self.valid_path(q),
            self.chained(q),
            0 <= i < q.len(),
        ensures
            exists|pos: int|
                0 <= pos < self.candidates(q.take(i)).len() && #[trigger] self.candidates(q.take(i))[pos]
                    == q[i],
    {
        let p = q.take(i);
        let all = Seq::new(self.n() as nat, |j: int| j as usize);
        if i > 0 {
            assert(p.last() == q[i - 1]);
        }
        match self.last_of(p) {
            Some(c) => {
                assert(first_char(self.text(q[i] as int)) == Some(c));
                lemma_starting_with_has(self.word_bitmaps@, c, self.n(), q[i] as int);
                let cs = self.candidates(p);
                let pos = choose|pos: int| 0 <= pos < cs.len() && cs[pos] == q[i];
                assert(self.candidates(p)[pos] == q[i]);
            },
            None => {
                assert(self.candidates(p) == all);
                assert(all[q[i] as int] == q[i]);
            },
        }
    }

    #[verifier::rlimit(80)]
    proof fn lemma_reaches(&self, q: Seq<usize>, i: int, k: int)
        requires
            self.valid_path(q),
            self.chained(q),
            self.each_adds(q),
            self.path_cover(q) == self.all_letters_mask,
            !self.redundant(q),
            0 <= i <= q.len(),
            0 <= k,
            i < q.len() ==> exists|pos: int|
                k <= pos < self.candidates(q.take(i)).len() && #[trigger] self.candidates(q.take(i))[pos]
                    == q[i],
        ensures
            self.explore(q.take(i), self.path_cover(q.take(i)), q.len() as int, k).contains(q),
        decreases q.len() - i, self.candidates(q.take(i)).len() - k,
    {
        let p = q.take(i);
        let cov = self.path_cover(p);
        let t = q.len() as int;
        if i == q.len() {
            assert(p =~= q);
            assert(self.explore(p, cov, t, k) == seq![q]);
            assert(seq![q][0] == q);
        } else {
            let cs = self.candidates(p);
            let pos = choose|pos: int| k <= pos < cs.len() && #[trigger] cs[pos] == q[i];
            let c = cs[k];
            let grown = cov | self.word_bitmaps@[c as int].bitmap;
            let here = if grown != cov {
                self.explore(p.push(c), grown, t, 0)
            } else {
                seq![]
            };
            let rest = self.explore(p, cov, t, k + 1);
            assert(self.explore(p, cov, t, k) == here + rest);
            if k == pos {
                assert(c == q[i]);
                assert(grown != cov);
                let next = q.take(i + 1);
                assert(next =~= p.push(c));
                assert(next.drop_last() =~= p);
                assert(self.path_cover(next) == grown);
                if i + 1 < q.len() {
                    self.lemma_next_is_candidate(q, i + 1);
                }
                self.lemma_reaches(q, i + 1, 0);
                let j = choose|j: int| 0 <= j < here.len() && here[j] == q;
                assert((here + rest)[j] == q);
            } else {
                self.lemma_reaches(q, i, k + 1);
                let j = choose|j: int| 0 <= j < rest.len() && rest[j] == q;
                assert((here + rest)[here.len() + j] == q);
            }
        }
    }

    /// Every solution is collected by a complete search: a path of one to
    /// four words, chained, in which each word covers a new letter, that
    /// covers every letter and is not redundant, is among the solutions of
    /// all lengths; it is in `found()` when they are no more than
    /// `max_solutions`.
    proof fn lemma_runs_contain(&self, q: Seq<usize>, t: int)
        requires
            1 <= t <= 4,
            self.explore(seq![], 0, t, 0).contains(q),
        ensures
            self.runs(4).contains(q),
    {
        let e = self.explore(seq![], 0, t, 0);
        let j = choose|j: int| 0 <= j < e.len() && e[j] == q;
        let a = self.runs(t - 1);
        assert(self.runs(t) == a + e);
        assert(self.runs(t)[a.len() + j] == q);
        self.lemma_runs_prefix(t, 4);
        assert(self.runs(4)[a.len() + j] == q);
    }

    /// Every solution is collected by a complete search: a path of one to
    /// four words, chained, in which each word covers a new letter, that
    /// covers every letter and is not redundant, is among the solutions of
    /// all lengths; it is in `found()` when they are no more than
    /// `max_solutions`.
    pub proof fn lemma_solutions_are_found(&self, q: Seq<usize>)
        requires
            self.wf(),
            1 <= q.len() <= 4,
            self.valid_path(q),
            self.chained(q),
            self.each_adds(q),
            self.path_cover(q) == self.all_letters_mask,
            !self.redundant(q),
        ensures
            self.runs(4).contains(q),
            self.runs(4).len() <= self.max_solutions ==> self.found().contains(q),
    {
        let empty: Seq<usize> = seq![];
        assert(q.take(0) =~= empty);
        assert(self.path_cover(empty) == 0);
        self.lemma_next_is_candidate(q, 0);
        self.lemma_reaches(q, 0, 0);
        self.lemma_runs_contain(q, q.len() as int);
    }
}


impl Solver {
    /// The paths of `xs` scoring from `s` up to `MAX_SCORE`, in order.
    pub open spec fn scored_within(&self, xs: Seq<Seq<usize>>, s: int) -> Seq<Seq<usize>> {
        xs.filter(|q: Seq<usize>| s <= self.path_score(q) <= MAX_SCORE as int)
    }

    proof fn lemma_partition(&self, xs: Seq<Seq<usize>>, s: int)
        requires
            s <= MAX_SCORE as int,
        ensures
            self.scored_within(xs, s).to_multiset() =~= self.scored_within(xs, s + 1).to_multiset().add(
                self.with_score(xs, s).to_multiset(),
            ),
        decreases xs.len(),
    {
        broadcast use vstd::seq_lib::group_to_multiset_ensures;
        broadcast use vstd::multiset::group_multiset_axioms;

        reveal(Seq::filter);
        if xs.len() == 0 {
            assert(self.scored_within(xs, s) =~= seq![]);
            assert(self.scored_within(xs, s + 1) =~= seq![]);
            assert(self.with_score(xs, s) =~= seq![]);
        } else {
            let init = xs.drop_last();
            self.lemma_partition(init, s);
        }
    }

    proof fn lemma_ranked_multiset(&self, xs: Seq<Seq<usize>>, s: int)
        ensures
            self.ranked_from(xs, s).to_multiset() == self.scored_within(xs, s).to_multiset(),
        decreases MAX_SCORE + 1 - s,
    {
        broadcast use vstd::seq_lib::group_to_multiset_ensures;

        if s > MAX_SCORE as int {
            let pred = |q: Seq<usize>| s <= self.path_score(q) <= MAX_SCORE as int;
            xs.lemma_all_neg_filter_empty(pred);
            assert(self.scored_within(xs, s) =~= seq![]);
            assert(self.ranked_from(xs, s) =~= seq![]);
        } else {
            self.lemma_ranked_multiset(xs, s + 1);
            self.lemma_partition(xs, s);
            vstd::seq_lib::lemma_multiset_commutative(self.ranked_from(xs, s + 1), self.with_score(xs, s));
        }
    }
}

} // verus!
