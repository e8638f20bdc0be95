//! The board: four sides of letters, checked when it is built, and the
//! digraphs that it allows (a letter followed by a letter of another side).

use std::sync::Arc;
use vstd::prelude::*;
use vstd::utf8::encode_utf8;
use crate::dictionary::{digraph_code, digraph_seq, pairs_of, refs_table, table_sorted, Dictionary, Word};
use crate::text::{append_str, chars_of, pair_string, strings_view};

verus! {

/// The display name of side `i`: top, right, left, bottom.
pub open spec fn side_name(i: int) -> Seq<char> {
    if i == 0 {
        "top"@
    } else if i == 1 {
        "right"@
    } else if i == 2 {
        "left"@
    } else {
        "bottom"@
    }
}

/// The length in bytes of the UTF-8 encoding of `s`, as `str::len` gives it.
pub open spec fn byte_len(s: Seq<char>) -> usize {
    encode_utf8(s).len() as usize
}

/// Whether `c` is a lowercase ASCII letter.
pub open spec fn is_lower(c: char) -> bool {
    'a' <= c && c <= 'z'
}

/// The letters of the sides in reading order, each with its side's number.
pub open spec fn tagged(sides: Seq<Seq<char>>) -> Seq<(char, usize)>
    decreases sides.len(),
{
    if sides.len() == 0 {
        seq![]
    } else {
        tagged(sides.drop_last()) + sides.last().map_values(|c: char| (c, (sides.len() - 1) as usize))
    }
}

/// The position of the first letter `c` among the first `n` of `letters`, or -1.
pub open spec fn first_index(letters: Seq<(char, usize)>, c: char, n: int) -> int
    decreases n,
{
    if n <= 0 {
        -1
    } else {
        let f = first_index(letters, c, n - 1);
        if f >= 0 {
            f
        } else if letters[n - 1].0 == c {
            n - 1
        } else {
            -1
        }
    }
}

/// What is wrong with a list of sides, as the first failed check finds it.
pub enum BoardFault {
    /// Not four sides; the count.
    SideCount(nat),
    EmptySide,
    /// Side `i` differs in length from side 0; its number and both lengths.
    UnequalLength(int, usize, usize),
    /// A character that is no lowercase ASCII letter, and its side.
    BadCharacter(char, int),
    /// A letter seen a second time; the side of its first occurrence and the side where it repeats.
    Repeated(char, int, int),
}

/// The first side, from side 1 on, whose byte length differs from side 0's.
pub open spec fn first_unequal(sides: Seq<Seq<char>>, i: int) -> Option<int>
    decreases sides.len() - i,
{
    if i >= sides.len() {
        None
    } else if byte_len(sides[i]) != byte_len(sides[0]) {
        Some(i)
    } else {
        first_unequal(sides, i + 1)
    }
}

/// The first fault of the letters, scanned in reading order from position `p`.
pub open spec fn content_fault(letters: Seq<(char, usize)>, p: int) -> Option<BoardFault>
    decreases letters.len() - p,
{
    if p < 0 || p >= letters.len() {
        None
    } else {
        let (c, s) = letters[p];
        let q = first_index(letters, c, p);
        if !is_lower(c) {
            Some(BoardFault::BadCharacter(c, s as int))
        } else if q >= 0 {
            Some(BoardFault::Repeated(c, letters[q].1 as int, s as int))
        } else {
            content_fault(letters, p + 1)
        }
    }
}

/// The fault of a list of sides, checks in order: the count, empty sides,
/// equal lengths, then the letters.
pub open spec fn first_fault(sides: Seq<Seq<char>>) -> Option<BoardFault> {
    if sides.len() != 4 {
        Some(BoardFault::SideCount(sides.len()))
    } else if exists|i: int| 0 <= i < 4 && (#[trigger] sides[i]).len() == 0 {
        Some(BoardFault::EmptySide)
    } else {
        match first_unequal(sides, 0) {
            Some(i) => Some(BoardFault::UnequalLength(i, byte_len(sides[0]), byte_len(sides[i]))),
            None => content_fault(tagged(sides), 0),
        }
    }
}

/// Where a repeated letter was found: one side, or the side of its first
/// occurrence and the side where it repeats.
pub open spec fn location_text(first: int, second: int) -> Seq<char> {
    if first == second {
        "on the "@ + side_name(second) + " side"@
    } else {
        "on the "@ + side_name(first) + " side and the "@ + side_name(second) + " side"@
    }
}

/// Why a board could not be built.
#[derive(Debug)]
pub enum BoardError {
    InvalidSideCount(usize),
    UnequalSideLengths { side1: String, len1: usize, side2: String, len2: usize },
    InvalidCharacter { ch: char, side: String },
    DuplicateLetter { letter: char, location: String },
    EmptySide,
}

impl BoardError {
    /// This error reports the fault `f`.
    pub open spec fn describes(&self, f: BoardFault) -> bool {
        match f {
            BoardFault::SideCount(n) => self matches BoardError::InvalidSideCount(c) && c == n,
            BoardFault::EmptySide => self is EmptySide,
            BoardFault::UnequalLength(i, l0, li) => match self {
                BoardError::UnequalSideLengths { side1, len1, side2, len2 } => side1@ == side_name(0)
                    && len1 == l0 && side2@ == side_name(i) && len2 == li,
                _ => false,
            },
            BoardFault::BadCharacter(c, i) => match self {
                BoardError::InvalidCharacter { ch, side } => ch == c && side@ == side_name(i),
                _ => false,
            },
            BoardFault::Repeated(c, p, i) => match self {
                BoardError::DuplicateLetter { letter, location } => letter == c && location@
                    == location_text(p, i),
                _ => false,
            },
        }
    }
}

/// The display name of side `i`.
fn side_label(i: usize) -> (r: String)
    requires
        i < 4,
    ensures
        r@ == side_name(i as int),
{
    if i == 0 {
        "top".to_owned()
    } else if i == 1 {
        "right".to_owned()
    } else if i == 2 {
        "left".to_owned()
    } else {
        "bottom".to_owned()
    }
}

/// The letters of the sides in reading order, each with its side's number.
pub fn tagged_letters(sides: &Vec<String>) -> (r: Vec<(char, usize)>)
    ensures
        r@ == tagged(strings_view(sides@)),
{
    let ghost sv = strings_view(sides@);
    let mut r: Vec<(char, usize)> = Vec::new();
    let mut i: usize = 0;
    while i < sides.len()
        invariant
            sv == strings_view(sides@),
            i <= sides.len(),
            r@ == tagged(sv.take(i as int)),
        decreases sides.len() - i,
    {
        let cs = chars_of(sides[i].as_str());
        let ghost start = r@;
        let mut j: usize = 0;
        while j < cs.len()
            invariant
                sv == strings_view(sides@),
                i < sides.len(),
                cs@ == sv[i as int],
                j <= cs.len(),
                r@ == start + cs@.take(j as int).map_values(|c: char| (c, i)),
            decreases cs.len() - j,
        {
            r.push((cs[j], i));
            assert(cs@.take(j + 1).map_values(|c: char| (c, i)) =~= cs@.take(j as int).map_values(
                |c: char| (c, i),
            ).push((cs@[j as int], i)));
            j += 1;
        }
        assert(sv.take(i + 1).drop_last() =~= sv.take(i as int));
        assert(cs@.take(j as int) =~= cs@);
        assert(r@ =~= tagged(sv.take(i + 1)));
        i += 1;
    }
    assert(sv.take(i as int) =~= sv);
    r
}


proof fn lemma_tagged_sides(sides: Seq<Seq<char>>, p: int)
    requires
        0 <= p < tagged(sides).len(),
    ensures
        (tagged(sides)[p].1 as int) < sides.len(),
    decreases sides.len(),
{
    if sides.len() > 0 {
        let init = tagged(sides.drop_last());
        if p < init.len() {
            lemma_tagged_sides(sides.drop_last(), p);
        }
    }
}

/// A digraph that the board allows: a letter, then a letter of another side.
pub open spec fn legal_digraph(letters: Seq<(char, usize)>, d: Seq<char>) -> bool {
    exists|p: int, q: int|
        0 <= p < letters.len() && 0 <= q < letters.len() && (#[trigger] letters[p]).1 != (
        #[trigger] letters[q]).1 && d == seq![letters[p].0, letters[q].0]
}

/// Whether the digraph `d` is among the strings of `v`.
fn holds_string(v: &Vec<String>, d: &String) -> (r: bool)
    ensures
        r == strings_view(v@).contains(d@),
{
    let mut k: usize = 0;
    while k < v.len()
        invariant
            k <= v.len(),
            forall|j: int| 0 <= j < k ==> (#[trigger] v@[j])@ != d@,
        decreases v.len() - k,
    {
        if v[k] == *d {
            assert(strings_view(v@)[k as int] == d@);
            return true;
        }
        k += 1;
    }
    assert forall|j: int| 0 <= j < strings_view(v@).len() implies strings_view(v@)[j] != d@ by {
        assert(strings_view(v@)[j] == v@[j]@);
    }
    false
}

/// The positions below `q` whose letter is on the same side as the letter at `p`.
pub open spec fn same_in_row(letters: Seq<(char, usize)>, p: int, q: int) -> int
    decreases q,
{
    if q <= 0 {
        0
    } else {
        same_in_row(letters, p, q - 1) + if letters[q - 1].1 == letters[p].1 {
            1int
        } else {
            0int
        }
    }
}

/// The ordered pairs of positions whose first member is below `p` and whose
/// letters are on one side.
pub open spec fn same_side_rows(letters: Seq<(char, usize)>, p: int) -> int
    decreases p,
{
    if p <= 0 {
        0
    } else {
        same_side_rows(letters, p - 1) + same_in_row(letters, p - 1, letters.len() as int)
    }
}

/// The ordered pairs of letters that share a side (a letter with itself
/// included): the pairs that can never be digraphs.
pub open spec fn same_side_pairs(letters: Seq<(char, usize)>) -> int {
    same_side_rows(letters, letters.len() as int)
}

/// A legal digraph from a pair of letters before `(p, q)` in row-major order.
pub open spec fn legal_before(letters: Seq<(char, usize)>, d: Seq<char>, p: int, q: int) -> bool {
    exists|a: int, b: int|
        0 <= a < letters.len() && 0 <= b < letters.len() && (a < p || (a == p && b < q)) && (
        #[trigger] letters[a]).1 != (#[trigger] letters[b]).1 && d == seq![letters[a].0, letters[b].0]
}

/// Four sides, none empty, all of the byte length of the first.
pub open spec fn shape_ok(sides: Seq<Seq<char>>) -> bool {
    &&& sides.len() == 4
    &&& forall|i: int| 0 <= i < 4 ==> (#[trigger] sides[i]).len() != 0
    &&& first_unequal(sides, 0) is None
}

/// A list of sides from which a board can be built.
pub open spec fn sides_ok(sides: Seq<Seq<char>>) -> bool {
    first_fault(sides) is None
}

/// A board: four sides of letters, and the digraphs that it allows.
#[derive(Debug, Clone)]
pub struct Board {
    pub sides: Vec<String>,
    pub digraphs: Vec<String>,
}

impl Board {
    /// The sides, as sequences of characters.
    pub open spec fn sides_view(&self) -> Seq<Seq<char>> {
        strings_view(self.sides@)
    }

    /// The board's letters in reading order, each with its side's number.
    pub open spec fn letters(&self) -> Seq<(char, usize)> {
        tagged(self.sides_view())
    }

    /// The digraphs that the board lists.
    pub open spec fn digraph_list(&self) -> Seq<Seq<char>> {
        strings_view(self.digraphs@)
    }

    /// The sides pass every check, and the digraphs are exactly those that
    /// the sides allow, each once.
    pub open spec fn wf(&self) -> bool {
        &&& sides_ok(self.sides_view())
        &&& forall|d: Seq<char>| #[trigger]
            self.digraph_list().contains(d) <==> legal_digraph(self.letters(), d)
        &&& self.digraph_list().no_duplicates()
        &&& self.digraph_list().len() + same_side_pairs(self.letters()) == self.letters().len()
            * self.letters().len()
    }

    /// A board of `N` letters has `N * N` digraphs, less the ordered pairs
    /// of letters of one side (for sides of `L` letters, `L * L` each).
    pub proof fn lemma_digraph_count(&self)
        requires
            self.wf(),
        ensures
            self.digraph_list().len() == self.letters().len() * self.letters().len()
                - same_side_pairs(self.letters()),
    {
    }

    /// Whether every consecutive letter pair of `w` is a digraph of the board.
    pub open spec fn allows(&self, w: Seq<char>) -> bool {
        forall|k: int|
            0 <= k < pairs_of(w).len() ==> self.digraph_list().contains(
                #[trigger] digraph_seq(pairs_of(w)[k]),
            )
    }

    /// The words of `ws` that the board allows, in order.
    pub open spec fn playable_words(&self, ws: Seq<Arc<Word>>) -> Seq<Arc<Word>> {
        ws.filter(|w: Arc<Word>| self.allows(w.word@))
    }

    /// Checks the shape of the sides: four of them, none empty, all of one
    /// length in bytes.
    fn validate_sides_structure(sides: &Vec<String>) -> (r: Result<(), BoardError>)
        ensures
            r is Ok <==> shape_ok(strings_view(sides@)),
            match r {
                Ok(()) => true,
                Err(e) => first_fault(strings_view(sides@)) matches Some(f) && e.describes(f),
            },
    {
        let ghost sv = strings_view(sides@);
        if sides.len() != 4 {
            return Err(BoardError::InvalidSideCount(sides.len()));
        }
        let mut i: usize = 0;
        while i < 4
            invariant
                sv == strings_view(sides@),
                sides.len() == 4,
                i <= 4,
                forall|j: int| 0 <= j < i ==> (#[trigger] sv[j]).len() != 0,
            decreases 4 - i,
        {
            assert(sv[i as int] == sides@[i as int]@);
            if sides[i].as_str().is_empty() {
                return Err(BoardError::EmptySide);
            }
            i += 1;
        }
        let first_len = sides[0].as_str().len();
        assert(sv[0] == sides@[0]@);
        assert(first_len == byte_len(sv[0]));
        let mut i: usize = 0;
        while i < 4
            invariant
                sv == strings_view(sides@),
                sides.len() == 4,
                i <= 4,
                forall|j: int| 0 <= j < 4 ==> (#[trigger] sv[j]).len() != 0,
                first_len == byte_len(sv[0]),
                first_unequal(sv, 0) == first_unequal(sv, i as int),
            decreases 4 - i,
        {
            assert(sv[i as int] == sides@[i as int]@);
            let len = sides[i].as_str().len();
            assert(len == byte_len(sv[i as int]));
            if len != first_len {
                return Err(
                    BoardError::UnequalSideLengths {
                        side1: side_label(0),
                        len1: first_len,
                        side2: side_label(i),
                        len2: len,
                    },
                );
            }
            i += 1;
        }
        Ok(())
    }

    /// Checks the letters in reading order: each must be a lowercase ASCII
    /// letter seen nowhere before.
    fn validate_sides_content(sides: &Vec<String>) -> (r: Result<(), BoardError>)
        requires
            sides.len() == 4,
        ensures
            match r {
                Ok(()) => content_fault(tagged(strings_view(sides@)), 0) is None,
                Err(e) => content_fault(tagged(strings_view(sides@)), 0) matches Some(f)
                    && e.describes(f),
            },
    {
        let letters = tagged_letters(sides);
        let ghost l = letters@;
        // For each letter, one more than the side where it was first seen; 0 if unseen.
        let mut seen: Vec<usize> = vec![0; 26];
        let mut p: usize = 0;
        while p < letters.len()
            invariant
                l == letters@,
                l == tagged(strings_view(sides@)),
                sides.len() == 4,
                p <= l.len(),
                seen.len() == 26,
                content_fault(l, 0) == content_fault(l, p as int),
                forall|c: char|
                    is_lower(c) ==> #[trigger] seen@[c as int - 97] == if first_index(l, c, p as int)
                        >= 0 {
                        l[first_index(l, c, p as int)].1 + 1
                    } else {
                        0
                    },
                forall|c: char| #[trigger] first_index(l, c, p as int) < p,
            decreases l.len() - p,
        {
            let (c, side) = letters[p];
            proof {
                lemma_tagged_sides(strings_view(sides@), p as int);
            }
            if !('a' <= c && c <= 'z') {
                return Err(BoardError::InvalidCharacter { ch: c, side: side_label(side) });
            }
            let x: usize = (c as u32 - 'a' as u32) as usize;
            assert(seen@[c as int - 97] == seen@[x as int]);
            if seen[x] != 0 {
                let first = seen[x] - 1;
                proof {
                    lemma_tagged_sides(strings_view(sides@), first_index(l, c, p as int));
                }
                let mut location = "on the ".to_owned();
                append_str(&mut location, side_label(first).as_str());
                if first == side {
                    append_str(&mut location, " side");
                } else {
                    append_str(&mut location, " side and the ");
                    append_str(&mut location, side_label(side).as_str());
                    append_str(&mut location, " side");
                }
                return Err(BoardError::DuplicateLetter { letter: c, location });
            }
            seen[x] = side + 1;
            proof {
                assert forall|d: char| #[trigger] first_index(l, d, p + 1) < p + 1 by {
                    assert(first_index(l, d, p as int) < p);
                }
                assert forall|d: char| is_lower(d) implies #[trigger] seen@[d as int - 97]
                    == if first_index(l, d, p + 1) >= 0 {
                    l[first_index(l, d, p + 1)].1 + 1
                } else {
                    0
                } by {
                    if d != c {
                        assert(d as int != c as int);
                    }
                }
            }
            p += 1;
        }
        Ok(())
    }
}


impl Board {
    /// The digraphs that the sides allow, each once.
    fn playable_digraphs(sides: &Vec<String>) -> (r: Vec<String>)
        requires
            content_fault(tagged(strings_view(sides@)), 0) is None,
        ensures
            forall|d: Seq<char>| #[trigger]
                strings_view(r@).contains(d) <==> legal_digraph(tagged(strings_view(sides@)), d),
            strings_view(r@).no_duplicates(),
            r.len() + same_side_pairs(tagged(strings_view(sides@))) == tagged(strings_view(sides@)).len()
                * tagged(strings_view(sides@)).len(),
    {
        let letters = tagged_letters(sides);
        let ghost l = letters@;
        proof {
            lemma_content_ok(l, 0);
        }
        let n = letters.len();
        let mut digraphs: Vec<String> = Vec::new();
        let ghost mut same: int = 0;
        let ghost mut seen: int = 0;
        let mut p: usize = 0;
        while p < n
            invariant
                l == letters@,
                n == l.len(),
                p <= n,
                same == same_side_rows(l, p as int),
                seen == p * n,
                digraphs.len() + same == seen,
                forall|a: int, b: int| 0 <= b < a < l.len() ==> (#[trigger] l[b]).0 != (#[trigger] l[a]).0,
                forall|d: Seq<char>| #[trigger]
                    strings_view(digraphs@).contains(d) <==> legal_before(l, d, p as int, 0),
                strings_view(digraphs@).no_duplicates(),
            decreases n - p,
        {
            let mut q: usize = 0;
            while q < n
                invariant
                    l == letters@,
                    n == l.len(),
                    p < n,
                    q <= n,
                    same == same_side_rows(l, p as int) + same_in_row(l, p as int, q as int),
                    seen == p * n + q,
                    digraphs.len() + same == seen,
                forall|a: int, b: int| 0 <= b < a < l.len() ==> (#[trigger] l[b]).0 != (#[trigger] l[a]).0,
                    forall|d: Seq<char>| #[trigger]
                        strings_view(digraphs@).contains(d) <==> legal_before(l, d, p as int, q as int),
                    strings_view(digraphs@).no_duplicates(),
                decreases n - q,
            {
                let ghost before = strings_view(digraphs@);
                let (c1, s1) = letters[p];
                let (c2, s2) = letters[q];
                proof {
                    seen = seen + 1;
                    if s1 == s2 {
                        same = same + 1;
                    }
                }
                if s1 != s2 {
                    let d = pair_string(c1, c2);
                    if !holds_string(&digraphs, &d) {
                        digraphs.push(d);
                        assert(strings_view(digraphs@) =~= before.push(seq![c1, c2]));
                        assert forall|i: int, j: int|
                            0 <= i < j < strings_view(digraphs@).len() implies strings_view(digraphs@)[i]
                            != strings_view(digraphs@)[j] by {
                            if j == before.len() {
                                assert(before.contains(before[i]));
                            }
                        }
                        assert(strings_view(digraphs@)[before.len() as int] == seq![c1, c2]);
                        assert forall|x: Seq<char>| before.contains(x) implies strings_view(
                            digraphs@,
                        ).contains(x) by {
                            let i = choose|i: int| 0 <= i < before.len() && #[trigger] before[i] == x;
                            assert(strings_view(digraphs@)[i] == x);
                        }
                    }
                    assert(strings_view(digraphs@).contains(seq![c1, c2]));
                    assert(!before.contains(seq![c1, c2])) by {
                        if before.contains(seq![c1, c2]) {
                            let (a, b) = choose|a: int, b: int|
                                0 <= a < l.len() && 0 <= b < l.len() && (a < p || (a == p && b < q))
                                    && (#[trigger] l[a]).1 != (#[trigger] l[b]).1 && seq![c1, c2]
                                    == seq![l[a].0, l[b].0];
                            assert(seq![c1, c2][0] == l[a].0 && seq![c1, c2][1] == l[b].0);
                            assert(a == p);
                            assert(b == q);
                        }
                    }
                    assert(digraphs.len() == before.len() + 1);
                }
                assert(forall|x: Seq<char>| before.contains(x) ==> #[trigger] strings_view(
                    digraphs@,
                ).contains(x));
                assert forall|d: Seq<char>| #[trigger]
                    strings_view(digraphs@).contains(d) <==> legal_before(l, d, p as int, q + 1) by {
                    if legal_before(l, d, p as int, q + 1) {
                        let (a, b) = choose|a: int, b: int|
                            0 <= a < l.len() && 0 <= b < l.len() && (a < p || (a == p && b < q + 1)) && (
                            #[trigger] l[a]).1 != (#[trigger] l[b]).1 && d == seq![l[a].0, l[b].0];
                        if a < p || b < q {
                            assert(legal_before(l, d, p as int, q as int));
                        } else {
                            assert(strings_view(digraphs@).contains(seq![c1, c2]));
                        }
                    }
                    if strings_view(digraphs@).contains(d) && !before.contains(d) {
                        assert(d == seq![c1, c2]);
                        assert(legal_before(l, d, p as int, q + 1));
                    }
                    if before.contains(d) {
                        assert(strings_view(digraphs@).contains(d));
                        let (a, b) = choose|a: int, b: int|
                            0 <= a < l.len() && 0 <= b < l.len() && (a < p || (a == p && b < q)) && (
                            #[trigger] l[a]).1 != (#[trigger] l[b]).1 && d == seq![l[a].0, l[b].0];
                        assert(legal_before(l, d, p as int, q + 1));
                    }
                }
                q += 1;
            }
            assert(seen == (p + 1) * n) by (nonlinear_arith)
                requires
                    seen == p * n + n,
            ;
            assert forall|d: Seq<char>| #[trigger]
                strings_view(digraphs@).contains(d) <==> legal_before(l, d, p + 1, 0) by {
                if legal_before(l, d, p + 1, 0) {
                    let (a, b) = choose|a: int, b: int|
                        0 <= a < l.len() && 0 <= b < l.len() && (a < p + 1 || (a == p + 1 && b < 0)) && (
                        #[trigger] l[a]).1 != (#[trigger] l[b]).1 && d == seq![l[a].0, l[b].0];
                    assert(legal_before(l, d, p as int, n as int));
                }
                if legal_before(l, d, p as int, n as int) {
                    let (a, b) = choose|a: int, b: int|
                        0 <= a < l.len() && 0 <= b < l.len() && (a < p || (a == p && b < n)) && (
                        #[trigger] l[a]).1 != (#[trigger] l[b]).1 && d == seq![l[a].0, l[b].0];
                    assert(legal_before(l, d, p + 1, 0));
                }
            }
            p += 1;
        }
        assert forall|d: Seq<char>| #[trigger]
            strings_view(digraphs@).contains(d) <==> legal_digraph(l, d) by {
            if legal_digraph(l, d) {
                let (a, b) = choose|a: int, b: int|
                    0 <= a < l.len() && 0 <= b < l.len() && (#[trigger] l[a]).1 != (#[trigger] l[b]).1
                        && d == seq![l[a].0, l[b].0];
                assert(legal_before(l, d, n as int, 0));
            }
        }
        digraphs
    }

    /// Builds a board from its four sides (top, right, left, bottom), or
    /// reports the first fault found: the side count, an empty side,
    /// unequal lengths, then the letters in reading order.
    pub fn from_sides(sides: Vec<String>) -> (r: Result<Board, BoardError>)
        ensures
            match r {
                Ok(b) => sides_ok(strings_view(sides@)) && b.sides@ == sides@ && b.wf(),
                Err(e) => first_fault(strings_view(sides@)) matches Some(f) && e.describes(f),
            },
    {
        Self::validate_sides_structure(&sides)?;
        Self::validate_sides_content(&sides)?;
        let digraphs = Self::playable_digraphs(&sides);
        let board = Board { sides, digraphs };
        Ok(board)
    }
}


impl Board {
    /// The dictionary of the words of `dictionary` that this board allows:
    /// a word stays when every one of its digraphs is a digraph of the
    /// board, and goes otherwise. It shares the digraph table and index of
    /// `dictionary`; its `digraphs` are those that its own words use.
    pub fn playable_dictionary(&self, dictionary: &Dictionary) -> (r: Dictionary)
        requires
            dictionary.wf(),
        ensures
            r.wf(),
            r.words@ == self.playable_words(dictionary.words@),
            r.table() == dictionary.table(),
            r.digraph_to_index@ == dictionary.digraph_to_index@,
            forall|d: Seq<char>| #[trigger]
                r.digraph_list().contains(d) <==> exists|i: int, k: int|
                    0 <= i < r.words.len() && 0 <= k < pairs_of(r.words@[i].word@).len() && d
                        == #[trigger] digraph_seq(pairs_of(r.words@[i].word@)[k]),
            r.digraph_list().no_duplicates(),
    {
        let ghost table = dictionary.table();
        // Which table entries are digraphs of this board.
        let mut usable: Vec<bool> = Vec::new();
        let mut i: usize = 0;
        while i < dictionary.digraph_strings.len()
            invariant
                table == dictionary.table(),
                i <= dictionary.digraph_strings.len(),
                usable.len() == i,
                forall|j: int| 0 <= j < i ==> usable@[j] == self.digraph_list().contains(
                    #[trigger] table[j],
                ),
            decreases dictionary.digraph_strings.len() - i,
        {
            let u = holds_string(&self.digraphs, &dictionary.digraph_strings[i]);
            usable.push(u);
            i += 1;
        }

        // The words whose digraphs are all usable.
        let mut words: Vec<Arc<Word>> = Vec::new();
        let mut w: usize = 0;
        while w < dictionary.words.len()
            invariant
                table == dictionary.table(),
                dictionary.wf(),
                usable.len() == table.len(),
                forall|j: int| 0 <= j < table.len() ==> usable@[j] == self.digraph_list().contains(
                    #[trigger] table[j],
                ),
                w <= dictionary.words.len(),
                words@ == self.playable_words(dictionary.words@.take(w as int)),
                forall|j: int| 0 <= j < words.len() ==> refs_table(#[trigger] *words@[j], table),
            decreases dictionary.words.len() - w,
        {
            let word = &dictionary.words[w];
            assert(refs_table(**word, table));
            let ghost ps = pairs_of(word.word@);
            let mut ok = true;
            let mut k: usize = 0;
            while k < word.digraph_indices.len()
                invariant
                    table == dictionary.table(),
                    refs_table(**word, table),
                    ps == pairs_of(word.word@),
                    usable.len() == table.len(),
                    forall|j: int| 0 <= j < table.len() ==> usable@[j] == self.digraph_list().contains(
                        #[trigger] table[j],
                    ),
                    k <= word.digraph_indices.len(),
                    ok == forall|m: int| 0 <= m < k ==> self.digraph_list().contains(
                        #[trigger] digraph_seq(ps[m]),
                    ),
                decreases word.digraph_indices.len() - k,
            {
                let idx = word.digraph_indices[k];
                assert(table[idx as int] == digraph_seq(ps[k as int]));
                ok = ok && usable[idx];
                k += 1;
            }
            proof {
                reveal(Seq::filter);
                assert(dictionary.words@.take(w + 1).drop_last() =~= dictionary.words@.take(w as int));
            }
            if ok {
                words.push(word.clone());
            }
            w += 1;
        }
        assert(dictionary.words@.take(w as int) =~= dictionary.words@);

        // Which table entries the kept words use.
        let mut used: Vec<bool> = vec![false; dictionary.digraph_strings.len()];
        let mut i: usize = 0;
        while i < words.len()
            invariant
                table == dictionary.table(),
                used.len() == table.len(),
                i <= words.len(),
                forall|j: int| 0 <= j < words.len() ==> refs_table(#[trigger] *words@[j], table),
                forall|j: int|
                    0 <= j < table.len() ==> (#[trigger] used@[j] <==> exists|a: int, m: int|
                        0 <= a < i && 0 <= m < words@[a].digraph_indices.len()
                            && #[trigger] words@[a].digraph_indices@[m] == j),
            decreases words.len() - i,
        {
            let word = &words[i];
            assert(refs_table(**word, table));
            let mut k: usize = 0;
            while k < word.digraph_indices.len()
                invariant
                    table == dictionary.table(),
                    used.len() == table.len(),
                    i < words.len(),
                    word == words@[i as int],
                    refs_table(**word, table),
                    k <= word.digraph_indices.len(),
                    forall|j: int|
                        0 <= j < table.len() ==> (#[trigger] used@[j] <==> (exists|a: int, m: int|
                            0 <= a < i && 0 <= m < words@[a].digraph_indices.len()
                                && #[trigger] words@[a].digraph_indices@[m] == j) || exists|m: int|
                            0 <= m < k && #[trigger] word.digraph_indices@[m] == j),
                decreases word.digraph_indices.len() - k,
            {
                let idx = word.digraph_indices[k];
                assert(idx < table.len());
                used[idx] = true;
                k += 1;
            }
            assert forall|j: int|
                0 <= j < table.len() implies (#[trigger] used@[j] <==> exists|a: int, m: int|
                    0 <= a < i + 1 && 0 <= m < words@[a].digraph_indices.len()
                        && #[trigger] words@[a].digraph_indices@[m] == j) by {
                if exists|m: int| 0 <= m < k && #[trigger] word.digraph_indices@[m] == j {
                    let m = choose|m: int| 0 <= m < k && #[trigger] word.digraph_indices@[m] == j;
                    assert(words@[i as int].digraph_indices@[m] == j);
                }
                if exists|a: int, m: int|
                    0 <= a < i + 1 && 0 <= m < words@[a].digraph_indices.len()
                        && #[trigger] words@[a].digraph_indices@[m] == j {
                    let (a, m) = choose|a: int, m: int|
                        0 <= a < i + 1 && 0 <= m < words@[a].digraph_indices.len()
                            && #[trigger] words@[a].digraph_indices@[m] == j;
                    if a == i {
                        assert(word.digraph_indices@[m] == j);
                    }
                }
            }
            i += 1;
        }

        // The used entries, in table order.
        let mut digraphs: Vec<String> = Vec::new();
        let ghost mut picked: Seq<int> = seq![];
        let mut j: usize = 0;
        while j < dictionary.digraph_strings.len()
            invariant
                table == dictionary.table(),
                table_sorted(table),
                used.len() == table.len(),
                j <= table.len(),
                forall|d: Seq<char>| #[trigger]
                    strings_view(digraphs@).contains(d) <==> exists|x: int|
                        0 <= x < j && used@[x] && #[trigger] table[x] == d,
                picked.len() == digraphs.len(),
                forall|y: int|
                    0 <= y < digraphs.len() ==> 0 <= #[trigger] picked[y] < j && table[picked[y]]
                        == strings_view(digraphs@)[y],
                strings_view(digraphs@).no_duplicates(),
            decreases table.len() - j,
        {
            let ghost before = strings_view(digraphs@);
            if used[j] {
                let copy = dictionary.digraph_strings[j].clone();
                digraphs.push(copy);
                assert(strings_view(digraphs@) =~= before.push(table[j as int]));
                assert forall|a: int, b: int|
                    0 <= a < b < strings_view(digraphs@).len() implies strings_view(digraphs@)[a]
                    != strings_view(digraphs@)[b] by {
                    if b == before.len() {
                        assert(digraph_code(table[picked[a]]) < digraph_code(table[j as int]));
                    }
                }
                proof {
                    picked = picked.push(j as int);
                }
            }
            assert forall|d: Seq<char>| #[trigger]
                strings_view(digraphs@).contains(d) <==> exists|x: int|
                    0 <= x < j + 1 && used@[x] && #[trigger] table[x] == d by {
                if strings_view(digraphs@).contains(d) && !before.contains(d) {
                    assert(d == table[j as int]);
                }
                if before.contains(d) {
                    let y = choose|y: int| 0 <= y < before.len() && #[trigger] before[y] == d;
                    assert(strings_view(digraphs@)[y] == d);
                }
                if used@[j as int] {
                    assert(strings_view(digraphs@)[before.len() as int] == table[j as int]);
                }
            }
            j += 1;
        }

        let digraph_strings = dictionary.digraph_strings.clone();
        assert(digraph_strings@ =~= dictionary.digraph_strings@);
        let digraph_to_index = dictionary.digraph_to_index.clone();
        let r = Dictionary { words, digraphs, digraph_strings, digraph_to_index };
        proof {
            assert forall|d: Seq<char>| #[trigger]
                r.digraph_list().contains(d) <==> exists|i: int, k: int|
                    0 <= i < r.words.len() && 0 <= k < pairs_of(r.words@[i].word@).len() && d
                        == #[trigger] digraph_seq(pairs_of(r.words@[i].word@)[k]) by {
                if r.digraph_list().contains(d) {
                    let x = choose|x: int| 0 <= x < table.len() && used@[x] && #[trigger] table[x] == d;
                    let (a, m) = choose|a: int, m: int|
                        0 <= a < r.words.len() && 0 <= m < r.words@[a].digraph_indices.len()
                            && #[trigger] r.words@[a].digraph_indices@[m] == x;
                    assert(refs_table(*r.words@[a], table));
                    assert(table[r.words@[a].digraph_indices@[m] as int] == digraph_seq(
                        pairs_of(r.words@[a].word@)[m],
                    ));
                }
                if exists|i: int, k: int|
                    0 <= i < r.words.len() && 0 <= k < pairs_of(r.words@[i].word@).len() && d
                        == #[trigger] digraph_seq(pairs_of(r.words@[i].word@)[k]) {
                    let (a, m) = choose|a: int, m: int|
                        0 <= a < r.words.len() && 0 <= m < pairs_of(r.words@[a].word@).len() && d
                            == #[trigger] digraph_seq(pairs_of(r.words@[a].word@)[m]);
                    assert(refs_table(*r.words@[a], table));
                    let x = r.words@[a].digraph_indices@[m] as int;
                    assert(used@[x]);
                    assert(table[x] == d);
                }
            }
        }
        r
    }
}


proof fn lemma_first_index_absent(l: Seq<(char, usize)>, c: char, n: int)
    requires
        first_index(l, c, n) < 0,
        n <= l.len(),
    ensures
        forall|j: int| 0 <= j < n ==> (#[trigger] l[j]).0 != c,
    decreases n,
{
    if n > 0 {
        lemma_first_index_absent(l, c, n - 1);
    }
}

proof fn lemma_content_ok(l: Seq<(char, usize)>, p: int)
    requires
        0 <= p,
        content_fault(l, p) is None,
    ensures
        forall|q: int| p <= q < l.len() ==> is_lower((#[trigger] l[q]).0),
        forall|q: int, j: int| p <= q < l.len() && 0 <= j < q ==> (#[trigger] l[j]).0 != (#[trigger] l[q]).0,
    decreases l.len() - p,
{
    if p < l.len() {
        lemma_content_ok(l, p + 1);
        lemma_first_index_absent(l, l[p].0, p);
    }
}

/// The letters of a valid board are lowercase ASCII letters, no two alike,
/// so there are at most 26 of them.
pub proof fn lemma_board_letters(b: &Board)
    requires
        b.wf(),
    ensures
        forall|q: int| 0 <= q < b.letters().len() ==> is_lower((#[trigger] b.letters()[q]).0),
        forall|q: int, j: int|
            0 <= j < q < b.letters().len() ==> (#[trigger] b.letters()[j]).0 != (
            #[trigger] b.letters()[q]).0,
        b.letters().len() <= 26,
{
    let l = b.letters();
    lemma_content_ok(l, 0);
    let s = l.map_values(|t: (char, usize)| t.0 as int);
    assert(s.no_duplicates()) by {
        assert forall|i: int, j: int| 0 <= i < s.len() && 0 <= j < s.len() && i != j implies s[i]
            != s[j] by {
            if i < j {
                assert(l[i].0 != l[j].0);
            } else {
                assert(l[j].0 != l[i].0);
            }
        }
    }
    s.unique_seq_to_set();
    vstd::set_lib::lemma_int_range(97, 123);
    assert(s.to_set().subset_of(vstd::set_lib::set_int_range(97, 123))) by {
        assert forall|x: int| s.to_set().contains(x) implies vstd::set_lib::set_int_range(97, 123).contains(x) by {
            let i = choose|i: int| 0 <= i < s.len() && s[i] == x;
            assert(is_lower(l[i].0));
        }
    }
    vstd::set_lib::lemma_len_subset(s.to_set(), vstd::set_lib::set_int_range(97, 123));
}


proof fn lemma_filter_all(s: Seq<Arc<Word>>, f: spec_fn(Arc<Word>) -> bool)
    requires
        forall|i: int| 0 <= i < s.len() ==> f(#[trigger] s[i]),
    ensures
        s.filter(f) == s,
    decreases s.len(),
{
    reveal(Seq::filter);
    if s.len() > 0 {
        lemma_filter_all(s.drop_last(), f);
        assert(s.drop_last().push(s.last()) =~= s);
    } else {
        assert(s.filter(f) =~= s);
    }
}

impl Board {
    /// Filtering words that the board already filtered keeps them all.
    pub proof fn lemma_playable_idempotent(&self, ws: Seq<Arc<Word>>)
        ensures
            self.playable_words(self.playable_words(ws)) == self.playable_words(ws),
    {
        let f = |w: Arc<Word>| self.allows(w.word@);
        let once = ws.filter(f);
        assert forall|i: int| 0 <= i < once.len() implies f(#[trigger] once[i]) by {
            ws.lemma_filter_pred(f, i);
        }
        lemma_filter_all(once, f);
    }

    /// On a valid board a word is kept exactly when each of its consecutive
    /// letter pairs is a board digraph: a letter followed by a letter of
    /// another side.
    pub proof fn lemma_kept_iff_all_pairs_legal(&self, ws: Seq<Arc<Word>>)
        requires
            self.wf(),
        ensures
            forall|w: Arc<Word>| #[trigger]
                self.playable_words(ws).contains(w) <==> ws.contains(w) && forall|k: int|
                    0 <= k < pairs_of(w.word@).len() ==> legal_digraph(
                        self.letters(),
                        #[trigger] digraph_seq(pairs_of(w.word@)[k]),
                    ),
    {
        let f = |w: Arc<Word>| self.allows(w.word@);
        assert forall|w: Arc<Word>| #[trigger] self.playable_words(ws).contains(w) implies ws.contains(w)
            && self.allows(w.word@) by {
            ws.lemma_filter_contains_rev(f, w);
            let i = choose|i: int| 0 <= i < ws.filter(f).len() && ws.filter(f)[i] == w;
            ws.lemma_filter_pred(f, i);
        }
        assert forall|w: Arc<Word>| ws.contains(w) && self.allows(w.word@) implies #[trigger] self.playable_words(
            ws,
        ).contains(w) by {
            let i = choose|i: int| 0 <= i < ws.len() && ws[i] == w;
            ws.lemma_filter_contains(f, i);
        }
    }
}

} // verus!
