//! Board specifications typed as one line (`abc,def,ghi,jkl`), and the
//! listing of digraphs in a stable order.

use vstd::prelude::*;
use crate::text::{append_str, chars_of, push_char, split_chars, split_on, strings_view};

verus! {

/// Whether `c` may appear in a board specification: an ASCII letter or a comma.
pub open spec fn allowed_in_spec(c: char) -> bool {
    ('a' <= c && c <= 'z') || ('A' <= c && c <= 'Z') || c == ','
}

/// The position of the first character below `n` that is not allowed, or -1.
pub open spec fn first_disallowed(s: Seq<char>, n: int) -> int
    decreases n,
{
    if n <= 0 {
        -1
    } else {
        let f = first_disallowed(s, n - 1);
        if f >= 0 {
            f
        } else if !allowed_in_spec(s[n - 1]) {
            n - 1
        } else {
            -1
        }
    }
}

/// `r` is `s` with ASCII capitals made lowercase.
pub open spec fn ascii_lowered(s: Seq<char>, r: Seq<char>) -> bool {
    &&& r.len() == s.len()
    &&& forall|i: int|
        0 <= i < s.len() ==> (#[trigger] r[i]) as int == if 'A' <= s[i] && s[i] <= 'Z' {
            s[i] as int + 32
        } else {
            s[i] as int
        }
}

/// `c` in ASCII lowercase: 'A' to 'Z' become 'a' to 'z', and every other
/// character stays.
fn ascii_lower(c: char) -> (r: char)
    ensures
        ('A' <= c && c <= 'Z') ==> r as int == c as int + 32,
        !('A' <= c && c <= 'Z') ==> r == c,
{
    if 'A' <= c && c <= 'Z' {
        ((c as u8) + 32) as char
    } else {
        c
    }
}

/// The sides of a specification `abc,def,ghi,jkl`: the pieces between
/// commas, in lowercase. Any character but an ASCII letter or a comma is
/// an error, which names the first such character.
pub fn validate_board_spec(board_spec: &str) -> (r: Result<Vec<String>, String>)
    ensures
        match r {
            Ok(sides) => {
                let pieces = split_on(board_spec@, ',');
                &&& first_disallowed(board_spec@, board_spec@.len() as int) < 0
                &&& sides.len() == pieces.len()
                &&& forall|i: int|
                    0 <= i < pieces.len() ==> ascii_lowered(pieces[i], #[trigger] sides@[i]@)
            },
            Err(m) => {
                let b = first_disallowed(board_spec@, board_spec@.len() as int);
                &&& b >= 0
                &&& m@ == "Invalid character '"@ + seq![board_spec@[b]]
                    + "' in game specification. Only A-Z, a-z, and commas are allowed."@
            },
        },
{
    let cs = chars_of(board_spec);
    let mut i: usize = 0;
    while i < cs.len()
        invariant
            cs@ == board_spec@,
            i <= cs.len(),
            first_disallowed(cs@, i as int) < 0,
        decreases cs.len() - i,
    {
        let ch = cs[i];
        if !(('a' <= ch && ch <= 'z') || ('A' <= ch && ch <= 'Z') || ch == ',') {
            proof {
                lemma_first_disallowed_stable(cs@, i + 1, cs.len() as int);
            }
            let mut m = "Invalid character '".to_owned();
            push_char(&mut m, ch);
            append_str(&mut m, "' in game specification. Only A-Z, a-z, and commas are allowed.");
            return Err(m);
        }
        i += 1;
    }
    let pieces = split_chars(&cs, ',');
    let ghost ps = pieces@.map_values(|p: Vec<char>| p@);
    let mut sides: Vec<String> = Vec::new();
    let mut k: usize = 0;
    while k < pieces.len()
        invariant
            ps == pieces@.map_values(|p: Vec<char>| p@),
            k <= pieces.len(),
            sides.len() == k,
            forall|j: int| 0 <= j < k ==> ascii_lowered(ps[j], #[trigger] sides@[j]@),
        decreases pieces.len() - k,
    {
        let piece = &pieces[k];
        assert(ps[k as int] == piece@);
        let mut side = String::new();
        let mut t: usize = 0;
        while t < piece.len()
            invariant
                t <= piece.len(),
                side@.len() == t,
                forall|u: int|
                    0 <= u < t ==> (#[trigger] side@[u]) as int == if 'A' <= piece@[u] && piece@[u]
                        <= 'Z' {
                        piece@[u] as int + 32
                    } else {
                        piece@[u] as int
                    },
            decreases piece.len() - t,
        {
            let c = ascii_lower(piece[t]);
            push_char(&mut side, c);
            t += 1;
        }
        sides.push(side);
        k += 1;
    }
    Ok(sides)
}

proof fn lemma_first_disallowed_stable(s: Seq<char>, m: int, n: int)
    requires
        0 <= m <= n,
        first_disallowed(s, m) >= 0,
    ensures
        first_disallowed(s, n) == first_disallowed(s, m),
    decreases n - m,
{
    if n > m {
        lemma_first_disallowed_stable(s, m, n - 1);
    }
}

/// `a` comes before `b`, or equals it, in dictionary order of characters.
pub open spec fn lex_le(a: Seq<char>, b: Seq<char>) -> bool
    decreases a.len(),
{
    if a.len() == 0 {
        true
    } else if b.len() == 0 {
        false
    } else if a[0] != b[0] {
        a[0] < b[0]
    } else {
        lex_le(a.drop_first(), b.drop_first())
    }
}

proof fn lemma_lex_total(a: Seq<char>, b: Seq<char>)
    ensures
        lex_le(a, b) || lex_le(b, a),
    decreases a.len(),
{
    if a.len() > 0 && b.len() > 0 && a[0] == b[0] {
        lemma_lex_total(a.drop_first(), b.drop_first());
    }
}

proof fn lemma_lex_trans(a: Seq<char>, b: Seq<char>, c: Seq<char>)
    requires
        lex_le(a, b),
        lex_le(b, c),
    ensures
        lex_le(a, c),
    decreases a.len(),
{
    if a.len() > 0 && b.len() > 0 && c.len() > 0 && a[0] == b[0] && b[0] == c[0] {
        lemma_lex_trans(a.drop_first(), b.drop_first(), c.drop_first());
    }
}

/// Strings in dictionary order.
pub open spec fn lex_sorted(s: Seq<Seq<char>>) -> bool {
    forall|i: int, j: int| 0 <= i < j < s.len() ==> lex_le(#[trigger] s[i], #[trigger] s[j])
}

/// Whether `a` comes before `b`, or equals it, in dictionary order.
fn lex_le_chars(a: &Vec<char>, b: &Vec<char>) -> (r: bool)
    ensures
        r == lex_le(a@, b@),
{
    let mut i: usize = 0;
    assert(a@.skip(0) =~= a@ && b@.skip(0) =~= b@);
    while i < a.len() && i < b.len() && a[i] == b[i]
        invariant
            i <= a.len(),
            i <= b.len(),
            lex_le(a@, b@) == lex_le(a@.skip(i as int), b@.skip(i as int)),
        decreases a.len() - i,
    {
        assert(a@.skip(i as int).drop_first() =~= a@.skip(i + 1));
        assert(b@.skip(i as int).drop_first() =~= b@.skip(i + 1));
        i += 1;
    }
    if i == a.len() {
        true
    } else if i == b.len() {
        false
    } else {
        a[i] < b[i]
    }
}

/// The strings joined by single spaces.
pub open spec fn joined_by_spaces(s: Seq<Seq<char>>) -> Seq<char>
    decreases s.len(),
{
    if s.len() == 0 {
        seq![]
    } else if s.len() == 1 {
        s[0]
    } else {
        joined_by_spaces(s.drop_last()) + seq![' '] + s.last()
    }
}

/// The digraphs in dictionary order, separated by spaces.
pub fn format_valid_digraphs(digraphs: &Vec<String>) -> (r: String)
    ensures
        exists|sorted: Seq<Seq<char>>|
            sorted.to_multiset() == strings_view(digraphs@).to_multiset() && lex_sorted(sorted) && r@
                == joined_by_spaces(sorted),
{
    let ghost input = strings_view(digraphs@);
    let mut sorted: Vec<Vec<char>> = Vec::new();
    let mut i: usize = 0;
    proof {
        assert(sorted@.map_values(|v: Vec<char>| v@) =~= seq![]);
        assert(input.take(0) =~= seq![]);
        broadcast use vstd::seq_lib::group_to_multiset_ensures;
    }
    while i < digraphs.len()
        invariant
            input == strings_view(digraphs@),
            i <= digraphs.len(),
            sorted@.map_values(|v: Vec<char>| v@).to_multiset() == input.take(i as int).to_multiset(),
            lex_sorted(sorted@.map_values(|v: Vec<char>| v@)),
        decreases digraphs.len() - i,
    {
        let x = chars_of(digraphs[i].as_str());
        let ghost sv = sorted@.map_values(|v: Vec<char>| v@);
        let mut pos: usize = 0;
        while pos < sorted.len() && lex_le_chars(&sorted[pos], &x)
            invariant
                sv == sorted@.map_values(|v: Vec<char>| v@),
                pos <= sorted.len(),
                forall|k: int| 0 <= k < pos ==> lex_le(#[trigger] sv[k], x@),
            decreases sorted.len() - pos,
        {
            pos += 1;
        }
        proof {
            if pos < sorted.len() {
                assert(!lex_le(sv[pos as int], x@));
                lemma_lex_total(sv[pos as int], x@);
            }
        }
        sorted.insert(pos, x);
        proof {
            let nv = sorted@.map_values(|v: Vec<char>| v@);
            assert(nv =~= sv.insert(pos as int, x@));
            vstd::seq_lib::to_multiset_insert(sv, pos as int, x@);
            assert(input.take(i + 1) =~= input.take(i as int).push(input[i as int]));
            vstd::seq_lib::to_multiset_build(input.take(i as int), input[i as int]);
            assert(input[i as int] == x@);
            assert forall|a: int, b: int| 0 <= a < b < nv.len() implies lex_le(
                #[trigger] nv[a],
                #[trigger] nv[b],
            ) by {
                if b < pos {
                    assert(nv[a] == sv[a] && nv[b] == sv[b]);
                } else if b == pos {
                    assert(nv[a] == sv[a]);
                } else if a == pos {
                    assert(nv[b] == sv[b - 1]);
                    if b - 1 > pos {
                        lemma_lex_trans(x@, sv[pos as int], sv[b - 1]);
                    }
                } else if a < pos {
                    assert(nv[a] == sv[a] && nv[b] == sv[b - 1]);
                } else {
                    assert(nv[a] == sv[a - 1] && nv[b] == sv[b - 1]);
                }
            }
        }
        i += 1;
    }
    assert(input.take(i as int) =~= input);
    let ghost sv = sorted@.map_values(|v: Vec<char>| v@);
    let mut r = String::new();
    let mut k: usize = 0;
    while k < sorted.len()
        invariant
            sv == sorted@.map_values(|v: Vec<char>| v@),
            k <= sorted.len(),
            r@ == joined_by_spaces(sv.take(k as int)),
        decreases sorted.len() - k,
    {
        assert(sv.take(k + 1).drop_last() =~= sv.take(k as int));
        if k > 0 {
            push_char(&mut r, ' ');
        } else {
            assert(r@ =~= seq![]);
        }
        let piece = &sorted[k];
        let mut t: usize = 0;
        let ghost start = r@;
        while t < piece.len()
            invariant
                t <= piece.len(),
                r@ == start + piece@.take(t as int),
            decreases piece.len() - t,
        {
            push_char(&mut r, piece[t]);
            assert(start + piece@.take(t + 1) =~= (start + piece@.take(t as int)).push(piece@[t as int]));
            t += 1;
        }
        assert(piece@.take(t as int) =~= piece@);
        assert(sv[k as int] == piece@);
        if k == 0 {
            assert(r@ =~= sv.take(1)[0]);
        }
        k += 1;
    }
    assert(sv.take(k as int) =~= sv);
    r
}

} // verus!
