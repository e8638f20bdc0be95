//! Character-level helpers shared by the board, the dictionary and the solver.

use vstd::prelude::*;

verus! {

/// The characters of `s`, in order.
pub fn chars_of(s: &str) -> (r: Vec<char>)
    ensures
        r@ == s@,
{
    let mut v: Vec<char> = Vec::new();
    for c in it: s.chars()
        invariant
            v@ == it.seq().take(it.index() as int),
    {
        v.push(c);
    }
    v
}

/// Relies on `String::push`: the character is appended at the end.
#[verifier::external_body]
pub(crate) fn push_char(s: &mut String, c: char)
    ensures
        final(s)@ == old(s)@.push(c),
{
    s.push(c);
}

/// A fresh string holding the two characters `a` then `b`.
pub fn pair_string(a: char, b: char) -> (r: String)
    ensures
        r@ == seq![a, b],
{
    let mut s = String::new();
    push_char(&mut s, a);
    push_char(&mut s, b);
    assert(s@ =~= seq![a, b]);
    s
}

/// The sequences that a list of strings holds.
pub open spec fn strings_view(v: Seq<String>) -> Seq<Seq<char>> {
    v.map_values(|s: String| s@)
}

/// The first character of a sequence, if it has one.
pub open spec fn first_char(w: Seq<char>) -> Option<char> {
    if w.len() == 0 {
        None
    } else {
        Some(w[0])
    }
}

/// The last character of a sequence, if it has one.
pub open spec fn last_char(w: Seq<char>) -> Option<char> {
    if w.len() == 0 {
        None
    } else {
        Some(w.last())
    }
}

/// The first character of `s`, if any.
pub fn first_char_of(s: &Vec<char>) -> (r: Option<char>)
    ensures
        r == first_char(s@),
{
    if s.len() == 0 {
        None
    } else {
        Some(s[0])
    }
}

/// The last character of `s`, if any.
pub fn last_char_of(s: &Vec<char>) -> (r: Option<char>)
    ensures
        r == last_char(s@),
{
    if s.len() == 0 {
        None
    } else {
        Some(s[s.len() - 1])
    }
}


/// A fresh string holding the characters of `cs`.
pub fn string_of(cs: &Vec<char>) -> (r: String)
    ensures
        r@ == cs@,
{
    let mut s = String::new();
    let mut i: usize = 0;
    while i < cs.len()
        invariant
            i <= cs.len(),
            s@ == cs@.take(i as int),
        decreases cs.len() - i,
    {
        push_char(&mut s, cs[i]);
        assert(cs@.take(i + 1) =~= cs@.take(i as int).push(cs@[i as int]));
        i += 1;
    }
    assert(cs@.take(i as int) =~= cs@);
    s
}

/// The Unicode White_Space property, as `char::is_whitespace` tests it:
/// U+0009 to U+000D, U+0020, U+0085, U+00A0, U+1680, U+2000 to U+200A,
/// U+2028, U+2029, U+202F, U+205F and U+3000.
pub open spec fn white_space(c: char) -> bool {
    let u = c as u32;
    (0x9 <= u && u <= 0xD) || u == 0x20 || u == 0x85 || u == 0xA0 || u == 0x1680 || (0x2000 <= u
        && u <= 0x200A) || u == 0x2028 || u == 0x2029 || u == 0x202F || u == 0x205F || u == 0x3000
}

/// Whether `c` is white space.
pub fn is_white(c: char) -> (r: bool)
    ensures
        r == white_space(c),
{
    let u = c as u32;
    (0x9 <= u && u <= 0xD) || u == 0x20 || u == 0x85 || u == 0xA0 || u == 0x1680 || (0x2000 <= u
        && u <= 0x200A) || u == 0x2028 || u == 0x2029 || u == 0x202F || u == 0x205F || u == 0x3000
}

/// The maximal runs of non-white characters of `s`, in order.
pub open spec fn tokens(s: Seq<char>) -> Seq<Seq<char>>
    decreases s.len(),
{
    if s.len() == 0 {
        seq![]
    } else {
        let init = tokens(s.drop_last());
        let c = s.last();
        if white_space(c) {
            init
        } else if s.len() == 1 || white_space(s[s.len() - 2]) {
            init.push(seq![c])
        } else {
            init.update(init.len() - 1, init.last().push(c))
        }
    }
}

proof fn lemma_tokens_nonempty(s: Seq<char>)
    requires
        s.len() > 0,
        !white_space(s.last()),
    ensures
        tokens(s).len() > 0,
    decreases s.len(),
{
    if !(s.len() == 1 || white_space(s[s.len() - 2])) {
        let t = s.drop_last();
        assert(t.last() == s[s.len() - 2]);
        lemma_tokens_nonempty(t);
    }
}

/// The whitespace-separated tokens of `cs`.
pub fn split_tokens(cs: &Vec<char>) -> (r: Vec<Vec<char>>)
    ensures
        r@.map_values(|t: Vec<char>| t@) == tokens(cs@),
{
    let mut toks: Vec<Vec<char>> = Vec::new();
    let mut i: usize = 0;
    while i < cs.len()
        invariant
            i <= cs.len(),
            toks@.map_values(|t: Vec<char>| t@) == tokens(cs@.take(i as int)),
        decreases cs.len() - i,
    {
        let c = cs[i];
        let ghost pre = cs@.take(i as int);
        let ghost next = cs@.take(i + 1);
        assert(next.drop_last() =~= pre);
        let ghost before = toks@.map_values(|t: Vec<char>| t@);
        if is_white(c) {
        } else if i == 0 || is_white(cs[i - 1]) {
            let mut t: Vec<char> = Vec::new();
            t.push(c);
            toks.push(t);
            assert(toks@.map_values(|t: Vec<char>| t@) =~= before.push(seq![c]));
        } else {
            proof {
                assert(pre.last() == cs@[i - 1]);
                lemma_tokens_nonempty(pre);
            }
            let mut t = toks.pop().unwrap();
            t.push(c);
            toks.push(t);
            assert(toks@.map_values(|t: Vec<char>| t@) =~= before.update(
                before.len() - 1,
                before.last().push(c),
            ));
        }
        i += 1;
    }
    assert(cs@.take(i as int) =~= cs@);
    toks
}

/// The text split at each `sep`; the piece after the last one is kept,
/// empty or not.
pub open spec fn split_on(t: Seq<char>, sep: char) -> Seq<Seq<char>>
    decreases t.len(),
{
    if t.len() == 0 {
        seq![seq![]]
    } else {
        let init = split_on(t.drop_last(), sep);
        if t.last() == sep {
            init.push(seq![])
        } else {
            init.update(init.len() - 1, init.last().push(t.last()))
        }
    }
}

/// The pieces of `cs` between occurrences of `sep`.
pub fn split_chars(cs: &Vec<char>, sep: char) -> (r: Vec<Vec<char>>)
    ensures
        r@.map_values(|p: Vec<char>| p@) == split_on(cs@, sep),
{
    let mut pieces: Vec<Vec<char>> = Vec::new();
    let mut piece: Vec<char> = Vec::new();
    let mut i: usize = 0;
    while i < cs.len()
        invariant
            i <= cs.len(),
            split_on(cs@.take(i as int), sep) == pieces@.map_values(|p: Vec<char>| p@).push(piece@),
        decreases cs.len() - i,
    {
        let c = cs[i];
        assert(cs@.take(i + 1).drop_last() =~= cs@.take(i as int));
        let ghost done = pieces@.map_values(|p: Vec<char>| p@);
        if c == sep {
            let ghost last = piece@;
            pieces.push(piece);
            piece = Vec::new();
            assert(pieces@.map_values(|p: Vec<char>| p@) =~= done.push(last));
            assert(piece@ =~= seq![]);
        } else {
            let ghost before = piece@;
            piece.push(c);
            assert(done.push(piece@) =~= done.push(before).update(
                done.len() as int,
                done.push(before).last().push(c),
            ));
        }
        i += 1;
    }
    assert(cs@.take(i as int) =~= cs@);
    let ghost done = pieces@.map_values(|p: Vec<char>| p@);
    let ghost last = piece@;
    pieces.push(piece);
    assert(pieces@.map_values(|p: Vec<char>| p@) =~= done.push(last));
    pieces
}

/// Whether `c` is an ASCII decimal digit.
pub open spec fn is_digit(c: char) -> bool {
    '0' <= c && c <= '9'
}

/// The number that a string of decimal digits writes.
pub open spec fn digits_value(s: Seq<char>) -> int
    decreases s.len(),
{
    if s.len() == 0 {
        0
    } else {
        digits_value(s.drop_last()) * 10 + (s.last() as int - '0' as int)
    }
}

/// Whether every character of `s` is a decimal digit.
pub open spec fn all_digits(s: Seq<char>) -> bool {
    forall|i: int| 0 <= i < s.len() ==> is_digit(#[trigger] s[i])
}

/// `s` without its leading sign, if it has one.
pub open spec fn unsigned_part(s: Seq<char>) -> Seq<char> {
    if s.len() > 0 && (s[0] == '-' || s[0] == '+') {
        s.drop_first()
    } else {
        s
    }
}

/// The `i8` that `s` writes in decimal, with an optional sign, if it fits:
/// what `str::parse::<i8>` accepts.
pub open spec fn parse_i8(s: Seq<char>) -> Option<i8> {
    let body = unsigned_part(s);
    let v = if s.len() > 0 && s[0] == '-' {
        -digits_value(body)
    } else {
        digits_value(body)
    };
    if body.len() == 0 || !all_digits(body) {
        None
    } else if -128 <= v <= 127 {
        Some(v as i8)
    } else {
        None
    }
}

proof fn lemma_digits_value_grows(s: Seq<char>, c: char)
    requires
        is_digit(c),
        forall|i: int| 0 <= i < s.len() ==> is_digit(#[trigger] s[i]),
    ensures
        digits_value(s) >= 0,
        digits_value(s.push(c)) >= digits_value(s),
        digits_value(s.push(c)) == digits_value(s) * 10 + (c as int - '0' as int),
    decreases s.len(),
{
    assert(s.push(c).drop_last() =~= s);
    if s.len() > 0 {
        let t = s.drop_last();
        assert(s =~= t.push(s.last()));
        lemma_digits_value_grows(t, s.last());
    }
}

/// Reads a decimal `i8` with an optional sign.
pub fn parse_i8_chars(s: &Vec<char>) -> (r: Option<i8>)
    ensures
        r == parse_i8(s@),
{
    let neg = s.len() > 0 && s[0] == '-';
    let start: usize = if s.len() > 0 && (s[0] == '-' || s[0] == '+') {
        1
    } else {
        0
    };
    let ghost body = unsigned_part(s@);
    if start >= s.len() {
        assert(body.len() == 0);
        return None;
    }
    // The value read so far, held at 129 once it is larger than any i8 magnitude.
    let mut acc: u32 = 0;
    let mut i: usize = start;
    while i < s.len()
        invariant
            start <= i <= s.len(),
            body =~= s@.subrange(start as int, s.len() as int),
            body == unsigned_part(s@),
            neg == (s@.len() > 0 && s@[0] == '-'),
            forall|j: int| 0 <= j < i - start ==> is_digit(#[trigger] body[j]),
            acc as int == if digits_value(body.take(i - start)) > 129 {
                129
            } else {
                digits_value(body.take(i - start))
            },
        decreases s.len() - i,
    {
        let c = s[i];
        if !('0' <= c && c <= '9') {
            assert(!is_digit(body[i - start]));
            assert(!all_digits(body));
            return None;
        }
        let ghost pre = body.take(i - start);
        proof {
            assert(body.take(i - start + 1) =~= pre.push(c));
            lemma_digits_value_grows(pre, c);
        }
        let d = (c as u32) - ('0' as u32);
        if acc >= 129 {
            acc = 129;
        } else {
            acc = acc * 10 + d;
            if acc > 129 {
                acc = 129;
            }
        }
        i += 1;
    }
    assert(body.take(i - start) =~= body);
    if neg {
        if acc <= 128 {
            Some((0 - acc as i32) as i8)
        } else {
            None
        }
    } else {
        if acc <= 127 {
            Some(acc as i8)
        } else {
            None
        }
    }
}


/// Appends the characters of `t` to `s`.
pub fn append_str(s: &mut String, t: &str)
    ensures
        final(s)@ == old(s)@ + t@,
{
    let cs = chars_of(t);
    let mut i: usize = 0;
    while i < cs.len()
        invariant
            i <= cs.len(),
            cs@ == t@,
            s@ == old(s)@ + cs@.take(i as int),
        decreases cs.len() - i,
    {
        push_char(s, cs[i]);
        assert(old(s)@ + cs@.take(i + 1) =~= (old(s)@ + cs@.take(i as int)).push(cs@[i as int]));
        i += 1;
    }
    assert(cs@.take(i as int) =~= cs@);
}

} // verus!
