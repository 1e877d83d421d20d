//! Small verified string utilities shared by the extractors: character access,
//! equality, concatenation and decimal formatting, each stated over `Seq<char>`.

use vstd::prelude::*;
use vstd::string::StringExecFns;

verus! {

/// Appends one character to `s` (std `String::push`).
#[verifier::external_body]
pub(crate) fn push_char(s: &mut String, c: char)
    ensures
        final(s)@ == old(s)@.push(c),
{
    s.push(c);
}

/// The characters of `s`, in order.
pub fn chars_of(s: &str) -> (r: Vec<char>)
    ensures
        r@ == s@,
{
    let mut r: Vec<char> = Vec::new();
    for c in it: s.chars()
        invariant
            r@ == it.seq().take(it.index() as int),
    {
        r.push(c);
    }
    r
}

/// The string made of the characters `cs[from..to]`.
pub fn string_of_range(cs: &Vec<char>, from: usize, to: usize) -> (r: String)
    requires
        from <= to <= cs@.len(),
    ensures
        r@ == cs@.subrange(from as int, to as int),
{
    let mut r = String::new();
    let mut i = from;
    while i < to
        invariant
            from <= i <= to,
            to <= cs@.len(),
            r@ == cs@.subrange(from as int, i as int),
        decreases to - i,
    {
        push_char(&mut r, cs[i]);
        assert(cs@.subrange(from as int, i + 1) == cs@.subrange(from as int, i as int).push(cs@[i as int]));
        i = i + 1;
    }
    r
}

/// The string made of all of `cs`.
pub fn string_of(cs: &Vec<char>) -> (r: String)
    ensures
        r@ == cs@,
{
    let r = string_of_range(cs, 0, cs.len());
    assert(cs@.subrange(0, cs@.len() as int) == cs@);
    r
}

/// Whether two strings hold the same characters.
pub fn str_eq(a: &str, b: &str) -> (r: bool)
    ensures
        r == (a@ == b@),
{
    let x = a.to_owned();
    let y = b.to_owned();
    x == y
}

/// `a` followed by `b`.
pub fn concat(a: &str, b: &str) -> (r: String)
    ensures
        r@ == a@ + b@,
{
    let mut r = a.to_owned();
    r.append(b);
    r
}

/// `a`, then `sep`, then `b`.
pub fn join3(a: &str, sep: &str, b: &str) -> (r: String)
    ensures
        r@ == a@ + sep@ + b@,
{
    let mut r = a.to_owned();
    r.append(sep);
    r.append(b);
    r
}

/// The decimal digit for `d`.
pub open spec fn digit_char(d: nat) -> char {
    if d == 0 { '0' }
    else if d == 1 { '1' }
    else if d == 2 { '2' }
    else if d == 3 { '3' }
    else if d == 4 { '4' }
    else if d == 5 { '5' }
    else if d == 6 { '6' }
    else if d == 7 { '7' }
    else if d == 8 { '8' }
    else { '9' }
}

/// The decimal digits of `n`, most significant first, without leading zeros
/// (`"0"` for zero).
pub open spec fn decimal_digits(n: nat) -> Seq<char>
    decreases n,
{
    if n < 10 {
        seq![digit_char(n)]
    } else {
        decimal_digits(n / 10).push(digit_char(n % 10))
    }
}

/// The decimal text of an integer, with a leading `-` when negative.
pub open spec fn decimal_text(v: int) -> Seq<char> {
    if v < 0 {
        seq!['-'] + decimal_digits((-v) as nat)
    } else {
        decimal_digits(v as nat)
    }
}

fn digit(d: u64) -> (c: char)
    requires
        d < 10,
    ensures
        c == digit_char(d as nat),
{
    if d == 0 { '0' }
    else if d == 1 { '1' }
    else if d == 2 { '2' }
    else if d == 3 { '3' }
    else if d == 4 { '4' }
    else if d == 5 { '5' }
    else if d == 6 { '6' }
    else if d == 7 { '7' }
    else if d == 8 { '8' }
    else { '9' }
}

/// Appends the decimal digits of `n` to `s`.
fn push_digits(s: &mut String, n: u64)
    ensures
        final(s)@ == old(s)@ + decimal_digits(n as nat),
    decreases n,
{
    if n < 10 {
        push_char(s, digit(n));
        assert(decimal_digits(n as nat) == seq![digit_char(n as nat)]);
        assert(old(s)@.push(digit_char(n as nat)) == old(s)@ + seq![digit_char(n as nat)]);
    } else {
        push_digits(s, n / 10);
        push_char(s, digit(n % 10));
        assert(old(s)@ + decimal_digits(n as nat) == (old(s)@ + decimal_digits((n / 10) as nat)).push(digit_char((n % 10) as nat)));
    }
}

/// The decimal text of `v` (what `v.to_string()` prints for an `i32`).
pub fn decimal_i32(v: i32) -> (r: String)
    ensures
        r@ == decimal_text(v as int),
{
    let mut r = String::new();
    if v < 0 {
        push_char(&mut r, '-');
        let m: u64 = (-(v as i64)) as u64;
        push_digits(&mut r, m);
    } else {
        push_digits(&mut r, v as u64);
    }
    r
}

/// The decimal text of `v`.
pub fn decimal_u64(v: u64) -> (r: String)
    ensures
        r@ == decimal_digits(v as nat),
{
    let mut r = String::new();
    push_digits(&mut r, v);
    r
}

/// Whether `c` is white space as `char::is_whitespace` defines it: the
/// characters with the Unicode `White_Space` property.
pub open spec fn is_white_space(c: char) -> bool {
    let u = c as u32;
    ||| 9 <= u <= 13
    ||| u == 32
    ||| u == 0x85
    ||| u == 0xA0
    ||| u == 0x1680
    ||| 0x2000 <= u <= 0x200A
    ||| u == 0x2028
    ||| u == 0x2029
    ||| u == 0x202F
    ||| u == 0x205F
    ||| u == 0x3000
}

/// Whether `c` is white space (see [`is_white_space`]).
pub fn white_space(c: char) -> (r: bool)
    ensures
        r == is_white_space(c),
{
    let u = c as u32;
    (9 <= u && u <= 13) || u == 32 || u == 0x85 || u == 0xA0 || u == 0x1680 || (0x2000 <= u && u <= 0x200A)
        || u == 0x2028 || u == 0x2029 || u == 0x202F || u == 0x205F || u == 0x3000
}

/// Whether `s` is empty once trimmed: every character is white space.
pub open spec fn is_blank(s: Seq<char>) -> bool {
    forall|i: int| 0 <= i < s.len() ==> is_white_space(#[trigger] s[i])
}

/// The pieces of `s` between `'\n'` characters (one more than there are
/// newlines).
pub open spec fn newline_pieces(s: Seq<char>) -> Seq<Seq<char>>
    decreases s.len(),
{
    if s.len() == 0 {
        seq![Seq::empty()]
    } else {
        let p = newline_pieces(s.drop_last());
        if s.last() == '\n' {
            p.push(Seq::empty())
        } else {
            p.update(p.len() - 1, p.last().push(s.last()))
        }
    }
}

/// A line ended by `"\r\n"` loses its `'\r'`.
pub open spec fn without_cr(l: Seq<char>) -> Seq<char> {
    if l.len() > 0 && l.last() == '\r' { l.drop_last() } else { l }
}

/// The last piece of `pieces` that is not blank.
pub open spec fn last_non_blank(pieces: Seq<Seq<char>>) -> Option<Seq<char>>
    decreases pieces.len(),
{
    if pieces.len() == 0 {
        None
    } else if !is_blank(pieces.last()) {
        Some(pieces.last())
    } else {
        last_non_blank(pieces.drop_last())
    }
}

/// The last line of `s` (as `str::lines` splits it) that is not blank: lines
/// end at `'\n'`, a `'\r'` just before it is dropped, and the final piece is
/// a line as it stands.
pub open spec fn last_line(s: Seq<char>) -> Option<Seq<char>> {
    let p = newline_pieces(s);
    if !is_blank(p.last()) {
        Some(p.last())
    } else {
        match last_non_blank(p.drop_last()) {
            Some(l) => Some(without_cr(l)),
            None => None,
        }
    }
}

/// The pieces of a prefix, one character longer.
proof fn lemma_pieces_step(s: Seq<char>, i: int)
    requires
        0 <= i < s.len(),
    ensures
        newline_pieces(s.take(i)).len() >= 1,
        newline_pieces(s.take(i + 1)) == if s[i] == '\n' {
            newline_pieces(s.take(i)).push(Seq::empty())
        } else {
            let p = newline_pieces(s.take(i));
            p.update(p.len() - 1, p.last().push(s[i]))
        },
    decreases i,
{
    assert(s.take(i + 1).drop_last() =~= s.take(i));
    if i > 0 {
        lemma_pieces_step(s, i - 1);
    } else {
        assert(s.take(0) =~= Seq::<char>::empty());
    }
}

/// The last non-blank line of `s` (see [`last_line`]).
pub fn last_non_blank_line(s: &str) -> (r: Option<String>)
    ensures
        match r {
            Some(l) => last_line(s@) == Some(l@),
            None => last_line(s@) is None,
        },
{
    let cs = chars_of(s);
    let mut cur: Vec<char> = Vec::new();
    let mut cur_blank = true;
    let mut last: Option<Vec<char>> = None;
    let mut i: usize = 0;
    assert(cs@.take(0) =~= Seq::<char>::empty());
    while i < cs.len()
        invariant
            i <= cs@.len(),
            newline_pieces(cs@.take(i as int)).len() >= 1,
            newline_pieces(cs@.take(i as int)).last() == cur@,
            cur_blank == is_blank(cur@),
            match last_non_blank(newline_pieces(cs@.take(i as int)).drop_last()) {
                Some(l) => last matches Some(v) && v@ == without_cr(l),
                None => last is None,
            },
        decreases cs@.len() - i,
    {
        let c = cs[i];
        proof {
            lemma_pieces_step(cs@, i as int);
        }
        let ghost p = newline_pieces(cs@.take(i as int));
        if c == '\n' {
            assert(newline_pieces(cs@.take(i + 1)).drop_last() =~= p);
            if !cur_blank {
                let mut l = cur;
                let n = l.len();
                if n > 0 && l[n - 1] == '\r' {
                    l.pop();
                    assert(l@ =~= without_cr(cur@));
                }
                last = Some(l);
            }
            cur = Vec::new();
            cur_blank = true;
            assert(cur@ =~= Seq::<char>::empty());
        } else {
            let ghost before = cur@;
            let w = white_space(c);
            cur.push(c);
            assert(newline_pieces(cs@.take(i + 1)).drop_last() =~= p.drop_last());
            assert(cur@ == before.push(c));
            assert(is_blank(cur@) == (is_blank(before) && is_white_space(c))) by {
                if is_blank(before) && is_white_space(c) {
                    assert forall|k: int| 0 <= k < cur@.len() implies is_white_space(#[trigger] cur@[k]) by {
                        if k < before.len() {
                            assert(cur@[k] == before[k]);
                        }
                    }
                }
                if is_blank(cur@) {
                    assert forall|k: int| 0 <= k < before.len() implies is_white_space(#[trigger] before[k]) by {
                        assert(cur@[k] == before[k]);
                    }
                    assert(is_white_space(cur@[before.len() as int]));
                }
            }
            cur_blank = cur_blank && w;
        }
        i = i + 1;
    }
    assert(cs@.take(cs@.len() as int) =~= cs@);
    if !cur_blank {
        Some(string_of(&cur))
    } else {
        match last {
            Some(v) => Some(string_of(&v)),
            None => None,
        }
    }
}

} // verus!
