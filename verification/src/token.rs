//! Tokens and tokenization.
//!
//! A line is split on runs of whitespace into words. A word is either a
//! decimal integer token (optionally signed, fitting in `i32`), one of the
//! five operator tokens `+ - * / %`, or invalid.

use vstd::prelude::*;
use vstd::string::StrSliceExecFns;

verus! {

/// A classified token: an integer operand, or an operator character.
pub enum Token {
    Int(i32),
    Op(char),
}

/// The characters on which a line is split into words: the Unicode
/// white-space characters, as `char::is_whitespace` recognizes them.
pub open spec fn is_ws(c: char) -> bool {
    let u = c as u32;
    u == 0x09 || u == 0x0a || u == 0x0b || u == 0x0c || u == 0x0d || u == 0x20 || u == 0x85
        || u == 0xa0 || u == 0x1680 || (0x2000 <= u && u <= 0x200a) || u == 0x2028 || u == 0x2029
        || u == 0x202f || u == 0x205f || u == 0x3000
}

/// Splits `s` into words, with `cur` the (possibly empty) word collected so
/// far from the characters already consumed.
pub open spec fn split_rec(s: Seq<char>, cur: Seq<char>) -> Seq<Seq<char>>
    decreases s.len(),
{
    if s.len() == 0 {
        if cur.len() == 0 {
            Seq::<Seq<char>>::empty()
        } else {
            seq![cur]
        }
    } else if is_ws(s[0]) {
        if cur.len() == 0 {
            split_rec(s.skip(1), cur)
        } else {
            seq![cur] + split_rec(s.skip(1), Seq::<char>::empty())
        }
    } else {
        split_rec(s.skip(1), cur.push(s[0]))
    }
}

/// The whitespace-separated words of a line, in left-to-right order.
pub open spec fn tokenize(s: Seq<char>) -> Seq<Seq<char>> {
    split_rec(s, Seq::<char>::empty())
}

/// Exec mirror of `is_ws`.
pub fn is_ws_exec(c: char) -> (r: bool)
    ensures
        r == is_ws(c),
{
    let u = c as u32;
    u == 0x09 || u == 0x0a || u == 0x0b || u == 0x0c || u == 0x0d || u == 0x20 || u == 0x85
        || u == 0xa0 || u == 0x1680 || (0x2000 <= u && u <= 0x200a) || u == 0x2028 || u == 0x2029
        || u == 0x202f || u == 0x205f || u == 0x3000
}

/// The characters of a line, in order.
pub fn chars_of(s: &str) -> (r: Vec<char>)
    ensures
        r@ == s@,
{
    let n = s.unicode_len();
    let mut r: Vec<char> = Vec::new();
    let mut i: usize = 0;
    while i < n
        invariant
            n == s@.len(),
            i <= n,
            r@ == s@.take(i as int),
        decreases n - i,
    {
        r.push(s.get_char(i));
        i = i + 1;
        proof {
            assert(r@ =~= s@.take(i as int));
        }
    }
    proof {
        assert(s@.take(n as int) =~= s@);
    }
    r
}

/// Splits a line into its words; the exec counterpart of `tokenize`.
pub fn split_words(chars: &Vec<char>) -> (r: Vec<Vec<char>>)
    ensures
        r@.map_values(|w: Vec<char>| w@) == tokenize(chars@),
{
    let mut out: Vec<Vec<char>> = Vec::new();
    let mut cur: Vec<char> = Vec::new();
    let mut i: usize = 0;
    proof {
        assert(chars@.skip(0) =~= chars@);
        assert(out@.map_values(|w: Vec<char>| w@) + split_rec(chars@, cur@) =~= split_rec(
            chars@,
            cur@,
        ));
    }
    while i < chars.len()
        invariant
            i <= chars@.len(),
            tokenize(chars@) == out@.map_values(|w: Vec<char>| w@) + split_rec(
                chars@.skip(i as int),
                cur@,
            ),
        decreases chars@.len() - i,
    {
        proof {
            assert(chars@.skip(i as int)[0] == chars@[i as int]);
            assert(chars@.skip(i as int).skip(1) =~= chars@.skip(i as int + 1));
        }
        let c = chars[i];
        if is_ws_exec(c) {
            if cur.len() > 0 {
                let ghost prev_out = out@;
                let ghost word = cur@;
                out.push(cur);
                cur = Vec::new();
                proof {
                    assert(out@.map_values(|w: Vec<char>| w@) =~= prev_out.map_values(
                        |w: Vec<char>| w@,
                    ).push(word));
                    assert(prev_out.map_values(|w: Vec<char>| w@) + (seq![word] + split_rec(
                        chars@.skip(i as int + 1),
                        Seq::<char>::empty(),
                    )) =~= out@.map_values(|w: Vec<char>| w@) + split_rec(
                        chars@.skip(i as int + 1),
                        Seq::<char>::empty(),
                    ));
                }
            }
        } else {
            cur.push(c);
        }
        i = i + 1;
    }
    proof {
        assert(chars@.skip(i as int) =~= Seq::<char>::empty());
    }
    if cur.len() > 0 {
        let ghost prev_out = out@;
        let ghost word = cur@;
        out.push(cur);
        proof {
            assert(out@.map_values(|w: Vec<char>| w@) =~= prev_out.map_values(
                |w: Vec<char>| w@,
            ).push(word));
            assert(prev_out.map_values(|w: Vec<char>| w@) + seq![word] =~= out@.map_values(
                |w: Vec<char>| w@,
            ));
        }
    } else {
        proof {
            assert(out@.map_values(|w: Vec<char>| w@) + Seq::<Seq<char>>::empty() =~= out@.map_values(
                |w: Vec<char>| w@,
            ));
        }
    }
    out
}

/// A decimal digit character.
pub open spec fn is_digit(c: char) -> bool {
    48 <= c as u32 && c as u32 <= 57
}

/// The numeric value of a digit character.
pub open spec fn digit_val(c: char) -> int {
    c as u32 - 48
}

pub open spec fn all_digits(s: Seq<char>) -> bool {
    forall|i: int| 0 <= i < s.len() ==> is_digit(#[trigger] s[i])
}

/// The value of a digit string read in base ten.
pub open spec fn digits_val(s: Seq<char>) -> int
    decreases s.len(),
{
    if s.len() == 0 {
        0
    } else {
        digits_val(s.drop_last()) * 10 + digit_val(s.last())
    }
}

/// Whether the word starts with an explicit sign character.
pub open spec fn has_sign(s: Seq<char>) -> bool {
    s.len() > 0 && (s[0] == '+' || s[0] == '-')
}

/// The digits of the word, the sign character stripped.
pub open spec fn int_body(s: Seq<char>) -> Seq<char> {
    if has_sign(s) {
        s.skip(1)
    } else {
        s
    }
}

pub open spec fn int_sign(s: Seq<char>) -> int {
    if s.len() > 0 && s[0] == '-' {
        -1
    } else {
        1
    }
}

/// The integer a word denotes: its signed decimal reading.
pub open spec fn int_token_val(s: Seq<char>) -> int {
    int_sign(s) * digits_val(int_body(s))
}

/// An integer token: an optional sign, then one or more digits, denoting a
/// value that fits in `i32`.
pub open spec fn is_int_token(s: Seq<char>) -> bool {
    &&& int_body(s).len() > 0
    &&& all_digits(int_body(s))
    &&& i32::MIN <= int_token_val(s) <= i32::MAX
}

/// What parsing a word as an integer yields.
pub open spec fn parse_spec(s: Seq<char>) -> Option<i32> {
    if is_int_token(s) {
        Some(int_token_val(s) as i32)
    } else {
        None
    }
}

/// An all-digit string has a non-negative value.
pub proof fn lemma_digits_val_nonneg(s: Seq<char>)
    requires
        all_digits(s),
    ensures
        digits_val(s) >= 0,
    decreases s.len(),
{
    if s.len() > 0 {
        lemma_digits_val_nonneg(s.drop_last());
    }
}

/// Reading more digits never shrinks the value.
pub proof fn lemma_digits_val_prefix_le(s: Seq<char>, m: int)
    requires
        all_digits(s),
        0 <= m <= s.len(),
    ensures
        digits_val(s.take(m)) <= digits_val(s),
    decreases s.len(),
{
    if m == s.len() {
        assert(s.take(m) =~= s);
    } else {
        assert(s.drop_last().take(m) =~= s.take(m));
        lemma_digits_val_prefix_le(s.drop_last(), m);
        lemma_digits_val_nonneg(s.drop_last());
    }
}

/// Parses a word as a decimal `i32`; the exec counterpart of `parse_spec`.
pub fn parse_int_token(t: &Vec<char>) -> (r: Option<i32>)
    ensures
        r == parse_spec(t@),
{
    let n = t.len();
    let neg: bool;
    let start: usize;
    if n > 0 && (t[0] == '+' || t[0] == '-') {
        neg = t[0] == '-';
        start = 1;
    } else {
        neg = false;
        start = 0;
    }
    proof {
        assert(int_body(t@) =~= t@.skip(start as int));
    }
    if start >= n {
        return None;
    }
    let mut acc: u64 = 0;
    let mut j: usize = start;
    while j < n
        invariant
            start <= j <= n,
            n == t@.len(),
            start == if has_sign(t@) { 1int } else { 0int },
            neg == (t@.len() > 0 && t@[0] == '-'),
            int_body(t@) == t@.skip(start as int),
            all_digits(t@.subrange(start as int, j as int)),
            acc == digits_val(t@.subrange(start as int, j as int)),
            acc <= 0x8000_0000,
        decreases n - j,
    {
        let c = t[j];
        let d = c as u32;
        if !(48 <= d && d <= 57) {
            proof {
                assert(int_body(t@)[j - start] == t@[j as int]);
            }
            return None;
        }
        let acc2: u64 = acc * 10 + ((d - 48) as u64);
        proof {
            let prefix = t@.subrange(start as int, j as int);
            let prefix2 = t@.subrange(start as int, j + 1);
            assert(prefix2.drop_last() =~= prefix);
            assert(prefix2.last() == t@[j as int]);
            assert(forall|k: int|
                0 <= k < prefix2.len() ==> is_digit(#[trigger] prefix2[k]) == is_digit(
                    t@[start + k],
                ));
        }
        if acc2 > 0x8000_0000 {
            proof {
                let body = int_body(t@);
                if all_digits(body) {
                    assert(body.take(j + 1 - start) =~= t@.subrange(start as int, j + 1));
                    lemma_digits_val_prefix_le(body, j + 1 - start);
                }
            }
            return None;
        }
        acc = acc2;
        j = j + 1;
    }
    proof {
        assert(t@.subrange(start as int, n as int) =~= int_body(t@));
        lemma_digits_val_nonneg(int_body(t@));
    }
    if neg {
        let v: i64 = -(acc as i64);
        Some(v as i32)
    } else {
        if acc > 0x7fff_ffff {
            return None;
        }
        Some(acc as i32)
    }
}

/// An operator character: one of the five arithmetic operators.
pub open spec fn is_op_char(c: char) -> bool {
    c == '+' || c == '-' || c == '*' || c == '/' || c == '%'
}

/// An operator token: a single operator character.
pub open spec fn is_op_token(s: Seq<char>) -> bool {
    s.len() == 1 && is_op_char(s[0])
}

/// Recognizes an operator word and returns its character.
pub fn op_of_token(t: &Vec<char>) -> (r: Option<char>)
    ensures
        match r {
            Some(c) => is_op_token(t@) && c == t@[0],
            None => !is_op_token(t@),
        },
{
    if t.len() == 1 {
        let c = t[0];
        if c == '+' || c == '-' || c == '*' || c == '/' || c == '%' {
            Some(c)
        } else {
            None
        }
    } else {
        None
    }
}

} // verus!
