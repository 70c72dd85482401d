//! Laws relating the evaluator to a reference reduction.
//!
//! A sequence of classified tokens can be rendered as a line of text; the
//! round-trip law states that evaluating that line agrees with reducing the
//! tokens directly, left to right, on a fresh stack.

use crate::eval::{eval_spec, finish, op_apply, run_tokens, EvalError};
use crate::token::{
    all_digits, digit_val, digits_val, int_body, int_token_val, is_digit, is_int_token,
    is_op_char, is_op_token, is_ws, split_rec, tokenize, Token,
};
use vstd::arithmetic::div_mod::lemma_fundamental_div_mod;
use vstd::prelude::*;

verus! {

/// The character of a decimal digit.
pub open spec fn digit_char(d: int) -> char {
    if d == 0 {
        '0'
    } else if d == 1 {
        '1'
    } else if d == 2 {
        '2'
    } else if d == 3 {
        '3'
    } else if d == 4 {
        '4'
    } else if d == 5 {
        '5'
    } else if d == 6 {
        '6'
    } else if d == 7 {
        '7'
    } else if d == 8 {
        '8'
    } else {
        '9'
    }
}

/// The decimal digits of `n`, most significant first.
pub open spec fn dec_rep(n: nat) -> Seq<char>
    decreases n,
{
    if n < 10 {
        seq![digit_char(n as int)]
    } else {
        dec_rep(n / 10).push(digit_char((n % 10) as int))
    }
}

/// The canonical text of a token: the signed decimal of an integer, or the
/// operator character alone.
pub open spec fn render_token(t: Token) -> Seq<char> {
    match t {
        Token::Int(v) => if v >= 0 {
            dec_rep(v as nat)
        } else {
            seq!['-'] + dec_rep((-(v as int)) as nat)
        },
        Token::Op(c) => seq![c],
    }
}

/// Words joined by single spaces.
pub open spec fn join_words(ws: Seq<Seq<char>>) -> Seq<char>
    decreases ws.len(),
{
    if ws.len() == 0 {
        Seq::<char>::empty()
    } else if ws.len() == 1 {
        ws[0]
    } else {
        ws[0] + seq![' '] + join_words(ws.skip(1))
    }
}

/// The line that a token sequence renders to.
pub open spec fn render_line(ts: Seq<Token>) -> Seq<char> {
    join_words(ts.map_values(|t: Token| render_token(t)))
}

/// A well-formed token: an operator token carries one of the five operator
/// characters.
pub open spec fn token_wf(t: Token) -> bool {
    t matches Token::Op(c) ==> is_op_char(c)
}

/// A nonempty stretch of non-whitespace characters.
pub open spec fn is_word(w: Seq<char>) -> bool {
    w.len() > 0 && (forall|i: int| 0 <= i < w.len() ==> !is_ws(#[trigger] w[i]))
}

/// The reference reduction over classified tokens: integers are pushed,
/// operators pop two operands and push the wrapped result.
pub open spec fn reduce(ts: Seq<Token>, stack: Seq<i32>, pos: int) -> Result<Seq<i32>, EvalError>
    decreases ts.len(),
{
    if ts.len() == 0 {
        Ok(stack)
    } else {
        match ts[0] {
            Token::Int(v) => reduce(ts.skip(1), stack.push(v), pos + 1),
            Token::Op(c) => {
                if stack.len() < 2 {
                    Err(EvalError::StackUnderflow)
                } else {
                    let x = stack[stack.len() - 2];
                    let y = stack[stack.len() - 1];
                    if (c == '/' || c == '%') && y == 0 {
                        Err(EvalError::DivisionByZero)
                    } else {
                        reduce(
                            ts.skip(1),
                            stack.drop_last().drop_last().push(op_apply(c, x, y)),
                            pos + 1,
                        )
                    }
                }
            },
        }
    }
}

/// The reference result of a token sequence.
pub open spec fn reduce_tokens(ts: Seq<Token>) -> Result<i32, EvalError> {
    finish(reduce(ts, Seq::<i32>::empty(), 1))
}

/// The rendered digits of `n` read back as a number give `n` again.
pub proof fn lemma_dec_rep(n: nat)
    ensures
        dec_rep(n).len() >= 1,
        all_digits(dec_rep(n)),
        digits_val(dec_rep(n)) == n,
    decreases n,
{
    if n < 10 {
        assert(dec_rep(n) == seq![digit_char(n as int)]);
        assert(digit_val(digit_char(n as int)) == n);
        assert(seq![digit_char(n as int)].drop_last() =~= Seq::<char>::empty());
        assert(seq![digit_char(n as int)].last() == digit_char(n as int));
        assert(digits_val(Seq::<char>::empty()) == 0);
        assert(digits_val(seq![digit_char(n as int)]) == digits_val(Seq::<char>::empty()) * 10
            + digit_val(digit_char(n as int)));
    } else {
        lemma_dec_rep(n / 10);
        let s = dec_rep(n / 10);
        let c = digit_char((n % 10) as int);
        assert(0 <= n % 10 < 10);
        assert(digit_val(c) == n % 10);
        assert(s.push(c).drop_last() =~= s);
        assert(s.push(c).last() == c);
        lemma_fundamental_div_mod(n as int, 10);
        assert(dec_rep(n) == s.push(c));
        assert(digits_val(s.push(c)) == digits_val(s) * 10 + digit_val(c));
        assert(forall|i: int|
            0 <= i < s.push(c).len() ==> is_digit(#[trigger] s.push(c)[i]));
    }
}

/// Digit characters are not whitespace.
proof fn lemma_digits_not_ws(s: Seq<char>)
    requires
        all_digits(s),
    ensures
        forall|i: int| 0 <= i < s.len() ==> !is_ws(#[trigger] s[i]),
{
}

/// The rendering of an integer is an integer token denoting that integer,
/// and a word.
pub proof fn lemma_render_int(v: i32)
    ensures
        is_int_token(render_token(Token::Int(v))),
        int_token_val(render_token(Token::Int(v))) == v,
        is_word(render_token(Token::Int(v))),
{
    let s = render_token(Token::Int(v));
    if v >= 0 {
        lemma_dec_rep(v as nat);
        lemma_digits_not_ws(s);
        assert(is_digit(s[0]));
        assert(int_body(s) == s);
    } else {
        let m = (-(v as int)) as nat;
        lemma_dec_rep(m);
        assert(s[0] == '-');
        assert(int_body(s) =~= dec_rep(m));
        lemma_digits_not_ws(dec_rep(m));
        assert(forall|i: int| 1 <= i < s.len() ==> s[i] == dec_rep(m)[i - 1]);
    }
}

/// The rendering of an operator is an operator token, not an integer token,
/// and a word.
pub proof fn lemma_render_op(c: char)
    requires
        is_op_char(c),
    ensures
        is_op_token(render_token(Token::Op(c))),
        !is_int_token(render_token(Token::Op(c))),
        is_word(render_token(Token::Op(c))),
{
    let s = render_token(Token::Op(c));
    if c == '+' || c == '-' {
        assert(int_body(s) =~= Seq::<char>::empty());
    } else {
        assert(int_body(s) == s);
        assert(!is_digit(s[0]));
    }
}

/// Splitting consumes a leading word whole, into the current collection.
proof fn lemma_split_rec_word(w: Seq<char>, rest: Seq<char>, cur: Seq<char>)
    requires
        forall|i: int| 0 <= i < w.len() ==> !is_ws(#[trigger] w[i]),
    ensures
        split_rec(w + rest, cur) == split_rec(rest, cur + w),
    decreases w.len(),
{
    if w.len() == 0 {
        assert(w + rest =~= rest);
        assert(cur + w =~= cur);
    } else {
        assert((w + rest)[0] == w[0]);
        assert((w + rest).skip(1) =~= w.skip(1) + rest);
        lemma_split_rec_word(w.skip(1), rest, cur.push(w[0]));
        assert(cur.push(w[0]) + w.skip(1) =~= cur + w);
    }
}

/// Splitting the space-joined text of words yields the words again.
proof fn lemma_tokenize_join(ws: Seq<Seq<char>>)
    requires
        forall|k: int| 0 <= k < ws.len() ==> is_word(#[trigger] ws[k]),
    ensures
        tokenize(join_words(ws)) == ws,
    decreases ws.len(),
{
    if ws.len() == 0 {
        assert(tokenize(join_words(ws)) =~= ws);
    } else if ws.len() == 1 {
        lemma_split_rec_word(ws[0], Seq::<char>::empty(), Seq::<char>::empty());
        assert(ws[0] + Seq::<char>::empty() =~= ws[0]);
        assert(Seq::<char>::empty() + ws[0] =~= ws[0]);
        assert(is_word(ws[0]));
        assert(tokenize(join_words(ws)) =~= ws);
    } else {
        let rest = seq![' '] + join_words(ws.skip(1));
        assert(join_words(ws) =~= ws[0] + rest);
        assert(is_word(ws[0]));
        lemma_split_rec_word(ws[0], rest, Seq::<char>::empty());
        assert(Seq::<char>::empty() + ws[0] =~= ws[0]);
        assert(rest[0] == ' ');
        assert(rest.skip(1) =~= join_words(ws.skip(1)));
        assert(forall|k: int| 0 <= k < ws.skip(1).len() ==> is_word(#[trigger] ws.skip(1)[k]));
        lemma_tokenize_join(ws.skip(1));
        assert(split_rec(rest, ws[0]) == seq![ws[0]] + tokenize(join_words(ws.skip(1))));
        assert(seq![ws[0]] + ws.skip(1) =~= ws);
    }
}

/// Running the reduction over rendered words agrees with reducing the
/// tokens themselves.
proof fn lemma_run_reduce(ts: Seq<Token>, stack: Seq<i32>, pos: int)
    requires
        forall|k: int| 0 <= k < ts.len() ==> token_wf(#[trigger] ts[k]),
    ensures
        run_tokens(ts.map_values(|t: Token| render_token(t)), stack, pos) == reduce(
            ts,
            stack,
            pos,
        ),
    decreases ts.len(),
{
    let ws = ts.map_values(|t: Token| render_token(t));
    if ts.len() == 0 {
        assert(ws =~= Seq::<Seq<char>>::empty());
    } else {
        assert(ws[0] == render_token(ts[0]));
        assert(ws.skip(1) =~= ts.skip(1).map_values(|t: Token| render_token(t)));
        assert(forall|k: int| 0 <= k < ts.skip(1).len() ==> token_wf(#[trigger] ts.skip(1)[k]));
        match ts[0] {
            Token::Int(v) => {
                lemma_render_int(v);
                lemma_run_reduce(ts.skip(1), stack.push(v), pos + 1);
            },
            Token::Op(c) => {
                assert(token_wf(ts[0]));
                lemma_render_op(c);
                assert(ws[0][0] == c);
                if stack.len() >= 2 {
                    let x = stack[stack.len() - 2];
                    let y = stack[stack.len() - 1];
                    if !((c == '/' || c == '%') && y == 0) {
                        lemma_run_reduce(
                            ts.skip(1),
                            stack.drop_last().drop_last().push(op_apply(c, x, y)),
                            pos + 1,
                        );
                    }
                }
            },
        }
    }
}

/// Round trip: rendering a sequence of well-formed tokens as a line and
/// evaluating that line agrees with the reference left-to-right stack
/// reduction of the tokens.
pub proof fn lemma_round_trip(ts: Seq<Token>)
    requires
        forall|k: int| 0 <= k < ts.len() ==> token_wf(#[trigger] ts[k]),
    ensures
        eval_spec(render_line(ts)) == reduce_tokens(ts),
{
    let ws = ts.map_values(|t: Token| render_token(t));
    assert forall|k: int| 0 <= k < ws.len() implies is_word(#[trigger] ws[k]) by {
        assert(ws[k] == render_token(ts[k]));
        assert(token_wf(ts[k]));
        match ts[k] {
            Token::Int(v) => lemma_render_int(v),
            Token::Op(c) => lemma_render_op(c),
        }
    }
    lemma_tokenize_join(ws);
    lemma_run_reduce(ts, Seq::<i32>::empty(), 1);
}

/// A line whose only token is an integer evaluates to that integer.
pub proof fn lemma_single_integer(line: Seq<char>, t: Seq<char>)
    requires
        tokenize(line) == seq![t],
        is_int_token(t),
    ensures
        eval_spec(line) == Ok::<i32, EvalError>(int_token_val(t) as i32),
{
    let ws = seq![t];
    assert(ws[0] == t);
    assert(ws.skip(1) =~= Seq::<Seq<char>>::empty());
    let st = Seq::<i32>::empty().push(int_token_val(t) as i32);
    assert(run_tokens(ws.skip(1), st, 2) == Ok::<Seq<i32>, EvalError>(st));
    assert(st.len() == 1);
}

} // verus!
