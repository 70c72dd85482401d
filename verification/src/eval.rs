//! The stack evaluator.
//!
//! `RpnCalculator::eval` turns one line of text into one `i32`, or into an
//! `EvalError` describing the first fault: an unrecognized token, an
//! operator short of operands, a divisor of zero, or a final stack that does
//! not hold exactly one value.

use crate::arith::{div_trunc, div_wrap_i32, rem_trunc, rem_wrap_i32};
use crate::token::{
    chars_of, int_token_val, is_int_token, is_op_char, is_op_token, op_of_token, parse_int_token,
    split_words, tokenize,
};
use vstd::prelude::*;
use vstd::wrapping::i32_specs;

verus! {

/// Why a line fails to evaluate.
#[derive(Clone, Copy, Debug, PartialEq, Eq, Structural)]
pub enum EvalError {
    /// The token at this 1-based position is neither an integer nor an
    /// operator.
    InvalidToken { position: usize },
    /// An operator found fewer than two operands on the stack.
    StackUnderflow,
    /// After all tokens were consumed the stack did not hold exactly one
    /// value.
    InvalidSyntax,
    /// The divisor of `/` or `%` was zero.
    DivisionByZero,
}

/// The value an operator pushes: `x OP y`, wrapped into the `i32` range.
pub open spec fn op_apply(c: char, x: i32, y: i32) -> i32 {
    if c == '+' {
        i32_specs::wrapping_add(x, y)
    } else if c == '-' {
        i32_specs::wrapping_sub(x, y)
    } else if c == '*' {
        i32_specs::wrapping_mul(x, y)
    } else if c == '/' {
        i32_specs::signed_crop(div_trunc(x as int, y as int))
    } else {
        i32_specs::signed_crop(rem_trunc(x as int, y as int))
    }
}

/// Exec counterpart of `op_apply`.
fn apply_op(c: char, x: i32, y: i32) -> (r: i32)
    requires
        is_op_char(c),
        (c == '/' || c == '%') ==> y != 0,
    ensures
        r == op_apply(c, x, y),
{
    if c == '+' {
        x.wrapping_add(y)
    } else if c == '-' {
        x.wrapping_sub(y)
    } else if c == '*' {
        x.wrapping_mul(y)
    } else if c == '/' {
        div_wrap_i32(x, y)
    } else {
        rem_wrap_i32(x, y)
    }
}

/// One left-to-right pass of the stack reduction over the words of a line.
/// `pos` is the 1-based position of the first of `words`; the result is the
/// final stack, or the first error.
pub open spec fn run_tokens(words: Seq<Seq<char>>, stack: Seq<i32>, pos: int) -> Result<
    Seq<i32>,
    EvalError,
>
    decreases words.len(),
{
    if words.len() == 0 {
        Ok(stack)
    } else {
        let w = words[0];
        if is_int_token(w) {
            run_tokens(words.skip(1), stack.push(int_token_val(w) as i32), pos + 1)
        } else if stack.len() < 2 {
            Err(EvalError::StackUnderflow)
        } else if is_op_token(w) {
            let x = stack[stack.len() - 2];
            let y = stack[stack.len() - 1];
            if (w[0] == '/' || w[0] == '%') && y == 0 {
                Err(EvalError::DivisionByZero)
            } else {
                run_tokens(
                    words.skip(1),
                    stack.drop_last().drop_last().push(op_apply(w[0], x, y)),
                    pos + 1,
                )
            }
        } else {
            Err(EvalError::InvalidToken { position: pos as usize })
        }
    }
}

/// Running over concatenated word sequences composes: the second part
/// starts from the stack and position that the first part reached, and an
/// early error stands.
pub proof fn lemma_run_tokens_append(a: Seq<Seq<char>>, b: Seq<Seq<char>>, stack: Seq<i32>, pos: int)
    ensures
        run_tokens(a + b, stack, pos) == (match run_tokens(a, stack, pos) {
            Ok(st) => run_tokens(b, st, pos + a.len()),
            Err(e) => Err(e),
        }),
    decreases a.len(),
{
    if a.len() == 0 {
        assert(a + b =~= b);
    } else {
        assert((a + b)[0] == a[0]);
        assert((a + b).skip(1) =~= a.skip(1) + b);
        let w = a[0];
        if is_int_token(w) {
            lemma_run_tokens_append(a.skip(1), b, stack.push(int_token_val(w) as i32), pos + 1);
        } else if stack.len() >= 2 && is_op_token(w) {
            let x = stack[stack.len() - 2];
            let y = stack[stack.len() - 1];
            if !((w[0] == '/' || w[0] == '%') && y == 0) {
                lemma_run_tokens_append(
                    a.skip(1),
                    b,
                    stack.drop_last().drop_last().push(op_apply(w[0], x, y)),
                    pos + 1,
                );
            }
        }
    }
}

/// The verdict on a finished reduction: the single remaining value, or
/// `InvalidSyntax` when the stack holds any other count.
pub open spec fn finish(r: Result<Seq<i32>, EvalError>) -> Result<i32, EvalError> {
    match r {
        Ok(stack) => if stack.len() == 1 {
            Ok(stack[0])
        } else {
            Err(EvalError::InvalidSyntax)
        },
        Err(e) => Err(e),
    }
}

/// The meaning of one input line: split it into words, reduce them left to
/// right on an empty stack, and demand a single remaining value.
pub open spec fn eval_spec(line: Seq<char>) -> Result<i32, EvalError> {
    finish(run_tokens(tokenize(line), Seq::<i32>::empty(), 1))
}

/// The views of a vector of words.
pub open spec fn words_view(words: Seq<Vec<char>>) -> Seq<Seq<char>> {
    words.map_values(|w: Vec<char>| w@)
}

/// One verbose-mode snapshot, taken after a token was processed: the words
/// not yet consumed, and the stack at that moment.
pub struct TraceStep {
    pub remaining: Vec<Vec<char>>,
    pub stack: Vec<i32>,
}

/// The snapshots a verbose evaluation of `words` emits: one for every word
/// processed without error, holding the stack that `run_tokens` reaches
/// after that word together with the unconsumed words; on an error the
/// snapshots end with the last error-free step.
pub open spec fn trace_matches(words: Seq<Seq<char>>, tr: Seq<TraceStep>) -> bool {
    &&& tr.len() <= words.len()
    &&& forall|k: int|
        0 <= k < tr.len() ==> {
            &&& words_view((#[trigger] tr[k]).remaining@) == words.skip(k + 1)
            &&& run_tokens(words.take(k + 1), Seq::<i32>::empty(), 1) == Ok::<
                Seq<i32>,
                EvalError,
            >(tr[k].stack@)
        }
    &&& (run_tokens(words, Seq::<i32>::empty(), 1) is Ok ==> tr.len() == words.len())
    &&& (run_tokens(words, Seq::<i32>::empty(), 1) is Err ==> tr.len() < words.len()
        && run_tokens(words.take(tr.len() as int + 1), Seq::<i32>::empty(), 1) is Err)
}

/// A copy of a vector of copyable values.
fn copy_vec<T: Copy>(v: &Vec<T>) -> (r: Vec<T>)
    ensures
        r@ == v@,
{
    let mut r: Vec<T> = Vec::new();
    let mut i: usize = 0;
    while i < v.len()
        invariant
            i <= v@.len(),
            r@ == v@.take(i as int),
        decreases v@.len() - i,
    {
        r.push(v[i]);
        i = i + 1;
        proof {
            assert(r@ =~= v@.take(i as int));
        }
    }
    proof {
        assert(v@.take(v@.len() as int) =~= v@);
    }
    r
}

/// A copy of the words from index `from` on.
fn copy_words_from(words: &Vec<Vec<char>>, from: usize) -> (r: Vec<Vec<char>>)
    requires
        from <= words@.len(),
    ensures
        words_view(r@) == words_view(words@).skip(from as int),
{
    let mut r: Vec<Vec<char>> = Vec::new();
    let mut j: usize = from;
    while j < words.len()
        invariant
            from <= j <= words@.len(),
            r@.len() == j - from,
            forall|k: int| 0 <= k < r@.len() ==> (#[trigger] r@[k])@ == words@[from + k]@,
        decreases words@.len() - j,
    {
        let w = copy_vec(&words[j]);
        r.push(w);
        j = j + 1;
    }
    proof {
        assert forall|k: int| 0 <= k < r@.len() implies words_view(r@)[k] == words_view(
            words@,
        ).skip(from as int)[k] by {
            assert(words_view(r@)[k] == r@[k]@);
            assert(words_view(words@).skip(from as int)[k] == words@[from + k]@);
        }
        assert(words_view(r@) =~= words_view(words@).skip(from as int));
    }
    r
}

/// A Reverse Polish Notation calculator. The flag given at construction
/// requests a diagnostic trace from the surrounding driver; it has no
/// bearing on results.
pub struct RpnCalculator(bool);

impl RpnCalculator {
    /// Whether the calculator was built in verbose mode.
    pub closed spec fn verbose_mode(&self) -> bool {
        self.0
    }

    pub fn new(verbose: bool) -> (r: Self)
        ensures
            r.verbose_mode() == verbose,
    {
        RpnCalculator(verbose)
    }

    /// Evaluates one line. The result is exactly `eval_spec` of the line's
    /// characters: the integer the expression denotes, or the first error.
    pub fn eval(&self, formula: &str) -> (r: Result<i32, EvalError>)
        ensures
            r == eval_spec(formula@),
    {
        let chars = chars_of(formula);
        let words = split_words(&chars);
        self.eval_inner(&words)
    }

    /// Evaluates one line as `eval` does, and also returns the verbose-mode
    /// snapshots: after each processed token, the words not yet consumed
    /// and the stack at that moment. The surrounding driver prints them
    /// when verbose mode is on.
    pub fn eval_trace(&self, formula: &str) -> (r: (Result<i32, EvalError>, Vec<TraceStep>))
        ensures
            r.0 == eval_spec(formula@),
            trace_matches(tokenize(formula@), r.1@),
    {
        let chars = chars_of(formula);
        let words = split_words(&chars);
        let ghost ws = words_view(words@);
        let mut stack: Vec<i32> = Vec::new();
        let mut tr: Vec<TraceStep> = Vec::new();
        let mut i: usize = 0;
        proof {
            assert(ws.skip(0) =~= ws);
            assert(ws.take(0) =~= Seq::<Seq<char>>::empty());
        }
        while i < words.len()
            invariant
                i <= words@.len(),
                ws == words_view(words@),
                ws == tokenize(formula@),
                run_tokens(ws, Seq::<i32>::empty(), 1) == run_tokens(
                    ws.skip(i as int),
                    stack@,
                    i + 1,
                ),
                run_tokens(ws.take(i as int), Seq::<i32>::empty(), 1) == Ok::<
                    Seq<i32>,
                    EvalError,
                >(stack@),
                tr@.len() == i,
                forall|k: int|
                    0 <= k < i ==> {
                        &&& words_view((#[trigger] tr@[k]).remaining@) == ws.skip(k + 1)
                        &&& run_tokens(ws.take(k + 1), Seq::<i32>::empty(), 1) == Ok::<
                            Seq<i32>,
                            EvalError,
                        >(tr@[k].stack@)
                    },
            decreases words@.len() - i,
        {
            proof {
                assert(ws.skip(i as int)[0] == ws[i as int]);
                assert(ws[i as int] == words@[i as int]@);
                assert(ws.skip(i as int).skip(1) =~= ws.skip(i as int + 1));
                assert(ws.take(i as int) + seq![ws[i as int]] =~= ws.take(i as int + 1));
                assert(seq![ws[i as int]][0] == ws[i as int]);
                assert(seq![ws[i as int]].skip(1) =~= Seq::<Seq<char>>::empty());
                assert(ws.take(i as int).len() == i);
                lemma_run_tokens_append(
                    ws.take(i as int),
                    seq![ws[i as int]],
                    Seq::<i32>::empty(),
                    1,
                );
            }
            let ghost st0 = stack@;
            let ghost wi = ws[i as int];
            let w = &words[i];
            match parse_int_token(w) {
                Some(v) => {
                    stack.push(v);
                    proof {
                        assert(run_tokens(Seq::<Seq<char>>::empty(), st0.push(v), i + 2) == Ok::<
                            Seq<i32>,
                            EvalError,
                        >(st0.push(v)));
                        assert(run_tokens(seq![wi], st0, i + 1) == Ok::<Seq<i32>, EvalError>(
                            st0.push(v),
                        ));
                        assert(run_tokens(ws.take(i as int + 1), Seq::<i32>::empty(), 1) == Ok::<
                            Seq<i32>,
                            EvalError,
                        >(stack@));
                    }
                },
                None => {
                    if stack.len() < 2 {
                        proof {
                            assert(run_tokens(seq![wi], st0, i + 1) == Err::<Seq<i32>, EvalError>(
                                EvalError::StackUnderflow,
                            ));
                            assert(run_tokens(ws.take(i as int + 1), Seq::<i32>::empty(), 1)
                                is Err);
                            assert(run_tokens(ws.skip(i as int), st0, i + 1) == Err::<
                                Seq<i32>,
                                EvalError,
                            >(EvalError::StackUnderflow));
                        }
                        return (Err(EvalError::StackUnderflow), tr);
                    }
                    match op_of_token(w) {
                        Some(c) => {
                            let y = stack[stack.len() - 1];
                            let x = stack[stack.len() - 2];
                            if (c == '/' || c == '%') && y == 0 {
                                proof {
                                    assert(run_tokens(seq![wi], st0, i + 1) == Err::<
                                        Seq<i32>,
                                        EvalError,
                                    >(EvalError::DivisionByZero));
                                    assert(run_tokens(
                                        ws.take(i as int + 1),
                                        Seq::<i32>::empty(),
                                        1,
                                    ) is Err);
                                    assert(run_tokens(ws.skip(i as int), st0, i + 1) == Err::<
                                        Seq<i32>,
                                        EvalError,
                                    >(EvalError::DivisionByZero));
                                }
                                return (Err(EvalError::DivisionByZero), tr);
                            }
                            let res = apply_op(c, x, y);
                            stack.pop();
                            stack.pop();
                            stack.push(res);
                            proof {
                                assert(stack@ =~= st0.drop_last().drop_last().push(res));
                                assert(run_tokens(Seq::<Seq<char>>::empty(), stack@, i + 2)
                                    == Ok::<Seq<i32>, EvalError>(stack@));
                                assert(run_tokens(seq![wi], st0, i + 1) == Ok::<
                                    Seq<i32>,
                                    EvalError,
                                >(stack@));
                                assert(run_tokens(ws.take(i as int + 1), Seq::<i32>::empty(), 1)
                                    == Ok::<Seq<i32>, EvalError>(stack@));
                            }
                        },
                        None => {
                            proof {
                                assert(run_tokens(seq![wi], st0, i + 1) == Err::<
                                    Seq<i32>,
                                    EvalError,
                                >(EvalError::InvalidToken { position: (i + 1) as usize }));
                                assert(run_tokens(ws.take(i as int + 1), Seq::<i32>::empty(), 1)
                                    is Err);
                                assert(run_tokens(ws.skip(i as int), st0, i + 1) == Err::<
                                    Seq<i32>,
                                    EvalError,
                                >(EvalError::InvalidToken { position: (i + 1) as usize }));
                            }
                            return (Err(EvalError::InvalidToken { position: i + 1 }), tr);
                        },
                    }
                },
            }
            let snap_remaining = copy_words_from(&words, i + 1);
            let snap_stack = copy_vec(&stack);
            let ghost tr0 = tr@;
            tr.push(TraceStep { remaining: snap_remaining, stack: snap_stack });
            proof {
                assert(tr@ == tr0.push(tr@[i as int]));
                assert(words_view(tr@[i as int].remaining@) == ws.skip(i as int + 1));
                assert(tr@[i as int].stack@ == stack@);
                assert(forall|k: int| 0 <= k < i ==> tr@[k] == tr0[k]);
            }
            i = i + 1;
        }
        proof {
            assert(ws.skip(i as int) =~= Seq::<Seq<char>>::empty());
            assert(ws.take(i as int) =~= ws);
        }
        if stack.len() == 1 {
            (Ok(stack[0]), tr)
        } else {
            (Err(EvalError::InvalidSyntax), tr)
        }
    }

    /// Reduces the words of a line on a fresh stack.
    fn eval_inner(&self, words: &Vec<Vec<char>>) -> (r: Result<i32, EvalError>)
        ensures
            r == finish(run_tokens(words_view(words@), Seq::<i32>::empty(), 1)),
    {
        let ghost ws = words_view(words@);
        let mut stack: Vec<i32> = Vec::new();
        let mut i: usize = 0;
        proof {
            assert(ws.skip(0) =~= ws);
        }
        while i < words.len()
            invariant
                i <= words@.len(),
                ws == words_view(words@),
                run_tokens(ws, Seq::<i32>::empty(), 1) == run_tokens(
                    ws.skip(i as int),
                    stack@,
                    i + 1,
                ),
            decreases words@.len() - i,
        {
            proof {
                assert(ws.skip(i as int)[0] == ws[i as int]);
                assert(ws[i as int] == words@[i as int]@);
                assert(ws.skip(i as int).skip(1) =~= ws.skip(i as int + 1));
            }
            let w = &words[i];
            match parse_int_token(w) {
                Some(v) => {
                    stack.push(v);
                },
                None => {
                    if stack.len() < 2 {
                        return Err(EvalError::StackUnderflow);
                    }
                    match op_of_token(w) {
                        Some(c) => {
                            let y = stack[stack.len() - 1];
                            let x = stack[stack.len() - 2];
                            if (c == '/' || c == '%') && y == 0 {
                                return Err(EvalError::DivisionByZero);
                            }
                            let res = apply_op(c, x, y);
                            let ghost before = stack@;
                            stack.pop();
                            stack.pop();
                            stack.push(res);
                            proof {
                                assert(stack@ =~= before.drop_last().drop_last().push(res));
                            }
                        },
                        None => {
                            return Err(EvalError::InvalidToken { position: i + 1 });
                        },
                    }
                },
            }
            i = i + 1;
        }
        proof {
            assert(ws.skip(i as int) =~= Seq::<Seq<char>>::empty());
        }
        if stack.len() == 1 {
            Ok(stack[0])
        } else {
            Err(EvalError::InvalidSyntax)
        }
    }
}

} // verus!
