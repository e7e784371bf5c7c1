//! The mathematical evaluator: what one line of tokens does to an
//! interpreter state.
//!
//! `eval_from` walks a token sequence left to right exactly as the
//! executable dispatcher does: numeric classification first, then the
//! built-in operators and keywords (matched case-insensitively), then the
//! word dictionary (matched case-sensitively), and an unknown-name error
//! last. Word expansion re-evaluates the stored body under a fuel bound,
//! which decreases on every expansion and makes the recursion well-founded.

use vstd::prelude::*;
use crate::errors::LangError;
use crate::numbers::{is_int_literal, literal_value, dec_str_i32};
use crate::tokenizer::tokens_of;

verus! {

/// The abstract value of an interpreter state: the data stack
/// (bottom-to-top) and the word dictionary.
#[verifier::ext_equal]
pub struct StateView {
    pub stack: Seq<i32>,
    pub dict: Map<Seq<char>, Seq<char>>,
}

/// What evaluating (part of) a line yields: the state after the last token
/// acted on, and either the accumulated output or the error that stopped
/// evaluation. Mutations made before a failing token are kept, exactly as
/// the in-place interpreter keeps them.
#[verifier::ext_equal]
pub struct EvalOutcome {
    pub state: StateView,
    pub res: Result<Seq<char>, LangError>,
}

/// Case-insensitive match of one character against a lowercase reference
/// character: equal outright, or an ASCII capital folding onto it.
pub open spec fn lower_matches(a: char, b: char) -> bool {
    a == b || ('A' <= a && a <= 'Z' && a as int + 32 == b as int)
}

/// The token is the single character `c`.
pub open spec fn is_sym(t: Seq<char>, c: char) -> bool {
    t.len() == 1 && t[0] == c
}

/// The token spells `dup`, in any capitalisation.
pub open spec fn is_word_dup(t: Seq<char>) -> bool {
    t.len() == 3 && lower_matches(t[0], 'd') && lower_matches(t[1], 'u') && lower_matches(
        t[2],
        'p',
    )
}

/// The token spells `swap`, in any capitalisation.
pub open spec fn is_word_swap(t: Seq<char>) -> bool {
    t.len() == 4 && lower_matches(t[0], 's') && lower_matches(t[1], 'w') && lower_matches(
        t[2],
        'a',
    ) && lower_matches(t[3], 'p')
}

/// The token spells `clear`, in any capitalisation.
pub open spec fn is_word_clear(t: Seq<char>) -> bool {
    t.len() == 5 && lower_matches(t[0], 'c') && lower_matches(t[1], 'l') && lower_matches(
        t[2],
        'e',
    ) && lower_matches(t[3], 'a') && lower_matches(t[4], 'r')
}

/// The token spells `bye`, in any capitalisation.
pub open spec fn is_word_bye(t: Seq<char>) -> bool {
    t.len() == 3 && lower_matches(t[0], 'b') && lower_matches(t[1], 'y') && lower_matches(
        t[2],
        'e',
    )
}

/// The output marker a successful definition leaves.
pub open spec fn defined_marker() -> Seq<char> {
    seq!['d', 'e', 'f', 'i', 'n', 'e', 'd']
}

/// Truncating `i32` division of `b` by `a`, wrapping on the single
/// overflowing pair (`i32::MIN / -1`).
pub open spec fn div_wrapped(b: i32, a: i32) -> i32
    recommends
        a != 0,
{
    match b.checked_div(a) {
        Some(q) => q,
        None => i32::MIN,
    }
}

/// The body text a definition stores: every token from position `j` up to
/// but excluding the first `;`, each followed by one space.
pub open spec fn body_of(toks: Seq<Seq<char>>, j: int) -> Seq<char>
    decreases toks.len() - j,
    when 0 <= j <= toks.len()
{
    if j >= toks.len() {
        Seq::empty()
    } else if is_sym(toks[j], ';') {
        Seq::empty()
    } else {
        toks[j] + seq![' '] + body_of(toks, j + 1)
    }
}

/// Where evaluation resumes after a definition that started collecting at
/// position `j`: one past the first `;`, or the end of the line if no `;`
/// follows.
pub open spec fn resume_index(toks: Seq<Seq<char>>, j: int) -> int
    decreases toks.len() - j,
    when 0 <= j <= toks.len()
{
    if j >= toks.len() {
        toks.len() as int
    } else if is_sym(toks[j], ';') {
        j + 1
    } else {
        resume_index(toks, j + 1)
    }
}

/// The resume position lies between the collection start and line end.
pub proof fn lemma_resume_index_bounds(toks: Seq<Seq<char>>, j: int)
    requires
        0 <= j <= toks.len(),
    ensures
        j <= resume_index(toks, j) <= toks.len(),
    decreases toks.len() - j,
{
    if j < toks.len() && !is_sym(toks[j], ';') {
        lemma_resume_index_bounds(toks, j + 1);
    }
}

/// One line of tokens, evaluated from position `i` with accumulated output
/// `out`. `fuel` bounds the nesting depth of word expansion.
pub open spec fn eval_from(
    sv: StateView,
    toks: Seq<Seq<char>>,
    i: int,
    out: Seq<char>,
    fuel: nat,
) -> EvalOutcome
    decreases fuel, toks.len() - i,
    when 0 <= i <= toks.len()
    via eval_from_decreases
{
    if i >= toks.len() {
        EvalOutcome { state: sv, res: Ok(out) }
    } else {
        let t = toks[i];
        if is_int_literal(t) {
            eval_from(
                StateView { stack: sv.stack.push(literal_value(t)), ..sv },
                toks,
                i + 1,
                out,
                fuel,
            )
        } else if is_sym(t, '+') {
            if sv.stack.len() < 2 {
                EvalOutcome {
                    state: StateView { stack: Seq::empty(), ..sv },
                    res: Err(LangError::StackUnderflow),
                }
            } else {
                let a = sv.stack.last();
                let b = sv.stack[sv.stack.len() - 2];
                eval_from(
                    StateView {
                        stack: sv.stack.drop_last().drop_last().push(b.wrapping_add(a)),
                        ..sv
                    },
                    toks,
                    i + 1,
                    out,
                    fuel,
                )
            }
        } else if is_sym(t, '-') {
            if sv.stack.len() < 2 {
                EvalOutcome {
                    state: StateView { stack: Seq::empty(), ..sv },
                    res: Err(LangError::StackUnderflow),
                }
            } else {
                let a = sv.stack.last();
                let b = sv.stack[sv.stack.len() - 2];
                eval_from(
                    StateView {
                        stack: sv.stack.drop_last().drop_last().push(b.wrapping_sub(a)),
                        ..sv
                    },
                    toks,
                    i + 1,
                    out,
                    fuel,
                )
            }
        } else if is_sym(t, '*') {
            if sv.stack.len() < 2 {
                EvalOutcome {
                    state: StateView { stack: Seq::empty(), ..sv },
                    res: Err(LangError::StackUnderflow),
                }
            } else {
                let a = sv.stack.last();
                let b = sv.stack[sv.stack.len() - 2];
                eval_from(
                    StateView {
                        stack: sv.stack.drop_last().drop_last().push(b.wrapping_mul(a)),
                        ..sv
                    },
                    toks,
                    i + 1,
                    out,
                    fuel,
                )
            }
        } else if is_sym(t, '/') {
            if sv.stack.len() < 2 {
                EvalOutcome {
                    state: StateView { stack: Seq::empty(), ..sv },
                    res: Err(LangError::StackUnderflow),
                }
            } else {
                let a = sv.stack.last();
                let b = sv.stack[sv.stack.len() - 2];
                if a == 0 {
                    EvalOutcome {
                        state: StateView { stack: sv.stack.drop_last().drop_last(), ..sv },
                        res: Err(LangError::DivisionByZero),
                    }
                } else {
                    eval_from(
                        StateView {
                            stack: sv.stack.drop_last().drop_last().push(div_wrapped(b, a)),
                            ..sv
                        },
                        toks,
                        i + 1,
                        out,
                        fuel,
                    )
                }
            }
        } else if is_sym(t, '.') {
            if sv.stack.len() == 0 {
                EvalOutcome { state: sv, res: Err(LangError::StackUnderflow) }
            } else {
                let v = sv.stack.last();
                eval_from(
                    StateView { stack: sv.stack.drop_last(), ..sv },
                    toks,
                    i + 1,
                    out + dec_str_i32(v as int) + seq![' '],
                    fuel,
                )
            }
        } else if is_sym(t, '>') {
            if sv.stack.len() < 2 {
                EvalOutcome {
                    state: StateView { stack: Seq::empty(), ..sv },
                    res: Err(LangError::StackUnderflow),
                }
            } else {
                let a = sv.stack.last();
                let b = sv.stack[sv.stack.len() - 2];
                eval_from(
                    StateView {
                        stack: sv.stack.drop_last().drop_last().push(if b > a { 1i32 } else { 0i32 }),
                        ..sv
                    },
                    toks,
                    i + 1,
                    out,
                    fuel,
                )
            }
        } else if is_sym(t, '<') {
            if sv.stack.len() < 2 {
                EvalOutcome {
                    state: StateView { stack: Seq::empty(), ..sv },
                    res: Err(LangError::StackUnderflow),
                }
            } else {
                let a = sv.stack.last();
                let b = sv.stack[sv.stack.len() - 2];
                eval_from(
                    StateView {
                        stack: sv.stack.drop_last().drop_last().push(if b < a { 1i32 } else { 0i32 }),
                        ..sv
                    },
                    toks,
                    i + 1,
                    out,
                    fuel,
                )
            }
        } else if is_sym(t, '=') {
            if sv.stack.len() < 2 {
                EvalOutcome {
                    state: StateView { stack: Seq::empty(), ..sv },
                    res: Err(LangError::StackUnderflow),
                }
            } else {
                let a = sv.stack.last();
                let b = sv.stack[sv.stack.len() - 2];
                eval_from(
                    StateView {
                        stack: sv.stack.drop_last().drop_last().push(if a == b { 1i32 } else { 0i32 }),
                        ..sv
                    },
                    toks,
                    i + 1,
                    out,
                    fuel,
                )
            }
        } else if is_word_dup(t) {
            if sv.stack.len() == 0 {
                EvalOutcome { state: sv, res: Err(LangError::StackUnderflow) }
            } else {
                eval_from(
                    StateView { stack: sv.stack.push(sv.stack.last()), ..sv },
                    toks,
                    i + 1,
                    out,
                    fuel,
                )
            }
        } else if is_word_swap(t) {
            if sv.stack.len() < 2 {
                EvalOutcome {
                    state: StateView { stack: Seq::empty(), ..sv },
                    res: Err(LangError::StackUnderflow),
                }
            } else {
                let a = sv.stack.last();
                let b = sv.stack[sv.stack.len() - 2];
                eval_from(
                    StateView { stack: sv.stack.drop_last().drop_last().push(a).push(b), ..sv },
                    toks,
                    i + 1,
                    out,
                    fuel,
                )
            }
        } else if is_word_clear(t) {
            eval_from(StateView { stack: Seq::empty(), ..sv }, toks, i + 1, out, fuel)
        } else if is_word_bye(t) {
            EvalOutcome { state: sv, res: Err(LangError::TerminateRequested) }
        } else if is_sym(t, ':') {
            if i + 1 >= toks.len() || is_sym(toks[i + 1], ';') {
                EvalOutcome { state: sv, res: Err(LangError::BadWordDefinitionForm) }
            } else {
                let name = toks[i + 1];
                let body = body_of(toks, i + 2);
                let k = resume_index(toks, i + 2);
                eval_from(
                    StateView { dict: sv.dict.insert(name, body), ..sv },
                    toks,
                    k,
                    defined_marker(),
                    fuel,
                )
            }
        } else if sv.dict.contains_key(t) {
            if fuel == 0 {
                EvalOutcome { state: sv, res: Err(LangError::ExpansionTooDeep) }
            } else {
                let inner = eval_from(
                    sv,
                    tokens_of(sv.dict[t]),
                    0,
                    Seq::empty(),
                    (fuel - 1) as nat,
                );
                match inner.res {
                    Ok(o) => eval_from(inner.state, toks, i + 1, o, fuel),
                    Err(e) => EvalOutcome { state: inner.state, res: Err(e) },
                }
            }
        } else {
            EvalOutcome { state: sv, res: Err(LangError::NameNotFound) }
        }
    }
}

#[via_fn]
proof fn eval_from_decreases(sv: StateView, toks: Seq<Seq<char>>, i: int, out: Seq<char>, fuel: nat) {
    if 0 <= i && i < toks.len() {
        if is_sym(toks[i], ':') && i + 1 < toks.len() && !is_sym(toks[i + 1], ';') {
            lemma_resume_index_bounds(toks, i + 2);
        }
    }
}

/// Evaluating one whole line: tokenize, then run from the first token with
/// an empty output buffer.
pub open spec fn eval_line(sv: StateView, line: Seq<char>, fuel: nat) -> EvalOutcome {
    eval_from(sv, tokens_of(line), 0, Seq::empty(), fuel)
}

} // verus!
