//! General laws of the evaluator, each proved against the mathematical
//! evaluator that `LangState::solve` is specified by: what one operator
//! line does to any stack, what underflow leaves behind, and how word
//! expansion and printing compose.

use vstd::prelude::*;
use crate::errors::LangError;
use crate::numbers::{
    dec_str_i32, is_int_literal, unsigned_part, lemma_dec_round_trip, lemma_dec_digits_value,
};
use crate::semantics::{
    StateView, EvalOutcome, eval_from, eval_line, is_sym, is_word_dup, is_word_swap, is_word_clear,
    div_wrapped,
};
use crate::tokenizer::{tokens_of, lemma_tokens_of_single, lemma_tokens_of_append};

verus! {

/// A one-character operator token is never classified as a number.
proof fn lemma_sym_not_literal(t: Seq<char>, c: char)
    requires
        is_sym(t, c),
        !('0' <= c && c <= '9'),
    ensures
        !is_int_literal(t),
{
    if c == '+' || c == '-' {
        assert(unsigned_part(t) =~= Seq::<char>::empty());
    } else {
        assert(unsigned_part(t) == t);
        assert(!crate::numbers::is_digit(t[0]));
    }
}

/// Pushing `a` then `b` and evaluating the line `+` leaves one value, the
/// wrapped sum, in their place; when the exact sum fits in an `i32`, the
/// new top is exactly `a + b`. Output stays empty and the dictionary is
/// untouched.
pub proof fn lemma_add_law(sv: StateView, rest: Seq<i32>, a: i32, b: i32, fuel: nat)
    requires
        sv.stack == rest.push(a).push(b),
    ensures
        ({
            let eo = eval_line(sv, seq!['+'], fuel);
            &&& eo.res == Ok::<Seq<char>, LangError>(Seq::<char>::empty())
            &&& eo.state.dict == sv.dict
            &&& eo.state.stack == rest.push(a.wrapping_add(b))
            &&& (i32::MIN <= a as int + b as int <= i32::MAX ==> eo.state.stack.last() as int
                == a as int + b as int)
        }),
{
    let t = seq!['+'];
    lemma_tokens_of_single(t);
    lemma_sym_not_literal(t, '+');
    assert(sv.stack.drop_last().drop_last() =~= rest);
    assert(tokens_of(t) == seq![t]);
    let sv2 = StateView { stack: rest.push(a.wrapping_add(b)), ..sv };
    assert(eval_from(sv2, seq![t], 1, Seq::empty(), fuel) == EvalOutcome {
        state: sv2,
        res: Ok(Seq::<char>::empty()),
    });
    assert(eval_line(sv, t, fuel).state =~= sv2);
}

/// Pushing `a` then `b` and evaluating the line `-` leaves the wrapped
/// difference `a - b`: the value popped first is the subtrahend.
pub proof fn lemma_sub_law(sv: StateView, rest: Seq<i32>, a: i32, b: i32, fuel: nat)
    requires
        sv.stack == rest.push(a).push(b),
    ensures
        ({
            let eo = eval_line(sv, seq!['-'], fuel);
            &&& eo.res == Ok::<Seq<char>, LangError>(Seq::<char>::empty())
            &&& eo.state.dict == sv.dict
            &&& eo.state.stack == rest.push(a.wrapping_sub(b))
            &&& (i32::MIN <= a as int - b as int <= i32::MAX ==> eo.state.stack.last() as int
                == a as int - b as int)
        }),
{
    let t = seq!['-'];
    lemma_tokens_of_single(t);
    lemma_sym_not_literal(t, '-');
    assert(sv.stack.drop_last().drop_last() =~= rest);
    let sv2 = StateView { stack: rest.push(a.wrapping_sub(b)), ..sv };
    assert(eval_from(sv2, seq![t], 1, Seq::empty(), fuel) == EvalOutcome {
        state: sv2,
        res: Ok(Seq::<char>::empty()),
    });
    assert(eval_line(sv, t, fuel).state =~= sv2);
}

/// Pushing `a` then `b` and evaluating the line `*` leaves the wrapped
/// product; when the exact product fits, exactly `a * b`.
pub proof fn lemma_mul_law(sv: StateView, rest: Seq<i32>, a: i32, b: i32, fuel: nat)
    requires
        sv.stack == rest.push(a).push(b),
    ensures
        ({
            let eo = eval_line(sv, seq!['*'], fuel);
            &&& eo.res == Ok::<Seq<char>, LangError>(Seq::<char>::empty())
            &&& eo.state.dict == sv.dict
            &&& eo.state.stack == rest.push(a.wrapping_mul(b))
            &&& (i32::MIN <= a as int * b as int <= i32::MAX ==> eo.state.stack.last() as int
                == a as int * b as int)
        }),
{
    let t = seq!['*'];
    lemma_tokens_of_single(t);
    lemma_sym_not_literal(t, '*');
    assert(sv.stack.drop_last().drop_last() =~= rest);
    let sv2 = StateView { stack: rest.push(a.wrapping_mul(b)), ..sv };
    assert(eval_from(sv2, seq![t], 1, Seq::empty(), fuel) == EvalOutcome {
        state: sv2,
        res: Ok(Seq::<char>::empty()),
    });
    assert(eval_line(sv, t, fuel).state =~= sv2);
}

/// Pushing `a` then `b` (`b` nonzero, popped first as the divisor) and
/// evaluating the line `/` leaves the truncating quotient of `a` by `b`;
/// for non-negative operands that is exactly `a / b`.
pub proof fn lemma_div_law(sv: StateView, rest: Seq<i32>, a: i32, b: i32, fuel: nat)
    requires
        sv.stack == rest.push(a).push(b),
        b != 0,
    ensures
        ({
            let eo = eval_line(sv, seq!['/'], fuel);
            &&& eo.res == Ok::<Seq<char>, LangError>(Seq::<char>::empty())
            &&& eo.state.dict == sv.dict
            &&& eo.state.stack == rest.push(div_wrapped(a, b))
            &&& (a >= 0 && b > 0 ==> eo.state.stack.last() as int == a as int / b as int)
        }),
{
    let t = seq!['/'];
    lemma_tokens_of_single(t);
    lemma_sym_not_literal(t, '/');
    assert(sv.stack.drop_last().drop_last() =~= rest);
    let sv2 = StateView { stack: rest.push(div_wrapped(a, b)), ..sv };
    assert(eval_from(sv2, seq![t], 1, Seq::empty(), fuel) == EvalOutcome {
        state: sv2,
        res: Ok(Seq::<char>::empty()),
    });
    assert(eval_line(sv, t, fuel).state =~= sv2);
    if a >= 0 && b > 0 {
        assert(a as int / b as int <= a as int) by {
            vstd::arithmetic::div_mod::lemma_div_is_ordered_by_denominator(a as int, 1, b as int);
        }
        assert(a as int / b as int >= 0) by {
            vstd::arithmetic::div_mod::lemma_div_pos_is_pos(a as int, b as int);
        }
        assert(div_wrapped(a, b) as int == a as int / b as int);
    }
}

/// A `dup` token (in any capitalisation) on a stack with top `x` pushes a
/// second copy of `x` and changes nothing else.
pub proof fn lemma_dup_law(sv: StateView, rest: Seq<i32>, x: i32, t: Seq<char>, fuel: nat)
    requires
        sv.stack == rest.push(x),
        is_word_dup(t),
    ensures
        ({
            let eo = eval_line(sv, t, fuel);
            &&& eo.res == Ok::<Seq<char>, LangError>(Seq::<char>::empty())
            &&& eo.state.dict == sv.dict
            &&& eo.state.stack == rest.push(x).push(x)
        }),
{
    assert(forall|j: int| 0 <= j < t.len() ==> t[j] != ' ');
    lemma_tokens_of_single(t);
    assert(unsigned_part(t) == t);
    assert(!crate::numbers::is_digit(t[0]));
    let sv2 = StateView { stack: rest.push(x).push(x), ..sv };
    assert(eval_from(sv2, seq![t], 1, Seq::empty(), fuel) == EvalOutcome {
        state: sv2,
        res: Ok(Seq::<char>::empty()),
    });
    assert(eval_line(sv, t, fuel).state =~= sv2);
}

/// A `swap` token (in any capitalisation) on a stack ending `b, a` (top
/// `a`) leaves it ending `a, b`.
pub proof fn lemma_swap_law(sv: StateView, rest: Seq<i32>, b: i32, a: i32, t: Seq<char>, fuel: nat)
    requires
        sv.stack == rest.push(b).push(a),
        is_word_swap(t),
    ensures
        ({
            let eo = eval_line(sv, t, fuel);
            &&& eo.res == Ok::<Seq<char>, LangError>(Seq::<char>::empty())
            &&& eo.state.dict == sv.dict
            &&& eo.state.stack == rest.push(a).push(b)
        }),
{
    assert(forall|j: int| 0 <= j < t.len() ==> t[j] != ' ');
    lemma_tokens_of_single(t);
    assert(unsigned_part(t) == t);
    assert(!crate::numbers::is_digit(t[0]));
    assert(sv.stack.drop_last().drop_last() =~= rest);
    let sv2 = StateView { stack: rest.push(a).push(b), ..sv };
    assert(eval_from(sv2, seq![t], 1, Seq::empty(), fuel) == EvalOutcome {
        state: sv2,
        res: Ok(Seq::<char>::empty()),
    });
    assert(eval_line(sv, t, fuel).state =~= sv2);
}

/// A `clear` token (in any capitalisation) empties the stack whatever it
/// held, succeeds with empty output, and leaves the dictionary alone.
pub proof fn lemma_clear_law(sv: StateView, t: Seq<char>, fuel: nat)
    requires
        is_word_clear(t),
    ensures
        ({
            let eo = eval_line(sv, t, fuel);
            &&& eo.res == Ok::<Seq<char>, LangError>(Seq::<char>::empty())
            &&& eo.state.dict == sv.dict
            &&& eo.state.stack == Seq::<i32>::empty()
        }),
{
    assert(forall|j: int| 0 <= j < t.len() ==> t[j] != ' ');
    lemma_tokens_of_single(t);
    assert(unsigned_part(t) == t);
    assert(!crate::numbers::is_digit(t[0]));
    let sv2 = StateView { stack: Seq::<i32>::empty(), ..sv };
    assert(eval_from(sv2, seq![t], 1, Seq::empty(), fuel) == EvalOutcome {
        state: sv2,
        res: Ok(Seq::<char>::empty()),
    });
    assert(eval_line(sv, t, fuel).state =~= sv2);
}

/// A comparison line (`>`, `<` or `=`) on a stack with at least two values
/// pops both and pushes exactly `1` when the comparison holds and exactly
/// `0` when it does not — never any other value.
pub proof fn lemma_comparison_law(sv: StateView, rest: Seq<i32>, a: i32, b: i32, c: char, fuel: nat)
    requires
        sv.stack == rest.push(a).push(b),
        c == '>' || c == '<' || c == '=',
    ensures
        ({
            let eo = eval_line(sv, seq![c], fuel);
            let hit = if c == '>' {
                a > b
            } else if c == '<' {
                a < b
            } else {
                a == b
            };
            &&& eo.res == Ok::<Seq<char>, LangError>(Seq::<char>::empty())
            &&& eo.state.dict == sv.dict
            &&& eo.state.stack == rest.push(if hit { 1i32 } else { 0i32 })
            &&& (eo.state.stack.last() == 0 || eo.state.stack.last() == 1)
        }),
{
    let t = seq![c];
    lemma_tokens_of_single(t);
    lemma_sym_not_literal(t, c);
    assert(sv.stack.drop_last().drop_last() =~= rest);
    let hit = if c == '>' {
        a > b
    } else if c == '<' {
        a < b
    } else {
        a == b
    };
    let sv2 = StateView { stack: rest.push(if hit { 1i32 } else { 0i32 }), ..sv };
    assert(eval_from(sv2, seq![t], 1, Seq::empty(), fuel) == EvalOutcome {
        state: sv2,
        res: Ok(Seq::<char>::empty()),
    });
    assert(eval_line(sv, t, fuel).state =~= sv2);
}

/// Any stack-consuming token on an empty stack fails with `StackUnderflow`
/// and leaves the state exactly as it was: the stack still empty, the
/// dictionary untouched.
pub proof fn lemma_underflow_law(sv: StateView, t: Seq<char>, fuel: nat)
    requires
        sv.stack == Seq::<i32>::empty(),
        is_sym(t, '+') || is_sym(t, '-') || is_sym(t, '*') || is_sym(t, '/') || is_sym(t, '.')
            || is_sym(t, '>') || is_sym(t, '<') || is_sym(t, '=') || is_word_dup(t) || is_word_swap(
            t,
        ),
    ensures
        eval_line(sv, t, fuel).res == Err::<Seq<char>, LangError>(LangError::StackUnderflow),
        eval_line(sv, t, fuel).state == sv,
{
    assert(forall|j: int| 0 <= j < t.len() ==> t[j] != ' ') by {
        if t.len() == 1 {
            assert(t[0] != ' ');
        }
    }
    lemma_tokens_of_single(t);
    if t.len() == 1 {
        if t[0] == '-' || t[0] == '+' {
            assert(unsigned_part(t) =~= Seq::<char>::empty());
        } else {
            assert(unsigned_part(t) == t);
            assert(!crate::numbers::is_digit(t[0]));
        }
    } else {
        assert(unsigned_part(t) == t);
        assert(!crate::numbers::is_digit(t[0]));
    }
    assert(StateView { stack: Seq::<i32>::empty(), ..sv } =~= sv);
}

/// Expanding a line that consists of one defined word is exactly
/// evaluating that word's stored body, with one level of expansion fuel
/// spent. The word must not look like a number or any built-in token,
/// which would shadow the dictionary.
pub proof fn lemma_word_expansion_law(sv: StateView, name: Seq<char>, fuel: nat)
    requires
        fuel > 0,
        sv.dict.contains_key(name),
        name.len() > 0,
        forall|j: int| 0 <= j < name.len() ==> name[j] != ' ',
        !is_int_literal(name),
        !is_sym(name, '+'),
        !is_sym(name, '-'),
        !is_sym(name, '*'),
        !is_sym(name, '/'),
        !is_sym(name, '.'),
        !is_sym(name, '>'),
        !is_sym(name, '<'),
        !is_sym(name, '='),
        !is_word_dup(name),
        !is_word_swap(name),
        !is_word_clear(name),
        !crate::semantics::is_word_bye(name),
        !is_sym(name, ':'),
    ensures
        eval_line(sv, name, fuel) == eval_line(sv, sv.dict[name], (fuel - 1) as nat),
{
    lemma_tokens_of_single(name);
    let inner = eval_line(sv, sv.dict[name], (fuel - 1) as nat);
    match inner.res {
        Ok(o) => {
            assert(eval_from(inner.state, seq![name], 1, o, fuel) == EvalOutcome {
                state: inner.state,
                res: Ok(o),
            });
            assert(eval_line(sv, name, fuel) =~= inner);
        },
        Err(e) => {
            assert(eval_line(sv, name, fuel) =~= inner);
        },
    }
}

/// The evaluator never raises `BadNumberParse`: classification attempts
/// the integer parse exactly once, so the defensive error variant is
/// unreachable from any state, line position and fuel.
pub proof fn lemma_no_bad_number_parse(
    sv: StateView,
    toks: Seq<Seq<char>>,
    i: int,
    out: Seq<char>,
    fuel: nat,
)
    requires
        0 <= i <= toks.len(),
    ensures
        eval_from(sv, toks, i, out, fuel).res != Err::<Seq<char>, LangError>(
            LangError::BadNumberParse,
        ),
    decreases fuel, toks.len() - i,
{
    if i < toks.len() {
        let t = toks[i];
        if is_int_literal(t) {
            let sv2 = StateView { stack: sv.stack.push(crate::numbers::literal_value(t)), ..sv };
            lemma_no_bad_number_parse(sv2, toks, i + 1, out, fuel);
        } else if is_sym(t, '+') || is_sym(t, '-') || is_sym(t, '*') || is_sym(t, '/') || is_sym(
            t,
            '>',
        ) || is_sym(t, '<') || is_sym(t, '=') || is_word_swap(t) {
            if sv.stack.len() >= 2 {
                let a = sv.stack.last();
                let b = sv.stack[sv.stack.len() - 2];
                let rest = sv.stack.drop_last().drop_last();
                let top = if is_sym(t, '+') {
                    b.wrapping_add(a)
                } else if is_sym(t, '-') {
                    b.wrapping_sub(a)
                } else if is_sym(t, '*') {
                    b.wrapping_mul(a)
                } else if is_sym(t, '/') {
                    div_wrapped(b, a)
                } else if is_sym(t, '>') {
                    if b > a { 1i32 } else { 0i32 }
                } else if is_sym(t, '<') {
                    if b < a { 1i32 } else { 0i32 }
                } else if is_sym(t, '=') {
                    if a == b { 1i32 } else { 0i32 }
                } else {
                    a
                };
                if is_word_swap(t) {
                    lemma_no_bad_number_parse(
                        StateView { stack: rest.push(a).push(b), ..sv },
                        toks,
                        i + 1,
                        out,
                        fuel,
                    );
                } else {
                    lemma_no_bad_number_parse(
                        StateView { stack: rest.push(top), ..sv },
                        toks,
                        i + 1,
                        out,
                        fuel,
                    );
                }
            }
        } else if is_sym(t, '.') {
            if sv.stack.len() > 0 {
                lemma_no_bad_number_parse(
                    StateView { stack: sv.stack.drop_last(), ..sv },
                    toks,
                    i + 1,
                    out + dec_str_i32(sv.stack.last() as int) + seq![' '],
                    fuel,
                );
            }
        } else if is_word_dup(t) {
            if sv.stack.len() > 0 {
                lemma_no_bad_number_parse(
                    StateView { stack: sv.stack.push(sv.stack.last()), ..sv },
                    toks,
                    i + 1,
                    out,
                    fuel,
                );
            }
        } else if is_word_clear(t) {
            lemma_no_bad_number_parse(
                StateView { stack: Seq::<i32>::empty(), ..sv },
                toks,
                i + 1,
                out,
                fuel,
            );
        } else if crate::semantics::is_word_bye(t) {
            // Stops with TerminateRequested, a different variant.
        } else if is_sym(t, ':') {
            if i + 1 >= toks.len() || is_sym(toks[i + 1], ';') {
                // Stops with BadWordDefinitionForm, a different variant.
            } else {
                let name = toks[i + 1];
                let body = crate::semantics::body_of(toks, i + 2);
                let k = crate::semantics::resume_index(toks, i + 2);
                crate::semantics::lemma_resume_index_bounds(toks, i + 2);
                lemma_no_bad_number_parse(
                    StateView { dict: sv.dict.insert(name, body), ..sv },
                    toks,
                    k,
                    crate::semantics::defined_marker(),
                    fuel,
                );
            }
        } else if sv.dict.contains_key(t) {
            if fuel > 0 {
                let inner = eval_from(sv, tokens_of(sv.dict[t]), 0, Seq::empty(), (fuel - 1) as nat);
                lemma_no_bad_number_parse(
                    sv,
                    tokens_of(sv.dict[t]),
                    0,
                    Seq::empty(),
                    (fuel - 1) as nat,
                );
                match inner.res {
                    Ok(o) => {
                        lemma_no_bad_number_parse(inner.state, toks, i + 1, o, fuel);
                    },
                    Err(e) => {},
                }
            }
        }
    }
}

/// Printing a freshly pushed literal reproduces its canonical decimal
/// text: the line `<v> .` succeeds with output `<v> ` (the value's text
/// and one space) and returns the stack to exactly what it was.
pub proof fn lemma_print_round_trip_law(sv: StateView, v: i32, fuel: nat)
    ensures
        ({
            let text = dec_str_i32(v as int);
            let eo = eval_line(sv, text + seq![' '] + seq!['.'], fuel);
            &&& eo.res == Ok::<Seq<char>, LangError>(text + seq![' '])
            &&& eo.state.stack == sv.stack
            &&& eo.state.dict == sv.dict
        }),
{
    let text = dec_str_i32(v as int);
    lemma_dec_round_trip(v);
    if v < 0 {
        lemma_dec_digits_value((-(v as int)) as nat);
        assert(forall|j: int| 0 <= j < text.len() ==> text[j] != ' ');
    } else {
        lemma_dec_digits_value(v as nat);
        assert(forall|j: int| 0 <= j < text.len() ==> text[j] != ' ');
    }
    lemma_tokens_of_append(text, seq!['.']);
    lemma_tokens_of_single(text);
    let toks = tokens_of(text + seq![' '] + seq!['.']);
    assert(toks == seq![text].push(seq!['.']));
    assert(toks.len() == 2);
    assert(toks[0] == text);
    assert(toks[1] == seq!['.']);
    let sv1 = StateView { stack: sv.stack.push(v), ..sv };
    assert(eval_from(sv, toks, 0, Seq::empty(), fuel) == eval_from(
        sv1,
        toks,
        1,
        Seq::empty(),
        fuel,
    ));
    lemma_sym_not_literal(seq!['.'], '.');
    assert(sv1.stack.len() > 0);
    assert(sv1.stack.last() == v);
    assert(sv1.stack.drop_last() =~= sv.stack);
    let out2 = Seq::<char>::empty() + text + seq![' '];
    assert(eval_from(sv1, toks, 1, Seq::empty(), fuel) == eval_from(
        StateView { stack: sv.stack, ..sv1 },
        toks,
        2,
        out2,
        fuel,
    ));
    assert(eval_from(StateView { stack: sv.stack, ..sv1 }, toks, 2, out2, fuel) == EvalOutcome {
        state: StateView { stack: sv.stack, ..sv1 },
        res: Ok(out2),
    });
    assert(out2 =~= text + seq![' ']);
    assert(StateView { stack: sv.stack, ..sv1 } =~= sv);
}

} // verus!

