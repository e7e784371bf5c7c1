//! The executable interpreter state and its evaluator, proved to match the
//! mathematical evaluator in `semantics`.

use vstd::prelude::*;
use crate::errors::LangError;
use crate::numbers::{parse_int_token, format_i32};
use crate::semantics::{
    StateView, eval_from, eval_line, is_sym, is_word_dup, is_word_swap, is_word_clear, is_word_bye,
    lower_matches, body_of, resume_index, lemma_resume_index_bounds, defined_marker, div_wrapped,
};
use crate::tokenizer::{tokenize, tokens_of};

verus! {

/// How many levels of word expansion one line may nest before evaluation
/// stops with `ExpansionTooDeep`.
pub const MAX_EXPANSION_DEPTH: u32 = 64;

/// The dictionary a list of (name, body) entries denotes. A later entry for
/// the same name wins, so appending an entry acts as insert-or-overwrite.
pub open spec fn dict_view(entries: Seq<(String, String)>) -> Map<Seq<char>, Seq<char>>
    decreases entries.len(),
{
    if entries.len() == 0 {
        Map::empty()
    } else {
        dict_view(entries.drop_last()).insert(entries.last().0@, entries.last().1@)
    }
}

/// Entries at positions `j` and beyond never mention `name`, so the
/// dictionary they build agrees with the one built from the first `j`
/// entries wherever `name` is concerned.
proof fn lemma_dict_view_skip(entries: Seq<(String, String)>, name: Seq<char>, j: int)
    requires
        0 <= j <= entries.len(),
        forall|k: int| j <= k < entries.len() ==> (#[trigger] entries[k]).0@ != name,
    ensures
        dict_view(entries).contains_key(name) == dict_view(entries.take(j)).contains_key(name),
        dict_view(entries).contains_key(name) ==> dict_view(entries)[name] == dict_view(
            entries.take(j),
        )[name],
    decreases entries.len() - j,
{
    if j < entries.len() {
        lemma_dict_view_skip(entries, name, j + 1);
        assert(entries.take(j + 1).drop_last() =~= entries.take(j));
        assert(entries.take(j + 1).last() == entries[j]);
        assert(dict_view(entries.take(j + 1)) == dict_view(entries.take(j)).insert(
            entries[j].0@,
            entries[j].1@,
        ));
    } else {
        assert(entries.take(j) =~= entries);
    }
}

/// The interpreter state: the data stack (bottom-to-top) and the word
/// dictionary, owned together and mutated one line at a time.
pub struct LangState {
    stack: Vec<i32>,
    dictionary: Vec<(String, String)>,
}

impl View for LangState {
    type V = StateView;

    closed spec fn view(&self) -> StateView {
        StateView { stack: self.stack@, dict: dict_view(self.dictionary@) }
    }
}

/// `a` equals the lowercase reference character `c`, directly or as its
/// ASCII capital.
fn char_matches_lower(a: char, c: char) -> (r: bool)
    ensures
        r == lower_matches(a, c),
{
    a == c || ('A' <= a && a <= 'Z' && a as u32 + 32 == c as u32)
}

/// The token is exactly the single character `c`.
fn is_sym_tok(t: &String, c: char) -> (r: bool)
    ensures
        r == is_sym(t@, c),
{
    let s = t.as_str();
    if s.unicode_len() != 1 {
        false
    } else {
        s.get_char(0) == c
    }
}

/// The token spells `dup` in any capitalisation.
fn is_word_dup_tok(t: &String) -> (r: bool)
    ensures
        r == is_word_dup(t@),
{
    let s = t.as_str();
    s.unicode_len() == 3 && char_matches_lower(s.get_char(0), 'd') && char_matches_lower(
        s.get_char(1),
        'u',
    ) && char_matches_lower(s.get_char(2), 'p')
}

/// The token spells `swap` in any capitalisation.
fn is_word_swap_tok(t: &String) -> (r: bool)
    ensures
        r == is_word_swap(t@),
{
    let s = t.as_str();
    s.unicode_len() == 4 && char_matches_lower(s.get_char(0), 's') && char_matches_lower(
        s.get_char(1),
        'w',
    ) && char_matches_lower(s.get_char(2), 'a') && char_matches_lower(s.get_char(3), 'p')
}

/// The token spells `clear` in any capitalisation.
fn is_word_clear_tok(t: &String) -> (r: bool)
    ensures
        r == is_word_clear(t@),
{
    let s = t.as_str();
    s.unicode_len() == 5 && char_matches_lower(s.get_char(0), 'c') && char_matches_lower(
        s.get_char(1),
        'l',
    ) && char_matches_lower(s.get_char(2), 'e') && char_matches_lower(s.get_char(3), 'a')
        && char_matches_lower(s.get_char(4), 'r')
}

/// The token spells `bye` in any capitalisation.
fn is_word_bye_tok(t: &String) -> (r: bool)
    ensures
        r == is_word_bye(t@),
{
    let s = t.as_str();
    s.unicode_len() == 3 && char_matches_lower(s.get_char(0), 'b') && char_matches_lower(
        s.get_char(1),
        'y',
    ) && char_matches_lower(s.get_char(2), 'e')
}

/// Pops the top two values for a binary operator. On underflow the values
/// already popped stay popped, exactly as the evaluator specifies: fewer
/// than two values always leaves the stack empty.
fn pop_two(stack: &mut Vec<i32>) -> (r: Option<(i32, i32)>)
    ensures
        match r {
            Some(p) => old(stack)@.len() >= 2 && p.0 == old(stack)@.last() && p.1 == old(
                stack,
            )@[old(stack)@.len() - 2] && final(stack)@ == old(stack)@.drop_last().drop_last(),
            None => old(stack)@.len() < 2 && final(stack)@ == Seq::<i32>::empty(),
        },
{
    match stack.pop() {
        None => None,
        Some(a) => match stack.pop() {
            None => None,
            Some(b) => Some((a, b)),
        },
    }
}

impl LangState {
    /// A fresh state: an empty stack with room reserved for
    /// `stack_capacity` values, and an empty dictionary.
    pub fn new(stack_capacity: usize) -> (s: Self)
        ensures
            s@.stack == Seq::<i32>::empty(),
            s@.dict == Map::<Seq<char>, Seq<char>>::empty(),
    {
        let s = LangState { stack: Vec::with_capacity(stack_capacity), dictionary: Vec::new() };
        proof {
            assert(dict_view(s.dictionary@) =~= Map::<Seq<char>, Seq<char>>::empty());
        }
        s
    }

    /// Registers `word` with definition body `contents`, overwriting any
    /// earlier definition of the same name. The stack is untouched.
    pub fn add_word(&mut self, word: String, contents: String)
        ensures
            final(self)@.stack == old(self)@.stack,
            final(self)@.dict == old(self)@.dict.insert(word@, contents@),
    {
        let ghost oldd = self.dictionary@;
        self.dictionary.push((word, contents));
        proof {
            assert(self.dictionary@.drop_last() =~= oldd);
            assert(dict_view(self.dictionary@) == dict_view(oldd).insert(
                self.dictionary@.last().0@,
                self.dictionary@.last().1@,
            ));
        }
    }

    /// The stack's current contents, bottom-to-top, for diagnostic display.
    pub fn dump_stack(&self) -> (r: Vec<i32>)
        ensures
            r@ == self@.stack,
    {
        let mut r: Vec<i32> = Vec::new();
        let mut i: usize = 0;
        while i < self.stack.len()
            invariant
                i <= self.stack@.len(),
                r@ == self.stack@.take(i as int),
            decreases self.stack@.len() - i,
        {
            let x = self.stack[i];
            r.push(x);
            proof {
                assert(self.stack@.take(i + 1) =~= self.stack@.take(i as int).push(
                    self.stack@[i as int],
                ));
            }
            i = i + 1;
        }
        proof {
            assert(self.stack@.take(self.stack@.len() as int) =~= self.stack@);
        }
        r
    }

    /// The most recent definition of `name`, if any.
    fn find_def(&self, name: &String) -> (r: Option<String>)
        ensures
            match r {
                Some(b) => self@.dict.contains_key(name@) && b@ == self@.dict[name@],
                None => !self@.dict.contains_key(name@),
            },
    {
        let n = self.dictionary.len();
        let mut j: usize = n;
        while j > 0
            invariant
                j <= n,
                n == self.dictionary@.len(),
                forall|k: int| j <= k < n ==> (#[trigger] self.dictionary@[k]).0@ != name@,
            decreases j,
        {
            j = j - 1;
            let hit = self.dictionary[j].0.eq(name);
            if hit {
                proof {
                    lemma_dict_view_skip(self.dictionary@, name@, j + 1);
                    assert(self.dictionary@.take(j + 1).drop_last() =~= self.dictionary@.take(
                        j as int,
                    ));
                    assert(self.dictionary@.take(j + 1).last() == self.dictionary@[j as int]);
                    assert(dict_view(self.dictionary@.take(j + 1)) == dict_view(
                        self.dictionary@.take(j as int),
                    ).insert(self.dictionary@[j as int].0@, self.dictionary@[j as int].1@));
                }
                return Some(self.dictionary[j].1.clone());
            }
        }
        proof {
            lemma_dict_view_skip(self.dictionary@, name@, 0);
            assert(self.dictionary@.take(0) =~= Seq::<(String, String)>::empty());
        }
        None
    }

    /// Reads one definition from the token stream: the token at `start` is
    /// the new word's name, and the following tokens up to the first `;`
    /// (or the end of the line) are its body, stored verbatim with one
    /// space after each token. A missing name — the stream ends at `start`,
    /// or the terminator stands where the name should — is malformed.
    fn user_define_word(&mut self, toks: &Vec<String>, start: usize) -> (r: Result<
        usize,
        LangError,
    >)
        ensures
            ({
                let tv = toks@.map_values(|t: String| t@);
                match r {
                    Err(e) => {
                        &&& e == LangError::BadWordDefinitionForm
                        &&& (start >= tv.len() || is_sym(tv[start as int], ';'))
                        &&& final(self)@.stack == old(self)@.stack
                        &&& final(self)@.dict == old(self)@.dict
                    },
                    Ok(k) => {
                        &&& start < tv.len()
                        &&& !is_sym(tv[start as int], ';')
                        &&& k == resume_index(tv, start + 1)
                        &&& start + 1 <= k <= tv.len()
                        &&& final(self)@.stack == old(self)@.stack
                        &&& final(self)@.dict == old(self)@.dict.insert(
                            tv[start as int],
                            body_of(tv, start + 1),
                        )
                    },
                }
            }),
    {
        let ghost tv = toks@.map_values(|t: String| t@);
        if start >= toks.len() || is_sym_tok(&toks[start], ';') {
            return Err(LangError::BadWordDefinitionForm);
        }
        let name = toks[start].clone();
        let mut contents = String::new();
        let mut j: usize = start + 1;
        while j < toks.len() && !is_sym_tok(&toks[j], ';')
            invariant
                start + 1 <= j <= toks.len(),
                tv == toks@.map_values(|t: String| t@),
                body_of(tv, start + 1) == contents@ + body_of(tv, j as int),
                resume_index(tv, start + 1) == resume_index(tv, j as int),
            decreases toks.len() - j,
        {
            proof {
                reveal_strlit(" ");
                assert(" "@ =~= seq![' ']);
                assert(body_of(tv, j as int) == tv[j as int] + seq![' '] + body_of(tv, j + 1));
            }
            contents.append(toks[j].as_str());
            contents.append(" ");
            proof {
                assert(contents@ + body_of(tv, j + 1) =~= body_of(tv, start + 1));
            }
            j = j + 1;
        }
        let k: usize = if j < toks.len() {
            j + 1
        } else {
            j
        };
        proof {
            lemma_resume_index_bounds(tv, start + 1);
            assert(contents@ =~= body_of(tv, start + 1));
        }
        self.add_word(name, contents);
        Ok(k)
    }

    /// Evaluates one line with `fuel` levels of word expansion available,
    /// matching the mathematical evaluator exactly: the state afterwards
    /// and the returned output or error are those of `eval_line`.
    fn solve_rec(&mut self, input: &str, fuel: u32) -> (r: Result<String, LangError>)
        ensures
            ({
                let eo = eval_line(old(self)@, input@, fuel as nat);
                &&& final(self)@.stack == eo.state.stack
                &&& final(self)@.dict == eo.state.dict
                &&& match (r, eo.res) {
                    (Ok(s), Ok(o)) => s@ == o,
                    (Err(e1), Err(e2)) => e1 == e2,
                    _ => false,
                }
            }),
        decreases fuel,
    {
        let toks = tokenize(input);
        let ghost tseq = tokens_of(input@);
        let ghost sv0 = self@;
        let mut out = String::new();
        let mut i: usize = 0;
        while i < toks.len()
            invariant
                i <= toks.len(),
                toks@.map_values(|t: String| t@) == tseq,
                toks@.len() == tseq.len(),
                sv0 == old(self)@,
                tseq == tokens_of(input@),
                eval_from(sv0, tseq, 0, Seq::empty(), fuel as nat) == eval_from(
                    self@,
                    tseq,
                    i as int,
                    out@,
                    fuel as nat,
                ),
            decreases toks.len() - i,
        {
            let ghost cur = self@;
            let ghost old_out = out@;
            let tok = &toks[i];
            proof {
                assert(tok@ == tseq[i as int]);
            }
            if let Some(v) = parse_int_token(tok.as_str()) {
                self.stack.push(v);
                proof {
                    assert(eval_from(cur, tseq, i as int, old_out, fuel as nat) == eval_from(
                        self@,
                        tseq,
                        i + 1,
                        old_out,
                        fuel as nat,
                    ));
                }
                i = i + 1;
            } else if is_sym_tok(tok, '+') {
                match pop_two(&mut self.stack) {
                    None => {
                        return Err(LangError::StackUnderflow);
                    },
                    Some((a, b)) => {
                        self.stack.push(b.wrapping_add(a));
                    },
                }
                i = i + 1;
            } else if is_sym_tok(tok, '-') {
                match pop_two(&mut self.stack) {
                    None => {
                        return Err(LangError::StackUnderflow);
                    },
                    Some((a, b)) => {
                        self.stack.push(b.wrapping_sub(a));
                    },
                }
                i = i + 1;
            } else if is_sym_tok(tok, '*') {
                match pop_two(&mut self.stack) {
                    None => {
                        return Err(LangError::StackUnderflow);
                    },
                    Some((a, b)) => {
                        self.stack.push(b.wrapping_mul(a));
                    },
                }
                i = i + 1;
            } else if is_sym_tok(tok, '/') {
                match pop_two(&mut self.stack) {
                    None => {
                        return Err(LangError::StackUnderflow);
                    },
                    Some((a, b)) => {
                        if a == 0 {
                            return Err(LangError::DivisionByZero);
                        }
                        match b.checked_div(a) {
                            Some(q) => {
                                self.stack.push(q);
                            },
                            None => {
                                self.stack.push(i32::MIN);
                            },
                        }
                        proof {
                            assert(self@.stack == cur.stack.drop_last().drop_last().push(
                                div_wrapped(b, a),
                            ));
                        }
                    },
                }
                i = i + 1;
            } else if is_sym_tok(tok, '.') {
                match self.stack.pop() {
                    None => {
                        return Err(LangError::StackUnderflow);
                    },
                    Some(v) => {
                        let text = format_i32(v);
                        out.append(text.as_str());
                        out.append(" ");
                        proof {
                            reveal_strlit(" ");
                            assert(" "@ =~= seq![' ']);
                            assert(out@ =~= old_out + crate::numbers::dec_str_i32(v as int)
                                + seq![' ']);
                        }
                    },
                }
                i = i + 1;
            } else if is_sym_tok(tok, '>') {
                match pop_two(&mut self.stack) {
                    None => {
                        return Err(LangError::StackUnderflow);
                    },
                    Some((a, b)) => {
                        self.stack.push(if b > a { 1i32 } else { 0i32 });
                    },
                }
                i = i + 1;
            } else if is_sym_tok(tok, '<') {
                match pop_two(&mut self.stack) {
                    None => {
                        return Err(LangError::StackUnderflow);
                    },
                    Some((a, b)) => {
                        self.stack.push(if b < a { 1i32 } else { 0i32 });
                    },
                }
                i = i + 1;
            } else if is_sym_tok(tok, '=') {
                match pop_two(&mut self.stack) {
                    None => {
                        return Err(LangError::StackUnderflow);
                    },
                    Some((a, b)) => {
                        self.stack.push(if a == b { 1i32 } else { 0i32 });
                    },
                }
                i = i + 1;
            } else if is_word_dup_tok(tok) {
                if self.stack.len() == 0 {
                    return Err(LangError::StackUnderflow);
                }
                let x = self.stack[self.stack.len() - 1];
                self.stack.push(x);
                proof {
                    assert(self@.stack =~= cur.stack.push(cur.stack.last()));
                }
                i = i + 1;
            } else if is_word_swap_tok(tok) {
                match pop_two(&mut self.stack) {
                    None => {
                        return Err(LangError::StackUnderflow);
                    },
                    Some((a, b)) => {
                        self.stack.push(a);
                        self.stack.push(b);
                    },
                }
                i = i + 1;
            } else if is_word_clear_tok(tok) {
                self.stack.clear();
                i = i + 1;
            } else if is_word_bye_tok(tok) {
                return Err(LangError::TerminateRequested);
            } else if is_sym_tok(tok, ':') {
                match self.user_define_word(&toks, i + 1) {
                    Err(e) => {
                        return Err(e);
                    },
                    Ok(k) => {
                        out = String::new();
                        out.append("defined");
                        proof {
                            reveal_strlit("defined");
                            assert(out@ =~= defined_marker());
                        }
                        i = k;
                    },
                }
            } else {
                match self.find_def(tok) {
                    Some(body) => {
                        if fuel == 0 {
                            return Err(LangError::ExpansionTooDeep);
                        }
                        match self.solve_rec(body.as_str(), fuel - 1) {
                            Ok(o) => {
                                out = o;
                            },
                            Err(e) => {
                                return Err(e);
                            },
                        }
                    },
                    None => {
                        return Err(LangError::NameNotFound);
                    },
                }
                i = i + 1;
            }
        }
        Ok(out)
    }

    /// Evaluates one line of whitespace-separated tokens against this
    /// state, returning the output the line's print tokens produced, or
    /// the error that stopped it. The state afterwards and the result are
    /// exactly those of the mathematical evaluator `eval_line`, run with
    /// `MAX_EXPANSION_DEPTH` levels of word expansion.
    pub fn solve(&mut self, input: &str) -> (r: Result<String, LangError>)
        ensures
            ({
                let eo = eval_line(old(self)@, input@, MAX_EXPANSION_DEPTH as nat);
                &&& final(self)@.stack == eo.state.stack
                &&& final(self)@.dict == eo.state.dict
                &&& match (r, eo.res) {
                    (Ok(s), Ok(o)) => s@ == o,
                    (Err(e1), Err(e2)) => e1 == e2,
                    _ => false,
                }
            }),
    {
        self.solve_rec(input, MAX_EXPANSION_DEPTH)
    }
}

} // verus!
