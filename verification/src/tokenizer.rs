//! Splitting an input line into whitespace-separated tokens.
//!
//! `split_all` mirrors splitting on every single space, which yields empty
//! pieces between adjacent spaces; `tokens_of` keeps only the non-empty
//! pieces, which is the token stream the evaluator consumes.

use vstd::prelude::*;

verus! {

/// The pieces of `s` split on every single space character, in order.
/// An empty input yields one empty piece, and each space ends a piece,
/// so pieces between adjacent spaces are empty.
pub open spec fn split_all(s: Seq<char>) -> Seq<Seq<char>>
    decreases s.len(),
{
    if s.len() == 0 {
        seq![Seq::<char>::empty()]
    } else {
        let prev = split_all(s.drop_last());
        if s.last() == ' ' {
            prev.push(Seq::<char>::empty())
        } else {
            prev.update(prev.len() - 1, prev.last().push(s.last()))
        }
    }
}

/// The tokens of one input line: its non-empty space-separated pieces.
pub open spec fn tokens_of(s: Seq<char>) -> Seq<Seq<char>> {
    split_all(s).filter(|t: Seq<char>| t.len() > 0)
}

/// Splitting always yields at least one piece.
pub proof fn lemma_split_all_len(s: Seq<char>)
    ensures
        split_all(s).len() >= 1,
    decreases s.len(),
{
    if s.len() > 0 {
        lemma_split_all_len(s.drop_last());
    }
}

/// A line with no spaces splits into itself as its only piece.
pub proof fn lemma_split_all_single(t: Seq<char>)
    requires
        forall|j: int| 0 <= j < t.len() ==> t[j] != ' ',
    ensures
        split_all(t) == seq![t],
    decreases t.len(),
{
    if t.len() == 0 {
        assert(t =~= Seq::<char>::empty());
        assert(split_all(t) =~= seq![t]);
    } else {
        lemma_split_all_single(t.drop_last());
        assert(t.last() != ' ');
        assert(t.drop_last().push(t.last()) =~= t);
        assert(split_all(t) =~= seq![t]);
    }
}

/// A non-empty line with no spaces is one single token.
pub proof fn lemma_tokens_of_single(t: Seq<char>)
    requires
        t.len() > 0,
        forall|j: int| 0 <= j < t.len() ==> t[j] != ' ',
    ensures
        tokens_of(t) == seq![t],
{
    lemma_split_all_single(t);
    assert(seq![t] =~= Seq::<Seq<char>>::empty().push(t));
    Seq::<Seq<char>>::empty().lemma_filter_push(t, |x: Seq<char>| x.len() > 0);
    assert(Seq::<Seq<char>>::empty().filter(|x: Seq<char>| x.len() > 0) =~= Seq::<
        Seq<char>,
    >::empty());
    assert(tokens_of(t) == seq![t]);
}

/// Appending non-space characters extends the final piece.
pub proof fn lemma_split_all_extend(u: Seq<char>, w: Seq<char>)
    requires
        forall|j: int| 0 <= j < w.len() ==> w[j] != ' ',
    ensures
        split_all(u + w) == split_all(u).update(
            split_all(u).len() - 1,
            split_all(u).last() + w,
        ),
    decreases w.len(),
{
    lemma_split_all_len(u);
    let p = split_all(u);
    if w.len() == 0 {
        assert(u + w =~= u);
        assert(p.last() + w =~= p.last());
        assert(p.update(p.len() - 1, p.last()) =~= p);
    } else {
        assert(forall|j: int| 0 <= j < w.drop_last().len() ==> w.drop_last()[j] != ' ');
        lemma_split_all_extend(u, w.drop_last());
        let q = split_all(u + w.drop_last());
        assert((u + w).drop_last() =~= u + w.drop_last());
        assert((u + w).last() == w.last());
        assert(w.last() != ' ');
        assert(q.len() == p.len());
        assert(q.last() == p.last() + w.drop_last());
        assert((p.last() + w.drop_last()).push(w.last()) =~= p.last() + w);
        assert(split_all(u + w) == q.update(q.len() - 1, q.last().push(w.last())));
        assert(split_all(u + w) =~= p.update(p.len() - 1, p.last() + w));
    }
}

/// A space followed by one more space-free token adds that token at the end.
pub proof fn lemma_tokens_of_append(s: Seq<char>, t: Seq<char>)
    requires
        t.len() > 0,
        forall|j: int| 0 <= j < t.len() ==> t[j] != ' ',
    ensures
        tokens_of(s + seq![' '] + t) == tokens_of(s).push(t),
{
    lemma_split_all_len(s);
    let p = split_all(s);
    let sp = s + seq![' '];
    assert(sp.drop_last() =~= s);
    assert(sp.last() == ' ');
    assert(split_all(sp) == p.push(Seq::<char>::empty()));
    lemma_split_all_extend(sp, t);
    let p2 = split_all(sp);
    assert(Seq::<char>::empty() + t =~= t);
    assert(p2.update(p2.len() - 1, t) =~= p.push(t));
    assert(sp + t =~= s + seq![' '] + t);
    assert(split_all(s + seq![' '] + t) == p.push(t));
    p.lemma_filter_push(t, |x: Seq<char>| x.len() > 0);
    assert(tokens_of(s + seq![' '] + t) == tokens_of(s).push(t));
}

/// Splits a line into its non-empty tokens, left to right.
pub fn tokenize(input: &str) -> (toks: Vec<String>)
    ensures
        toks@.map_values(|t: String| t@) == tokens_of(input@),
{
    let n = input.unicode_len();
    let mut toks: Vec<String> = Vec::new();
    let mut start: usize = 0;
    let mut i: usize = 0;
    proof {
        assert(input@.subrange(0, 0) =~= Seq::<char>::empty());
        assert(toks@.map_values(|t: String| t@) =~= split_all(Seq::<char>::empty()).drop_last().filter(
            |t: Seq<char>| t.len() > 0));
    }
    while i < n
        invariant
            start <= i <= n,
            n == input@.len(),
            split_all(input@.subrange(0, i as int)).len() >= 1,
            split_all(input@.subrange(0, i as int)).last() == input@.subrange(
                start as int,
                i as int,
            ),
            toks@.map_values(|t: String| t@) == split_all(
                input@.subrange(0, i as int),
            ).drop_last().filter(|t: Seq<char>| t.len() > 0),
        decreases n - i,
    {
        let ghost prefix = input@.subrange(0, i as int);
        let ghost pieces = split_all(prefix);
        let c = input.get_char(i);
        proof {
            assert(input@.subrange(0, i + 1).drop_last() =~= prefix);
            assert(input@.subrange(0, i + 1).last() == input@[i as int]);
            lemma_split_all_len(prefix);
        }
        if c == ' ' {
            let ghost pieces2 = split_all(input@.subrange(0, i + 1));
            proof {
                assert(pieces2 =~= pieces.push(Seq::<char>::empty()));
                assert(pieces2.drop_last() =~= pieces);
            }
            if start < i {
                let piece = input.substring_char(start, i);
                let owned = piece.to_owned();
                proof {
                    assert(pieces.last().len() > 0);
                    assert(pieces =~= pieces.drop_last().push(pieces.last()));
                    pieces.drop_last().lemma_filter_push(pieces.last(), |t: Seq<char>| t.len() > 0);
                    assert(pieces.drop_last().push(pieces.last()).filter(
                        |t: Seq<char>| t.len() > 0) == pieces.drop_last().filter(
                        |t: Seq<char>| t.len() > 0).push(pieces.last()));
                }
                let ghost old_toks = toks@;
                toks.push(owned);
                proof {
                    assert(toks@.map_values(|t: String| t@) =~= old_toks.map_values(
                        |t: String| t@).push(pieces.last()));
                }
            } else {
                proof {
                    assert(pieces.last().len() == 0);
                    assert(pieces =~= pieces.drop_last().push(pieces.last()));
                    pieces.drop_last().lemma_filter_push(pieces.last(), |t: Seq<char>| t.len() > 0);
                    assert(pieces.drop_last().push(pieces.last()).filter(
                        |t: Seq<char>| t.len() > 0) == pieces.drop_last().filter(
                        |t: Seq<char>| t.len() > 0));
                }
            }
            start = i + 1;
            proof {
                assert(pieces2.last() =~= input@.subrange(i + 1, i + 1));
            }
        } else {
            let ghost pieces2 = split_all(input@.subrange(0, i + 1));
            proof {
                assert(pieces2 =~= pieces.update(pieces.len() - 1, pieces.last().push(
                    input@[i as int])));
                assert(pieces2.drop_last() =~= pieces.drop_last());
                assert(pieces2.last() =~= input@.subrange(start as int, i + 1));
            }
        }
        i = i + 1;
    }
    let ghost pieces = split_all(input@);
    proof {
        assert(input@.subrange(0, n as int) =~= input@);
        lemma_split_all_len(input@);
    }
    if start < n {
        let piece = input.substring_char(start, n);
        let owned = piece.to_owned();
        proof {
            assert(pieces.last().len() > 0);
            assert(pieces =~= pieces.drop_last().push(pieces.last()));
            pieces.drop_last().lemma_filter_push(pieces.last(), |t: Seq<char>| t.len() > 0);
            assert(pieces.drop_last().push(pieces.last()).filter(|t: Seq<char>| t.len() > 0)
                == pieces.drop_last().filter(|t: Seq<char>| t.len() > 0).push(pieces.last()));
        }
        let ghost old_toks = toks@;
        toks.push(owned);
        proof {
            assert(toks@.map_values(|t: String| t@) =~= old_toks.map_values(|t: String| t@).push(
                pieces.last()));
        }
    } else {
        proof {
            assert(pieces.last().len() == 0);
            assert(pieces =~= pieces.drop_last().push(pieces.last()));
            pieces.drop_last().lemma_filter_push(pieces.last(), |t: Seq<char>| t.len() > 0);
            assert(pieces.drop_last().push(pieces.last()).filter(|t: Seq<char>| t.len() > 0)
                == pieces.drop_last().filter(|t: Seq<char>| t.len() > 0));
        }
    }
    toks
}

} // verus!
