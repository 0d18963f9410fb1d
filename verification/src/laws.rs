//! Reconstruction law: concatenating the texts of the tokens of a source
//! rebuilds that source with every whitespace run collapsed to a single
//! space. This holds for any source that lexes without error, as long as
//! it lies on one line (a line break separates tokens but leaves no
//! whitespace token behind) and writes no number with a leading zero (the
//! token keeps only the value, which re-renders without the zero).
use vstd::prelude::*;
use crate::ast::{dec_digits, digit_char, token_text};
use crate::lexer::{
    digit_count, digit_seq_val, digit_val, is_digit_char, is_initial_char, is_space_char,
    is_subsequent_char, lemma_digit_count_bound, lemma_lex_next_advances, lemma_space_count_bound,
    lemma_subsequent_count_bound, lex_from, lex_next, newline_count, space_count, spec_lex,
    subsequent_count, TokenView,
};

verus! {

/// The texts of a token sequence, concatenated in order.
pub open spec fn render_tokens(toks: Seq<TokenView>) -> Seq<char>
    decreases toks.len(),
{
    if toks.len() == 0 {
        Seq::empty()
    } else {
        token_text(toks[0]) + render_tokens(toks.drop_first())
    }
}

/// The source from position `i` on, with each whitespace run collapsed
/// to one space.
pub open spec fn collapse_ws(s: Seq<char>, i: int) -> Seq<char>
    decreases s.len() - i,
        via collapse_ws_decreases
{
    if !(0 <= i && i < s.len()) {
        Seq::empty()
    } else if is_space_char(s[i]) {
        seq![' '] + collapse_ws(s, i + 1 + space_count(s, i + 1))
    } else {
        seq![s[i]] + collapse_ws(s, i + 1)
    }
}

#[via_fn]
proof fn collapse_ws_decreases(s: Seq<char>, i: int) {
    lemma_space_count_bound(s, i + 1);
}

/// The sources the law speaks of: every token starts away from a line
/// break (so nothing is lost between tokens) and no number token starts
/// with a zero followed by more digits (so its text is its source span).
pub open spec fn faithful_from(s: Seq<char>, i: int, line: int, col: int) -> bool
    decreases s.len() - i,
        via faithful_from_decreases
{
    if !(0 <= i && i < s.len()) {
        true
    } else {
        let st = lex_next(s, i, line, col);
        &&& s[i] != '\n'
        &&& (s[i] == '#' ==> i + 1 < s.len() && s[i + 1] != '\n')
        &&& (s[i] == '0' ==> digit_count(s, i + 1) == 0)
        &&& (st.item matches Some(Ok(t)) ==> faithful_from(s, st.i, st.line, st.col))
    }
}

#[via_fn]
proof fn faithful_from_decreases(s: Seq<char>, i: int, line: int, col: int) {
    lemma_lex_next_advances(s, i, line, col);
}

proof fn lemma_subsequent_plain(c: char)
    requires
        is_subsequent_char(c),
    ensures
        !is_space_char(c),
        c != '\n',
{
}

/// Every character of a subsequent-run is a subsequent character.
proof fn lemma_subsequent_run(s: Seq<char>, a: int)
    ensures
        forall|x: int| a <= x < a + subsequent_count(s, a) ==> is_subsequent_char(#[trigger] s[x]),
    decreases s.len() - a,
{
    if 0 <= a && a < s.len() && is_subsequent_char(s[a]) {
        lemma_subsequent_run(s, a + 1);
    }
}

/// Every character of a digit run is a digit.
proof fn lemma_digit_run(s: Seq<char>, a: int)
    ensures
        forall|x: int| a <= x < a + digit_count(s, a) ==> is_digit_char(#[trigger] s[x]),
    decreases s.len() - a,
{
    if 0 <= a && a < s.len() && is_digit_char(s[a]) {
        lemma_digit_run(s, a + 1);
    }
}

/// Collapsing leaves a run of plain (non-space, non-break) characters as
/// it stands.
proof fn lemma_collapse_run(s: Seq<char>, a: int, b: int)
    requires
        0 <= a <= b <= s.len(),
        forall|x: int| a <= x < b ==> !is_space_char(#[trigger] s[x]) && s[x] != '\n',
    ensures
        collapse_ws(s, a) == s.subrange(a, b) + collapse_ws(s, b),
    decreases b - a,
{
    if a == b {
        assert(s.subrange(a, b) + collapse_ws(s, b) =~= collapse_ws(s, a));
    } else {
        lemma_collapse_run(s, a + 1, b);
        assert(s.subrange(a, b) =~= seq![s[a]] + s.subrange(a + 1, b));
        assert(seq![s[a]] + (s.subrange(a + 1, b) + collapse_ws(s, b)) =~= (seq![s[a]]
            + s.subrange(a + 1, b)) + collapse_ws(s, b));
    }
}

/// A digit run starting with a nonzero digit denotes a positive number.
proof fn lemma_val_ge_one(run: Seq<char>)
    requires
        run.len() >= 1,
        digit_val(run[0]) >= 1,
    ensures
        digit_seq_val(run) >= 1,
    decreases run.len(),
{
    if run.len() == 1 {
    } else {
        assert(run.drop_last()[0] == run[0]);
        lemma_val_ge_one(run.drop_last());
    }
}

proof fn lemma_digit_char_val(c: char)
    requires
        is_digit_char(c),
    ensures
        digit_char(digit_val(c) as int) == c,
        digit_val(c) <= 9,
{
}

/// Rendering the number a digit run denotes gives back the run, as long
/// as the run has no leading zero.
proof fn lemma_dec_digits_of_run(run: Seq<char>)
    requires
        run.len() >= 1,
        forall|x: int| 0 <= x < run.len() ==> is_digit_char(#[trigger] run[x]),
        run[0] != '0' || run.len() == 1,
    ensures
        dec_digits(digit_seq_val(run) as int) == run,
    decreases run.len(),
{
    let v = digit_seq_val(run);
    let d = digit_val(run.last());
    lemma_digit_char_val(run.last());
    if run.len() == 1 {
        assert(run.drop_last() =~= Seq::<char>::empty());
        assert(digit_seq_val(Seq::<char>::empty()) == 0);
        assert(v == d);
        assert(dec_digits(v as int) =~= run);
    } else {
        let prefix = run.drop_last();
        let pv = digit_seq_val(prefix);
        assert(prefix[0] == run[0]);
        assert(is_digit_char(run[0]) && run[0] != '0');
        assert(digit_val(run[0]) >= 1);
        lemma_val_ge_one(prefix);
        assert(v == pv * 10 + d);
        assert(v >= 10) by (nonlinear_arith)
            requires
                v == pv * 10 + d,
                pv >= 1,
                d >= 0,
        ;
        assert(v as int / 10 == pv && v as int % 10 == d) by (nonlinear_arith)
            requires
                v == pv * 10 + d,
                pv >= 0,
                0 <= d <= 9,
        ;
        lemma_dec_digits_of_run(prefix);
        assert(dec_digits(v as int) == prefix.push(digit_char(d as int)));
        assert(prefix.push(run.last()) =~= run);
    }
}

/// The induction behind the law: from any faithful position where the
/// rest of the source lexes cleanly, the rendered tokens equal the
/// collapsed rest of the source.
proof fn lemma_render_from(s: Seq<char>, i: int, line: int, col: int)
    requires
        0 <= i <= s.len(),
        lex_from(s, i, line, col).1 is None,
        faithful_from(s, i, line, col),
    ensures
        render_tokens(lex_from(s, i, line, col).0) == collapse_ws(s, i),
    decreases s.len() - i,
{
    let st = lex_next(s, i, line, col);
    lemma_lex_next_advances(s, i, line, col);
    if i == s.len() {
        assert(newline_count(s, i) == 0);
        assert(st.item is None);
        assert(render_tokens(lex_from(s, i, line, col).0) =~= collapse_ws(s, i));
    } else {
        let c = s[i];
        assert(c != '\n');
        assert(newline_count(s, i) == 0);
        match st.item {
            None => {
                assert(false);
            },
            Some(Err(e)) => {
                assert(lex_from(s, i, line, col).1 == Some(e));
                assert(false);
            },
            Some(Ok(t)) => {
                let full = lex_from(s, i, line, col);
                let rest = lex_from(s, st.i, st.line, st.col);
                assert(full.0 == seq![t] + rest.0 && full.1 == rest.1);
                lemma_render_from(s, st.i, st.line, st.col);
                assert((seq![t] + rest.0).drop_first() =~= rest.0);
                assert((seq![t] + rest.0)[0] == t);
                assert(render_tokens(full.0) == token_text(t) + render_tokens(rest.0));
                if c == '(' || c == ')' {
                    assert(!is_space_char(c));
                    assert(collapse_ws(s, i) == seq![c] + collapse_ws(s, i + 1));
                    assert(token_text(t) == seq![c]);
                    assert(st.i == i + 1);
                    assert(token_text(t) + collapse_ws(s, st.i) =~= collapse_ws(s, i));
                } else if c == '#' {
                    assert(i + 1 < s.len() && s[i + 1] != '\n');
                    assert(newline_count(s, i + 1) == 0);
                    let b = s[i + 1];
                    assert(b == 't' || b == 'f');
                    assert(st.i == i + 2);
                    assert(token_text(t) == seq!['#', b]);
                    assert(!is_space_char(c) && !is_space_char(b));
                    assert(collapse_ws(s, i) == seq![c] + collapse_ws(s, i + 1));
                    assert(collapse_ws(s, i + 1) == seq![b] + collapse_ws(s, i + 2));
                    assert(seq!['#', b] + collapse_ws(s, i + 2) =~= seq![c] + (seq![b]
                        + collapse_ws(s, i + 2)));
                } else if is_space_char(c) {
                    let k = space_count(s, i + 1) as int;
                    assert(t == TokenView::Whitespace);
                    assert(token_text(t) == seq![' ']);
                    assert(st.i == i + 1 + k);
                    assert(collapse_ws(s, i) == seq![' '] + collapse_ws(s, i + 1 + k));
                } else if is_initial_char(c) {
                    let k = subsequent_count(s, i + 1) as int;
                    assert(st.i == i + 1 + k);
                    assert(token_text(t) == s.subrange(i, i + 1 + k));
                    lemma_subsequent_run(s, i + 1);
                    lemma_subsequent_count_bound(s, i + 1);
                    assert forall|x: int| i <= x < i + 1 + k implies !is_space_char(
                        #[trigger] s[x],
                    ) && s[x] != '\n' by {
                        if x > i {
                            lemma_subsequent_plain(s[x]);
                        }
                    }
                    lemma_collapse_run(s, i, i + 1 + k);
                } else if is_digit_char(c) {
                    let k = digit_count(s, i + 1) as int;
                    let run = s.subrange(i, i + 1 + k);
                    assert(st.i == i + 1 + k);
                    lemma_digit_run(s, i + 1);
                    lemma_digit_count_bound(s, i + 1);
                    assert forall|x: int| 0 <= x < run.len() implies is_digit_char(
                        #[trigger] run[x],
                    ) by {
                        assert(run[x] == s[i + x]);
                    }
                    assert(run[0] != '0' || run.len() == 1);
                    let v = digit_seq_val(run);
                    assert(v <= usize::MAX as nat);
                    assert(t == TokenView::Integer(v as usize));
                    lemma_dec_digits_of_run(run);
                    assert(token_text(t) == run);
                    assert forall|x: int| i <= x < i + 1 + k implies !is_space_char(
                        #[trigger] s[x],
                    ) && s[x] != '\n' by {
                        assert(is_digit_char(s[x]));
                    }
                    lemma_collapse_run(s, i, i + 1 + k);
                } else {
                    assert(false);
                }
            },
        }
    }
}

/// For any source that lexes without error, lies on one line, and writes
/// no number with a leading zero, concatenating the texts of its tokens
/// (a whitespace run's text being one space) reconstructs the source with
/// whitespace runs collapsed to single separators.
pub proof fn lemma_tokens_reconstruct_source(s: Seq<char>)
    requires
        spec_lex(s).1 is None,
        faithful_from(s, 0, 0, 0),
    ensures
        render_tokens(spec_lex(s).0) == collapse_ws(s, 0),
{
    lemma_render_from(s, 0, 0, 0);
}

} // verus!
