//! General properties of the scanner, stated and proved once for all inputs.

use vstd::prelude::*;
use crate::scan::{
    block_comment_end, classify_word, digit_run_end, is_digit_char, is_space_char,
    is_word_char, is_word_start_char, lemma_digit_run_end_props, lemma_word_run_end_props,
    line_comment_end, spec_scan, spec_scan_from, with_token, word_run_end,
};
use crate::render::{render_token, render_tokens};
use crate::token::{LexErrorModel, TokenModel};

verus! {

// ---------------------------------------------------------------------------
// Well-formed tokens
// ---------------------------------------------------------------------------

/// Every character of `w` is a decimal digit.
pub open spec fn all_digit_chars(w: Seq<char>) -> bool {
    forall|k: int| 0 <= k < w.len() ==> is_digit_char(w[k])
}

/// Every character of `w` is a letter, digit or underscore.
pub open spec fn all_word_chars(w: Seq<char>) -> bool {
    forall|k: int| 0 <= k < w.len() ==> is_word_char(w[k])
}

/// What holds of every token a successful scan produces: captured text is a
/// non-empty lexeme of its class, an identifier does not begin with a digit,
/// is not a lone underscore and is none of the reserved words.
pub open spec fn token_wf(t: TokenModel) -> bool {
    match t {
        TokenModel::Identifier(w) => {
            &&& w.len() > 0
            &&& is_word_start_char(w[0])
            &&& all_word_chars(w)
            &&& w != seq!['_']
            &&& w != seq!['i', 'n', 't']
            &&& w != seq!['v', 'o', 'i', 'd']
            &&& w != seq!['r', 'e', 't', 'u', 'r', 'n']
        },
        TokenModel::Constant(d) => d.len() > 0 && all_digit_chars(d),
        _ => true,
    }
}

/// Every token of a successful scan result is well formed.
pub open spec fn tokens_wf(ts: Seq<TokenModel>) -> bool {
    forall|k: int| 0 <= k < ts.len() ==> token_wf(ts[k])
}

/// Well-formedness of a scan result: trivial for an error.
pub open spec fn result_wf(r: Result<Seq<TokenModel>, LexErrorModel>) -> bool {
    match r {
        Ok(ts) => tokens_wf(ts),
        Err(_) => true,
    }
}

// ---------------------------------------------------------------------------
// Run characterizations (the other direction of the run lemmas)
// ---------------------------------------------------------------------------

/// A region of digits ending at the input's end or before a non-digit is
/// exactly the maximal digit run.
pub proof fn lemma_digit_run_end_is(s: Seq<char>, i: int, j: int)
    requires
        0 <= i <= j <= s.len(),
        forall|k: int| i <= k < j ==> is_digit_char(s[k]),
        j == s.len() || !is_digit_char(s[j]),
    ensures
        digit_run_end(s, i) == j,
    decreases j - i,
{
    if i < j {
        assert(is_digit_char(s[i]));
        lemma_digit_run_end_is(s, i + 1, j);
    }
}

/// A region of word characters ending at the input's end or before a
/// non-word character is exactly the maximal word run.
pub proof fn lemma_word_run_end_is(s: Seq<char>, i: int, j: int)
    requires
        0 <= i <= j <= s.len(),
        forall|k: int| i <= k < j ==> is_word_char(s[k]),
        j == s.len() || !is_word_char(s[j]),
    ensures
        word_run_end(s, i) == j,
    decreases j - i,
{
    if i < j {
        assert(is_word_char(s[i]));
        lemma_word_run_end_is(s, i + 1, j);
    }
}

// ---------------------------------------------------------------------------
// A scan yields well-formed tokens
// ---------------------------------------------------------------------------

proof fn lemma_with_token_wf(t: TokenModel, r: Result<Seq<TokenModel>, LexErrorModel>)
    requires
        token_wf(t),
        result_wf(r),
    ensures
        result_wf(with_token(t, r)),
{
    match r {
        Ok(ts) => {
            assert forall|k: int| 0 <= k < (seq![t] + ts).len() implies token_wf(
                (seq![t] + ts)[k],
            ) by {
                if k == 0 {
                    assert((seq![t] + ts)[0] == t);
                } else {
                    assert((seq![t] + ts)[k] == ts[k - 1]);
                }
            }
        },
        Err(_) => {},
    }
}

proof fn lemma_scan_from_wf(s: Seq<char>, i: int)
    requires
        0 <= i,
    ensures
        result_wf(spec_scan_from(s, i)),
    decreases s.len() - i,
{
    if i >= s.len() {
        assert(tokens_wf(Seq::<TokenModel>::empty()));
    } else {
        let c = s[i];
        if is_space_char(c) {
            lemma_scan_from_wf(s, i + 1);
        } else if c == '(' || c == ')' || c == '{' || c == '}' || c == ';' {
            lemma_scan_from_wf(s, i + 1);
            let t = if c == '(' {
                TokenModel::OpenParenthesis
            } else if c == ')' {
                TokenModel::CloseParenthesis
            } else if c == '{' {
                TokenModel::OpenBrace
            } else if c == '}' {
                TokenModel::CloseBrace
            } else {
                TokenModel::Semicolon
            };
            lemma_with_token_wf(t, spec_scan_from(s, i + 1));
        } else if is_digit_char(c) {
            lemma_digit_run_end_props(s, i);
            let j = digit_run_end(s, i);
            if !(j < s.len() && is_word_start_char(s[j])) {
                lemma_scan_from_wf(s, j);
                let d = s.subrange(i, j);
                assert(d.len() > 0);
                assert(all_digit_chars(d)) by {
                    assert(forall|k: int| 0 <= k < d.len() ==> d[k] == s[i + k]);
                }
                lemma_with_token_wf(TokenModel::Constant(d), spec_scan_from(s, j));
            }
        } else if is_word_start_char(c) {
            lemma_word_run_end_props(s, i);
            let j = word_run_end(s, i);
            let w = s.subrange(i, j);
            if w != seq!['_'] {
                lemma_scan_from_wf(s, j);
                assert(w.len() > 0);
                assert(forall|k: int| 0 <= k < w.len() ==> w[k] == s[i + k]);
                assert(w[0] == c);
                assert(all_word_chars(w));
                assert(token_wf(classify_word(w)));
                lemma_with_token_wf(classify_word(w), spec_scan_from(s, j));
            }
        } else if c == '/' {
            if i + 1 < s.len() && s[i + 1] == '/' {
                crate::scan::lemma_line_comment_end_props(s, i + 2);
                lemma_scan_from_wf(s, line_comment_end(s, i + 2));
            } else if i + 1 < s.len() && s[i + 1] == '*' {
                crate::scan::lemma_block_comment_end_props(s, i + 2);
                lemma_scan_from_wf(s, block_comment_end(s, i + 2));
            }
        }
    }
}

/// Every token of a successful scan is well formed: its captured text is a
/// non-empty lexeme of its class, and an identifier is never a reserved
/// word, never a lone underscore and never begins with a digit.
pub proof fn lemma_scan_tokens_wf(s: Seq<char>, ts: Seq<TokenModel>)
    requires
        spec_scan(s) == Ok::<Seq<TokenModel>, LexErrorModel>(ts),
    ensures
        tokens_wf(ts),
{
    lemma_scan_from_wf(s, 0);
}

// ---------------------------------------------------------------------------
// A malformed numeric literal is always rejected
// ---------------------------------------------------------------------------

/// Any input beginning with a run of digits immediately followed by a letter
/// or underscore fails, with the digit run and the offending character
/// reported, and no token sequence.
pub proof fn lemma_malformed_numeric_literal(s: Seq<char>, j: int)
    requires
        0 < j < s.len(),
        forall|k: int| 0 <= k < j ==> is_digit_char(s[k]),
        is_word_start_char(s[j]),
    ensures
        spec_scan(s) == Err::<Seq<TokenModel>, LexErrorModel>(
            LexErrorModel::MalformedNumericLiteral { digits: s.subrange(0, j), next: s[j] },
        ),
{
    assert(is_digit_char(s[0]));
    assert(!is_digit_char(s[j]));
    lemma_digit_run_end_is(s, 0, j);
}

// ---------------------------------------------------------------------------
// Scanning after a fully consumed prefix
// ---------------------------------------------------------------------------

proof fn lemma_digit_run_end_shift(p: Seq<char>, r: Seq<char>, i: int)
    requires
        0 <= i <= r.len(),
    ensures
        digit_run_end(p + r, p.len() + i) == p.len() + digit_run_end(r, i),
    decreases r.len() - i,
{
    let s = p + r;
    assert(s.len() == p.len() + r.len());
    if i < r.len() {
        assert(s[p.len() + i] == r[i]);
        if is_digit_char(r[i]) {
            lemma_digit_run_end_shift(p, r, i + 1);
        }
    }
}

proof fn lemma_word_run_end_shift(p: Seq<char>, r: Seq<char>, i: int)
    requires
        0 <= i <= r.len(),
    ensures
        word_run_end(p + r, p.len() + i) == p.len() + word_run_end(r, i),
    decreases r.len() - i,
{
    let s = p + r;
    assert(s.len() == p.len() + r.len());
    if i < r.len() {
        assert(s[p.len() + i] == r[i]);
        if is_word_char(r[i]) {
            lemma_word_run_end_shift(p, r, i + 1);
        }
    }
}

proof fn lemma_line_comment_end_shift(p: Seq<char>, r: Seq<char>, i: int)
    requires
        0 <= i <= r.len(),
    ensures
        line_comment_end(p + r, p.len() + i) == p.len() + line_comment_end(r, i),
    decreases r.len() - i,
{
    let s = p + r;
    assert(s.len() == p.len() + r.len());
    if i < r.len() {
        assert(s[p.len() + i] == r[i]);
        if r[i] != '\n' {
            lemma_line_comment_end_shift(p, r, i + 1);
        }
    }
}

proof fn lemma_block_comment_end_shift(p: Seq<char>, r: Seq<char>, i: int)
    requires
        0 <= i <= r.len(),
    ensures
        block_comment_end(p + r, p.len() + i) == p.len() + block_comment_end(r, i),
    decreases r.len() - i,
{
    let s = p + r;
    assert(s.len() == p.len() + r.len());
    if i < r.len() {
        assert(s[p.len() + i] == r[i]);
        if i + 1 < r.len() {
            assert(s[p.len() + i + 1] == r[i + 1]);
        }
        if !(i + 1 < r.len() && r[i] == '*' && r[i + 1] == '/') {
            lemma_block_comment_end_shift(p, r, i + 1);
        }
    }
}

/// Scanning from a position past a prefix sees only the rest of the input.
pub proof fn lemma_scan_from_shift(p: Seq<char>, r: Seq<char>, i: int)
    requires
        0 <= i <= r.len(),
    ensures
        spec_scan_from(p + r, p.len() + i) == spec_scan_from(r, i),
    decreases r.len() - i,
{
    let s = p + r;
    assert(s.len() == p.len() + r.len());
    if i >= r.len() {
    } else {
        let c = r[i];
        assert(s[p.len() + i] == c);
        if is_space_char(c) || c == '(' || c == ')' || c == '{' || c == '}' || c == ';' {
            lemma_scan_from_shift(p, r, i + 1);
        } else if is_digit_char(c) {
            lemma_digit_run_end_props(r, i);
            lemma_digit_run_end_shift(p, r, i);
            let j = digit_run_end(r, i);
            if j < r.len() {
                assert(s[p.len() + j] == r[j]);
            }
            assert(s.subrange(p.len() + i, p.len() + j) =~= r.subrange(i, j));
            if !(j < r.len() && is_word_start_char(r[j])) {
                lemma_scan_from_shift(p, r, j);
            }
        } else if is_word_start_char(c) {
            lemma_word_run_end_props(r, i);
            lemma_word_run_end_shift(p, r, i);
            let j = word_run_end(r, i);
            assert(s.subrange(p.len() + i, p.len() + j) =~= r.subrange(i, j));
            if r.subrange(i, j) != seq!['_'] {
                lemma_scan_from_shift(p, r, j);
            }
        } else if c == '/' {
            if i + 1 < r.len() {
                assert(s[p.len() + i + 1] == r[i + 1]);
            }
            if i + 1 < r.len() && r[i + 1] == '/' {
                crate::scan::lemma_line_comment_end_props(r, i + 2);
                lemma_line_comment_end_shift(p, r, i + 2);
                lemma_scan_from_shift(p, r, line_comment_end(r, i + 2));
            } else if i + 1 < r.len() && r[i + 1] == '*' {
                crate::scan::lemma_block_comment_end_props(r, i + 2);
                lemma_block_comment_end_shift(p, r, i + 2);
                lemma_scan_from_shift(p, r, block_comment_end(r, i + 2));
            }
        }
    }
}

// ---------------------------------------------------------------------------
// Round trip: render, then scan again
// ---------------------------------------------------------------------------

proof fn lemma_render_one(t: TokenModel, rest: Seq<char>)
    requires
        token_wf(t),
    ensures
        spec_scan_from(render_token(t) + seq![' '] + rest, 0) == with_token(
            t,
            spec_scan_from(render_token(t) + seq![' '] + rest, render_token(t).len() as int + 1),
        ),
{
    let w = render_token(t);
    let m = w.len() as int;
    let s = w + seq![' '] + rest;
    assert((w + seq![' ']).len() == m + 1);
    assert(s.len() == m + 1 + rest.len());
    assert(forall|k: int| 0 <= k < m + 1 ==> s[k] == (w + seq![' '])[k]);
    assert(forall|k: int| 0 <= k < m ==> (w + seq![' '])[k] == w[k]);
    assert((w + seq![' '])[m] == ' ');
    assert(s[m] == ' ');
    match t {
        TokenModel::Identifier(wid) => {
            assert(s[0] == wid[0]);
            assert(forall|k: int| 0 <= k < m ==> is_word_char(s[k]));
            assert(!is_word_char(' '));
            lemma_word_run_end_is(s, 0, m);
            assert(s.subrange(0, m) =~= wid);
            assert(classify_word(wid) == t);
            assert(spec_scan_from(s, 0) == with_token(t, spec_scan_from(s, m)));
            assert(spec_scan_from(s, m) == spec_scan_from(s, m + 1));
        },
        TokenModel::Constant(d) => {
            assert(s[0] == d[0]);
            assert(forall|k: int| 0 <= k < m ==> is_digit_char(s[k]));
            assert(!is_digit_char(' '));
            lemma_digit_run_end_is(s, 0, m);
            assert(s.subrange(0, m) =~= d);
            assert(!is_word_start_char(' '));
            assert(spec_scan_from(s, 0) == with_token(t, spec_scan_from(s, m)));
            assert(spec_scan_from(s, m) == spec_scan_from(s, m + 1));
        },
        TokenModel::IntKeyword => {
            assert(w == seq!['i', 'n', 't']);
            assert(s[0] == 'i' && s[1] == 'n' && s[2] == 't');
            assert(forall|k: int| 0 <= k < m ==> is_word_char(s[k]));
            assert(!is_word_char(' '));
            lemma_word_run_end_is(s, 0, m);
            assert(s.subrange(0, m) =~= w);
            assert(s.subrange(0, m) != seq!['_']) by {
                assert(seq!['_'].len() == 1);
            }
            assert(classify_word(w) == t);
            assert(spec_scan_from(s, 0) == with_token(t, spec_scan_from(s, m)));
            assert(spec_scan_from(s, m) == spec_scan_from(s, m + 1));
        },
        TokenModel::VoidKeyword => {
            assert(w == seq!['v', 'o', 'i', 'd']);
            assert(s[0] == 'v' && s[1] == 'o' && s[2] == 'i' && s[3] == 'd');
            assert(forall|k: int| 0 <= k < m ==> is_word_char(s[k]));
            assert(!is_word_char(' '));
            lemma_word_run_end_is(s, 0, m);
            assert(s.subrange(0, m) =~= w);
            assert(s.subrange(0, m) != seq!['_']) by {
                assert(seq!['_'].len() == 1);
            }
            assert(classify_word(w) == t);
            assert(spec_scan_from(s, 0) == with_token(t, spec_scan_from(s, m)));
            assert(spec_scan_from(s, m) == spec_scan_from(s, m + 1));
        },
        TokenModel::ReturnKeyword => {
            assert(w == seq!['r', 'e', 't', 'u', 'r', 'n']);
            assert(s[0] == 'r' && s[1] == 'e' && s[2] == 't' && s[3] == 'u' && s[4] == 'r' && s[5]
                == 'n');
            assert(forall|k: int| 0 <= k < m ==> is_word_char(s[k]));
            assert(!is_word_char(' '));
            lemma_word_run_end_is(s, 0, m);
            assert(s.subrange(0, m) =~= w);
            assert(s.subrange(0, m) != seq!['_']) by {
                assert(seq!['_'].len() == 1);
            }
            assert(classify_word(w) == t);
            assert(spec_scan_from(s, 0) == with_token(t, spec_scan_from(s, m)));
            assert(spec_scan_from(s, m) == spec_scan_from(s, m + 1));
        },
        _ => {
            assert(m == 1 && s[0] == w[0]);
            assert(spec_scan_from(s, 0) == with_token(t, spec_scan_from(s, 1)));
            assert(spec_scan_from(s, 1) == spec_scan_from(s, 2));
        },
    }
}

/// Rendering any sequence of well-formed tokens gives text that scans back
/// to exactly that sequence.
pub proof fn lemma_render_rescan(ts: Seq<TokenModel>)
    requires
        tokens_wf(ts),
    ensures
        spec_scan(render_tokens(ts)) == Ok::<Seq<TokenModel>, LexErrorModel>(ts),
    decreases ts.len(),
{
    if ts.len() == 0 {
        assert(render_tokens(ts) == Seq::<char>::empty());
        assert(ts =~= Seq::<TokenModel>::empty());
    } else {
        let t = ts[0];
        let w = render_token(t);
        let rest = render_tokens(ts.skip(1));
        let s = render_tokens(ts);
        assert(s == w + seq![' '] + rest);
        assert(token_wf(t));
        lemma_render_one(t, rest);
        assert(w + seq![' '] + rest =~= (w + seq![' ']) + rest);
        lemma_scan_from_shift(w + seq![' '], rest, 0);
        assert((w + seq![' ']).len() == w.len() + 1);
        assert(spec_scan_from(s, w.len() as int + 1) == spec_scan_from(rest, 0));
        assert(tokens_wf(ts.skip(1))) by {
            assert forall|k: int| 0 <= k < ts.skip(1).len() implies token_wf(ts.skip(1)[k]) by {
                assert(ts.skip(1)[k] == ts[k + 1]);
            }
        }
        lemma_render_rescan(ts.skip(1));
        assert(seq![t] + ts.skip(1) =~= ts);
    }
}

/// Round trip: the tokens of a successful scan, rendered back to minimal
/// source form with single spaces and scanned again, give back the same
/// token sequence. In particular the rendered text always scans
/// successfully.
pub proof fn lemma_scan_render_round_trip(s: Seq<char>, ts: Seq<TokenModel>)
    requires
        spec_scan(s) == Ok::<Seq<TokenModel>, LexErrorModel>(ts),
    ensures
        spec_scan(render_tokens(ts)) == Ok::<Seq<TokenModel>, LexErrorModel>(ts),
{
    lemma_scan_tokens_wf(s, ts);
    lemma_render_rescan(ts);
}

} // verus!
