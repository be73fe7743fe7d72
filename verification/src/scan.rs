//! The scanning state machine: its mathematical definition and the verified
//! executable scanner.
//!
//! [`spec_scan`] is the reference definition: a recursive function over the
//! input character sequence that applies the classification rules of the
//! language subset (whitespace, punctuation, numeric constants, words,
//! comments) with maximal munch and one character of lookahead. The
//! executable [`scan`] is proved to return exactly what [`spec_scan`] says.

use vstd::prelude::*;
use vstd::string::StrSliceExecFns;
use crate::token::{LexError, LexErrorModel, Token, TokenModel};

verus! {

// ---------------------------------------------------------------------------
// Character classes
// ---------------------------------------------------------------------------

/// Whitespace: space, newline, tab.
pub open spec fn is_space_char(c: char) -> bool {
    c == ' ' || c == '\n' || c == '\t'
}

/// A decimal digit `0` through `9`.
pub open spec fn is_digit_char(c: char) -> bool {
    '0' as u32 <= c as u32 && c as u32 <= '9' as u32
}

/// An ASCII letter.
pub open spec fn is_letter_char(c: char) -> bool {
    ('a' as u32 <= c as u32 && c as u32 <= 'z' as u32)
        || ('A' as u32 <= c as u32 && c as u32 <= 'Z' as u32)
}

/// A character that may begin a word lexeme: a letter or an underscore.
pub open spec fn is_word_start_char(c: char) -> bool {
    is_letter_char(c) || c == '_'
}

/// A character that may continue a word lexeme: a letter, digit or underscore.
pub open spec fn is_word_char(c: char) -> bool {
    is_letter_char(c) || is_digit_char(c) || c == '_'
}

// ---------------------------------------------------------------------------
// Maximal runs
// ---------------------------------------------------------------------------

/// The end of the maximal digit run starting at `i`: the first index at or
/// after `i` holding no digit (or the end of the input).
pub open spec fn digit_run_end(s: Seq<char>, i: int) -> int
    decreases s.len() - i,
{
    if i < s.len() && is_digit_char(s[i]) {
        digit_run_end(s, i + 1)
    } else {
        i
    }
}

/// The end of the maximal word run starting at `i`: the first index at or
/// after `i` holding no letter, digit or underscore (or the end of the input).
pub open spec fn word_run_end(s: Seq<char>, i: int) -> int
    decreases s.len() - i,
{
    if i < s.len() && is_word_char(s[i]) {
        word_run_end(s, i + 1)
    } else {
        i
    }
}

/// The first index at or after `i` holding a newline, or the end of the
/// input: where a line comment's body ends (the newline itself is not part
/// of the comment).
pub open spec fn line_comment_end(s: Seq<char>, i: int) -> int
    decreases s.len() - i,
{
    if i < s.len() && s[i] != '\n' {
        line_comment_end(s, i + 1)
    } else {
        i
    }
}

/// The index just after the first `*/` pair at or after `i`, or the end of
/// the input when no such pair closes the comment. The closing `*` must
/// stand at or after `i` itself, so the `*` of the opening `/*` can never
/// serve as part of the closer.
pub open spec fn block_comment_end(s: Seq<char>, i: int) -> int
    decreases s.len() - i,
{
    if i + 1 < s.len() && s[i] == '*' && s[i + 1] == '/' {
        i + 2
    } else if i < s.len() {
        block_comment_end(s, i + 1)
    } else {
        i
    }
}

// ---------------------------------------------------------------------------
// Run lemmas
// ---------------------------------------------------------------------------

/// What the maximal digit run is: it lies within the input, holds only
/// digits, and stops only at the end of the input or before a non-digit.
pub proof fn lemma_digit_run_end_props(s: Seq<char>, i: int)
    requires
        i <= s.len(),
    ensures
        i <= digit_run_end(s, i) <= s.len(),
        forall|k: int| i <= k < digit_run_end(s, i) ==> is_digit_char(s[k]),
        digit_run_end(s, i) < s.len() ==> !is_digit_char(s[digit_run_end(s, i)]),
        i < s.len() && is_digit_char(s[i]) ==> digit_run_end(s, i) > i,
    decreases s.len() - i,
{
    if i < s.len() && is_digit_char(s[i]) {
        lemma_digit_run_end_props(s, i + 1);
    }
}

/// What the maximal word run is, in the same terms.
pub proof fn lemma_word_run_end_props(s: Seq<char>, i: int)
    requires
        i <= s.len(),
    ensures
        i <= word_run_end(s, i) <= s.len(),
        forall|k: int| i <= k < word_run_end(s, i) ==> is_word_char(s[k]),
        word_run_end(s, i) < s.len() ==> !is_word_char(s[word_run_end(s, i)]),
        i < s.len() && is_word_char(s[i]) ==> word_run_end(s, i) > i,
    decreases s.len() - i,
{
    if i < s.len() && is_word_char(s[i]) {
        lemma_word_run_end_props(s, i + 1);
    }
}

/// A line comment's body ends within the input, at its end or just before a
/// newline.
pub proof fn lemma_line_comment_end_props(s: Seq<char>, i: int)
    requires
        i <= s.len(),
    ensures
        i <= line_comment_end(s, i) <= s.len(),
        line_comment_end(s, i) < s.len() ==> s[line_comment_end(s, i)] == '\n',
    decreases s.len() - i,
{
    if i < s.len() && s[i] != '\n' {
        lemma_line_comment_end_props(s, i + 1);
    }
}

/// A block comment's closer is found within the input; when none is found,
/// the whole rest of the input is consumed.
pub proof fn lemma_block_comment_end_props(s: Seq<char>, i: int)
    requires
        i <= s.len(),
    ensures
        i <= block_comment_end(s, i) <= s.len(),
    decreases s.len() - i,
{
    if i + 1 < s.len() && s[i] == '*' && s[i + 1] == '/' {
    } else if i < s.len() {
        lemma_block_comment_end_props(s, i + 1);
    }
}

// ---------------------------------------------------------------------------
// Keyword lookup
// ---------------------------------------------------------------------------

/// Keyword lookup after a maximal word run: the three reserved words map to
/// their keyword tokens, every other word is an identifier.
pub open spec fn classify_word(w: Seq<char>) -> TokenModel {
    if w == seq!['i', 'n', 't'] {
        TokenModel::IntKeyword
    } else if w == seq!['v', 'o', 'i', 'd'] {
        TokenModel::VoidKeyword
    } else if w == seq!['r', 'e', 't', 'u', 'r', 'n'] {
        TokenModel::ReturnKeyword
    } else {
        TokenModel::Identifier(w)
    }
}

// ---------------------------------------------------------------------------
// The scan, mathematically
// ---------------------------------------------------------------------------

/// Prepends a token to a successful scan result; an error passes through.
pub open spec fn with_token(
    t: TokenModel,
    r: Result<Seq<TokenModel>, LexErrorModel>,
) -> Result<Seq<TokenModel>, LexErrorModel> {
    match r {
        Ok(ts) => Ok(seq![t] + ts),
        Err(e) => Err(e),
    }
}

/// What scanning the input from position `i` onward yields: the remaining
/// token sequence, or the first lexical error. One classification rule
/// applies per step, chosen by the next unconsumed character, with one
/// character of lookahead after digit runs and after `/`.
///
/// An unterminated block comment silently consumes the rest of the input,
/// as if the comment ended with the input; this deliberate behaviour is
/// stated here rather than left open.
pub open spec fn spec_scan_from(s: Seq<char>, i: int) -> Result<Seq<TokenModel>, LexErrorModel>
    decreases s.len() - i,
        via spec_scan_from_decreases
{
    if i >= s.len() {
        Ok(Seq::empty())
    } else {
        let c = s[i];
        if is_space_char(c) {
            spec_scan_from(s, i + 1)
        } else if c == '(' {
            with_token(TokenModel::OpenParenthesis, spec_scan_from(s, i + 1))
        } else if c == ')' {
            with_token(TokenModel::CloseParenthesis, spec_scan_from(s, i + 1))
        } else if c == '{' {
            with_token(TokenModel::OpenBrace, spec_scan_from(s, i + 1))
        } else if c == '}' {
            with_token(TokenModel::CloseBrace, spec_scan_from(s, i + 1))
        } else if c == ';' {
            with_token(TokenModel::Semicolon, spec_scan_from(s, i + 1))
        } else if is_digit_char(c) {
            let j = digit_run_end(s, i);
            if j < s.len() && is_word_start_char(s[j]) {
                Err(LexErrorModel::MalformedNumericLiteral {
                    digits: s.subrange(i, j),
                    next: s[j],
                })
            } else {
                with_token(TokenModel::Constant(s.subrange(i, j)), spec_scan_from(s, j))
            }
        } else if is_word_start_char(c) {
            let j = word_run_end(s, i);
            let w = s.subrange(i, j);
            if w == seq!['_'] {
                Err(LexErrorModel::InvalidIdentifier { text: w })
            } else {
                with_token(classify_word(w), spec_scan_from(s, j))
            }
        } else if c == '/' {
            if i + 1 < s.len() && s[i + 1] == '/' {
                spec_scan_from(s, line_comment_end(s, i + 2))
            } else if i + 1 < s.len() && s[i + 1] == '*' {
                spec_scan_from(s, block_comment_end(s, i + 2))
            } else {
                Err(LexErrorModel::UnsupportedOperator)
            }
        } else {
            Err(LexErrorModel::InvalidCharacter { ch: c })
        }
    }
}

#[via_fn]
proof fn spec_scan_from_decreases(s: Seq<char>, i: int) {
    if i < s.len() {
        if is_digit_char(s[i]) {
            lemma_digit_run_end_props(s, i);
        }
        if is_word_start_char(s[i]) {
            lemma_word_run_end_props(s, i);
        }
        if i + 2 <= s.len() {
            lemma_line_comment_end_props(s, i + 2);
            lemma_block_comment_end_props(s, i + 2);
        }
    }
}

/// What scanning a whole input yields: the complete token sequence in source
/// order, or the first lexical error.
pub open spec fn spec_scan(s: Seq<char>) -> Result<Seq<TokenModel>, LexErrorModel> {
    spec_scan_from(s, 0)
}

// ---------------------------------------------------------------------------
// The executable scanner
// ---------------------------------------------------------------------------

/// Tokens already emitted, joined with what the rest of the scan yields.
spec fn combine(
    acc: Seq<TokenModel>,
    r: Result<Seq<TokenModel>, LexErrorModel>,
) -> Result<Seq<TokenModel>, LexErrorModel> {
    match r {
        Ok(ts) => Ok(acc + ts),
        Err(e) => Err(e),
    }
}

proof fn lemma_combine_token(
    acc: Seq<TokenModel>,
    t: TokenModel,
    r: Result<Seq<TokenModel>, LexErrorModel>,
)
    ensures
        combine(acc.push(t), r) == combine(acc, with_token(t, r)),
{
    match r {
        Ok(ts) => {
            assert(acc.push(t) + ts =~= acc + (seq![t] + ts));
        },
        Err(_) => {},
    }
}

fn is_space(c: char) -> (r: bool)
    ensures
        r == is_space_char(c),
{
    c == ' ' || c == '\n' || c == '\t'
}

fn is_digit(c: char) -> (r: bool)
    ensures
        r == is_digit_char(c),
{
    let u = c as u32;
    48 <= u && u <= 57
}

fn is_word_start(c: char) -> (r: bool)
    ensures
        r == is_word_start_char(c),
{
    let u = c as u32;
    (97 <= u && u <= 122) || (65 <= u && u <= 90) || c == '_'
}

fn is_word(c: char) -> (r: bool)
    ensures
        r == is_word_char(c),
{
    is_word_start(c) || is_digit(c)
}

fn digit_run_to(source: &str, start: usize, n: usize) -> (j: usize)
    requires
        n == source@.len(),
        start <= n,
    ensures
        start <= j <= n,
        j == digit_run_end(source@, start as int),
{
    let mut j = start;
    while j < n
        invariant
            n == source@.len(),
            start <= j <= n,
            digit_run_end(source@, start as int) == digit_run_end(source@, j as int),
        ensures
            start <= j <= n,
            digit_run_end(source@, start as int) == digit_run_end(source@, j as int),
            j == n || !is_digit_char(source@[j as int]),
        decreases n - j,
    {
        if !is_digit(source.get_char(j)) {
            break;
        }
        proof {
            assert(digit_run_end(source@, j as int) == digit_run_end(source@, j as int + 1));
        }
        j += 1;
    }
    proof {
        assert(digit_run_end(source@, j as int) == j as int);
    }
    j
}

fn word_run_to(source: &str, start: usize, n: usize) -> (j: usize)
    requires
        n == source@.len(),
        start <= n,
    ensures
        start <= j <= n,
        j == word_run_end(source@, start as int),
{
    let mut j = start;
    while j < n
        invariant
            n == source@.len(),
            start <= j <= n,
            word_run_end(source@, start as int) == word_run_end(source@, j as int),
        ensures
            start <= j <= n,
            word_run_end(source@, start as int) == word_run_end(source@, j as int),
            j == n || !is_word_char(source@[j as int]),
        decreases n - j,
    {
        if !is_word(source.get_char(j)) {
            break;
        }
        proof {
            assert(word_run_end(source@, j as int) == word_run_end(source@, j as int + 1));
        }
        j += 1;
    }
    proof {
        assert(word_run_end(source@, j as int) == j as int);
    }
    j
}

fn line_comment_to(source: &str, start: usize, n: usize) -> (j: usize)
    requires
        n == source@.len(),
        start <= n,
    ensures
        start <= j <= n,
        j == line_comment_end(source@, start as int),
{
    let mut j = start;
    while j < n
        invariant
            n == source@.len(),
            start <= j <= n,
            line_comment_end(source@, start as int) == line_comment_end(source@, j as int),
        ensures
            start <= j <= n,
            line_comment_end(source@, start as int) == line_comment_end(source@, j as int),
            j == n || source@[j as int] == '\n',
        decreases n - j,
    {
        if source.get_char(j) == '\n' {
            break;
        }
        proof {
            assert(line_comment_end(source@, j as int) == line_comment_end(source@, j as int + 1));
        }
        j += 1;
    }
    proof {
        assert(line_comment_end(source@, j as int) == j as int);
    }
    j
}

fn block_comment_to(source: &str, start: usize, n: usize) -> (j: usize)
    requires
        n == source@.len(),
        start <= n,
    ensures
        start <= j <= n,
        j == block_comment_end(source@, start as int),
{
    let mut j = start;
    while j < n
        invariant
            n == source@.len(),
            start <= j <= n,
            block_comment_end(source@, start as int) == block_comment_end(source@, j as int),
        decreases n - j,
    {
        if j + 1 < n && source.get_char(j) == '*' && source.get_char(j + 1) == '/' {
            proof {
                assert(block_comment_end(source@, j as int) == j as int + 2);
            }
            return j + 2;
        }
        proof {
            assert(block_comment_end(source@, j as int) == block_comment_end(source@, j as int + 1));
        }
        j += 1;
    }
    proof {
        assert(block_comment_end(source@, j as int) == j as int);
    }
    j
}

fn push_token(tokens: &mut Vec<Token>, t: Token)
    ensures
        final(tokens).deep_view() == old(tokens).deep_view().push(t@),
{
    let ghost acc = tokens.deep_view();
    tokens.push(t);
    proof {
        assert(tokens.deep_view() =~= acc.push(tokens[tokens.len() - 1]@));
    }
}

/// Scans one translation unit: the complete ordered token sequence, or the
/// first lexical error, exactly as [`spec_scan`] classifies the input.
pub fn scan(source: &str) -> (r: Result<Vec<Token>, LexError>)
    ensures
        match r {
            Ok(tokens) => spec_scan(source@) == Ok::<Seq<TokenModel>, LexErrorModel>(
                tokens.deep_view(),
            ),
            Err(e) => spec_scan(source@) == Err::<Seq<TokenModel>, LexErrorModel>(e@),
        },
{
    let ghost s = source@;
    let n = source.unicode_len();
    let mut tokens: Vec<Token> = Vec::new();
    let mut i: usize = 0;
    proof {
        assert(tokens.deep_view() =~= Seq::<TokenModel>::empty());
        assert(combine(tokens.deep_view(), spec_scan_from(s, 0)) == spec_scan_from(s, 0)) by {
            match spec_scan_from(s, 0) {
                Ok(ts) => {
                    assert(tokens.deep_view() + ts =~= ts);
                },
                Err(_) => {},
            }
        }
    }
    while i < n
        invariant
            s == source@,
            n == s.len(),
            i <= n,
            spec_scan(s) == combine(tokens.deep_view(), spec_scan_from(s, i as int)),
        decreases n - i,
    {
        let ghost acc = tokens.deep_view();
        let c = source.get_char(i);
        if is_space(c) {
            proof {
                assert(spec_scan_from(s, i as int) == spec_scan_from(s, i as int + 1));
            }
            i += 1;
        } else if c == '(' || c == ')' || c == '{' || c == '}' || c == ';' {
            let t = if c == '(' {
                Token::OpenParenthesis
            } else if c == ')' {
                Token::CloseParenthesis
            } else if c == '{' {
                Token::OpenBrace
            } else if c == '}' {
                Token::CloseBrace
            } else {
                Token::Semicolon
            };
            proof {
                assert(spec_scan_from(s, i as int) == with_token(
                    t@,
                    spec_scan_from(s, i as int + 1),
                ));
                lemma_combine_token(acc, t@, spec_scan_from(s, i as int + 1));
            }
            push_token(&mut tokens, t);
            i += 1;
        } else if is_digit(c) {
            let j = digit_run_to(source, i, n);
            proof {
                lemma_digit_run_end_props(s, i as int);
            }
            if j < n {
                let next = source.get_char(j);
                if is_word_start(next) {
                    return Err(LexError::MalformedNumericLiteral {
                        digits: source.substring_char(i, j).to_owned(),
                        next,
                    });
                }
            }
            let t = Token::Constant(source.substring_char(i, j).to_owned());
            proof {
                assert(spec_scan_from(s, i as int) == with_token(
                    t@,
                    spec_scan_from(s, j as int),
                ));
                lemma_combine_token(acc, t@, spec_scan_from(s, j as int));
            }
            push_token(&mut tokens, t);
            i = j;
        } else if is_word_start(c) {
            let j = word_run_to(source, i, n);
            proof {
                lemma_word_run_end_props(s, i as int);
            }
            let ghost w = s.subrange(i as int, j as int);
            if j == i + 1 && c == '_' {
                proof {
                    assert(w =~= seq!['_']);
                }
                return Err(LexError::InvalidIdentifier {
                    text: source.substring_char(i, j).to_owned(),
                });
            }
            proof {
                assert(w != seq!['_']) by {
                    if j > i + 1 {
                        assert(w.len() != 1);
                    } else {
                        assert(w[0] == c && c != '_');
                    }
                }
            }
            let len = j - i;
            let t = if len == 3 && source.get_char(i) == 'i' && source.get_char(i + 1) == 'n'
                && source.get_char(i + 2) == 't' {
                proof {
                    assert(w =~= seq!['i', 'n', 't']);
                }
                Token::IntKeyword
            } else if len == 4 && source.get_char(i) == 'v' && source.get_char(i + 1) == 'o'
                && source.get_char(i + 2) == 'i' && source.get_char(i + 3) == 'd' {
                proof {
                    assert(w =~= seq!['v', 'o', 'i', 'd']);
                }
                Token::VoidKeyword
            } else if len == 6 && source.get_char(i) == 'r' && source.get_char(i + 1) == 'e'
                && source.get_char(i + 2) == 't' && source.get_char(i + 3) == 'u'
                && source.get_char(i + 4) == 'r' && source.get_char(i + 5) == 'n' {
                proof {
                    assert(w =~= seq!['r', 'e', 't', 'u', 'r', 'n']);
                }
                Token::ReturnKeyword
            } else {
                proof {
                    assert(w.len() == j - i);
                    assert(forall|k: int| 0 <= k < w.len() ==> w[k] == s[i + k]);
                    assert(w != seq!['i', 'n', 't']) by {
                        let q = seq!['i', 'n', 't'];
                        assert(q.len() == 3 && q[0] == 'i' && q[1] == 'n' && q[2] == 't');
                    }
                    assert(w != seq!['v', 'o', 'i', 'd']) by {
                        let q = seq!['v', 'o', 'i', 'd'];
                        assert(q.len() == 4 && q[0] == 'v' && q[1] == 'o' && q[2] == 'i' && q[3]
                            == 'd');
                    }
                    assert(w != seq!['r', 'e', 't', 'u', 'r', 'n']) by {
                        let q = seq!['r', 'e', 't', 'u', 'r', 'n'];
                        assert(q.len() == 6 && q[0] == 'r' && q[1] == 'e' && q[2] == 't' && q[3]
                            == 'u' && q[4] == 'r' && q[5] == 'n');
                    }
                }
                Token::Identifier(source.substring_char(i, j).to_owned())
            };
            proof {
                assert(t@ == classify_word(w));
                assert(spec_scan_from(s, i as int) == with_token(
                    classify_word(w),
                    spec_scan_from(s, j as int),
                ));
                lemma_combine_token(acc, t@, spec_scan_from(s, j as int));
            }
            push_token(&mut tokens, t);
            i = j;
        } else if c == '/' {
            if i + 1 < n {
                let next = source.get_char(i + 1);
                if next == '/' {
                    let j = line_comment_to(source, i + 2, n);
                    proof {
                        assert(spec_scan_from(s, i as int) == spec_scan_from(s, j as int));
                    }
                    i = j;
                } else if next == '*' {
                    let j = block_comment_to(source, i + 2, n);
                    proof {
                        assert(spec_scan_from(s, i as int) == spec_scan_from(s, j as int));
                    }
                    i = j;
                } else {
                    return Err(LexError::UnsupportedOperator);
                }
            } else {
                return Err(LexError::UnsupportedOperator);
            }
        } else {
            return Err(LexError::InvalidCharacter { ch: c });
        }
    }
    proof {
        assert(spec_scan_from(s, i as int) == Ok::<Seq<TokenModel>, LexErrorModel>(
            Seq::empty(),
        ));
        assert(tokens.deep_view() + Seq::<TokenModel>::empty() =~= tokens.deep_view());
    }
    Ok(tokens)
}

} // verus!
