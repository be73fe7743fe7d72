//! Rendering tokens back to source form.
//!
//! Every token has a minimal source form; a rendered token sequence is the
//! concatenation of those forms, one single space after each. The round-trip
//! law in [`crate::laws`] shows that rendering a scanned token sequence and
//! scanning it again yields the same sequence.

use vstd::prelude::*;
use vstd::string::StringExecFns;
use crate::token::{Token, TokenModel};

verus! {

/// The minimal source form of one token.
pub open spec fn render_token(t: TokenModel) -> Seq<char> {
    match t {
        TokenModel::Identifier(name) => name,
        TokenModel::Constant(digits) => digits,
        TokenModel::IntKeyword => seq!['i', 'n', 't'],
        TokenModel::VoidKeyword => seq!['v', 'o', 'i', 'd'],
        TokenModel::ReturnKeyword => seq!['r', 'e', 't', 'u', 'r', 'n'],
        TokenModel::OpenParenthesis => seq!['('],
        TokenModel::CloseParenthesis => seq![')'],
        TokenModel::OpenBrace => seq!['{'],
        TokenModel::CloseBrace => seq!['}'],
        TokenModel::Semicolon => seq![';'],
    }
}

/// The source form of a token sequence: each token's minimal form, a single
/// space after each.
pub open spec fn render_tokens(ts: Seq<TokenModel>) -> Seq<char>
    decreases ts.len(),
{
    if ts.len() == 0 {
        Seq::empty()
    } else {
        render_token(ts[0]) + seq![' '] + render_tokens(ts.skip(1))
    }
}

/// Rendering distributes over concatenation of token sequences.
pub proof fn lemma_render_tokens_append(a: Seq<TokenModel>, b: Seq<TokenModel>)
    ensures
        render_tokens(a + b) == render_tokens(a) + render_tokens(b),
    decreases a.len(),
{
    if a.len() == 0 {
        assert(a + b =~= b);
        assert(render_tokens(a) + render_tokens(b) =~= render_tokens(b));
    } else {
        lemma_render_tokens_append(a.skip(1), b);
        assert((a + b).skip(1) =~= a.skip(1) + b);
        assert((a + b)[0] == a[0]);
        assert((a + b).len() > 0);
        assert(render_token(a[0]) + seq![' '] + (render_tokens(a.skip(1)) + render_tokens(b)) =~= (
        render_token(a[0]) + seq![' '] + render_tokens(a.skip(1))) + render_tokens(b));
    }
}

/// Renders a token sequence back to source text: each token's minimal form
/// with a single space after it.
pub fn render(tokens: &Vec<Token>) -> (r: String)
    ensures
        r@ == render_tokens(tokens.deep_view()),
{
    let ghost ts = tokens.deep_view();
    let mut out = String::new();
    let mut k: usize = 0;
    proof {
        assert(out@ =~= render_tokens(ts.take(0)));
    }
    while k < tokens.len()
        invariant
            ts == tokens.deep_view(),
            k <= tokens.len(),
            out@ == render_tokens(ts.take(k as int)),
        decreases tokens.len() - k,
    {
        proof {
            assert(ts[k as int] == tokens[k as int]@);
        }
        match &tokens[k] {
            Token::Identifier(name) => {
                out.append(name.as_str());
                out.append(" ");
            },
            Token::Constant(digits) => {
                out.append(digits.as_str());
                out.append(" ");
            },
            Token::IntKeyword => {
                out.append("int ");
            },
            Token::VoidKeyword => {
                out.append("void ");
            },
            Token::ReturnKeyword => {
                out.append("return ");
            },
            Token::OpenParenthesis => {
                out.append("( ");
            },
            Token::CloseParenthesis => {
                out.append(") ");
            },
            Token::OpenBrace => {
                out.append("{ ");
            },
            Token::CloseBrace => {
                out.append("} ");
            },
            Token::Semicolon => {
                out.append("; ");
            },
        }
        proof {
            reveal_strlit(" ");
            reveal_strlit("int ");
            reveal_strlit("void ");
            reveal_strlit("return ");
            reveal_strlit("( ");
            reveal_strlit(") ");
            reveal_strlit("{ ");
            reveal_strlit("} ");
            reveal_strlit("; ");
            let t = ts[k as int];
            assert(ts.take(k as int + 1) =~= ts.take(k as int) + seq![t]);
            lemma_render_tokens_append(ts.take(k as int), seq![t]);
            assert(seq![t].skip(1) =~= Seq::<TokenModel>::empty());
            assert(seq![t].len() == 1 && seq![t][0] == t);
            assert(render_tokens(Seq::<TokenModel>::empty()) == Seq::<char>::empty());
            assert(render_tokens(seq![t]) == render_token(t) + seq![' '] + Seq::<char>::empty());
            assert(render_tokens(seq![t]) =~= render_token(t) + seq![' ']);
            assert(out@ =~= render_tokens(ts.take(k as int)) + render_tokens(seq![t]));
        }
        k += 1;
    }
    proof {
        assert(ts.take(tokens.len() as int) =~= ts);
    }
    out
}

} // verus!
