//! What holds of the tokens of every text.

use crate::tokenizer::{
    in_run, lemma_run_in_bounds, lex, lex_from, run_len, white_space, LexError, RunKind,
    TokenView,
};
use vstd::prelude::*;

verus! {

/// A run is maximal: it lies inside the text, every character of it is of
/// its class, and the character behind it, if there is one, is not.
pub proof fn lemma_run_is_maximal(s: Seq<char>, from: int, kind: RunKind)
    requires
        0 <= from <= s.len(),
    ensures
        from + run_len(s, from, kind) <= s.len(),
        forall|k: int| from <= k < from + run_len(s, from, kind) ==> in_run(kind, #[trigger] s[k]),
        from + run_len(s, from, kind) < s.len() ==> !in_run(
            kind,
            s[from + run_len(s, from, kind)],
        ),
    decreases s.len() - from,
{
    if from < s.len() && in_run(kind, s[from]) {
        lemma_run_is_maximal(s, from + 1, kind);
    }
}

/// Whether a character is of one of the classes that the lexer knows:
/// a parenthesis, a digit, a lowercase letter, a double quote, whitespace.
pub open spec fn is_known(c: char) -> bool {
    ||| c == '('
    ||| c == ')'
    ||| in_run(RunKind::Digits, c)
    ||| in_run(RunKind::Letters, c)
    ||| c == '"'
    ||| white_space(c)
}

/// Whether a token's text is what its kind allows: a number is one or
/// more digits, a name one or more lowercase letters, and a string holds
/// no double quote.
pub open spec fn well_formed(token: TokenView) -> bool {
    match token {
        TokenView::ParenOpen | TokenView::ParenClose => true,
        TokenView::Number(text) => text.len() > 0 && forall|k: int|
            0 <= k < text.len() ==> in_run(RunKind::Digits, #[trigger] text[k]),
        TokenView::Name(text) => text.len() > 0 && forall|k: int|
            0 <= k < text.len() ==> in_run(RunKind::Letters, #[trigger] text[k]),
        TokenView::String(text) => forall|k: int|
            0 <= k < text.len() ==> in_run(RunKind::Quoted, #[trigger] text[k]),
    }
}

/// From any position on, a text of known characters has tokens.
pub proof fn lemma_known_text_has_tokens_from(s: Seq<char>, pos: int)
    requires
        forall|i: int| 0 <= i < s.len() ==> is_known(#[trigger] s[i]),
    ensures
        lex_from(s, pos) is Ok,
    decreases s.len() - pos,
{
    if 0 <= pos < s.len() {
        let c = s[pos];
        assert(is_known(c));
        lemma_known_text_has_tokens_from(s, pos + 1);
        if c == '(' || c == ')' {
        } else if in_run(RunKind::Digits, c) {
            lemma_run_in_bounds(s, pos + 1, RunKind::Digits);
            lemma_known_text_has_tokens_from(s, pos + 1 + run_len(s, pos + 1, RunKind::Digits));
        } else if in_run(RunKind::Letters, c) {
            lemma_run_in_bounds(s, pos + 1, RunKind::Letters);
            lemma_known_text_has_tokens_from(s, pos + 1 + run_len(s, pos + 1, RunKind::Letters));
        } else if c == '"' {
            let end = pos + 1 + run_len(s, pos + 1, RunKind::Quoted);
            lemma_run_in_bounds(s, pos + 1, RunKind::Quoted);
            if end < s.len() {
                lemma_known_text_has_tokens_from(s, end + 1);
            }
        }
    }
}

/// A text in which every character is a parenthesis, a digit, a lowercase
/// letter, a double quote or whitespace has tokens.
pub proof fn lemma_known_text_has_tokens(s: Seq<char>)
    requires
        forall|i: int| 0 <= i < s.len() ==> is_known(#[trigger] s[i]),
    ensures
        lex(s) is Ok,
{
    lemma_known_text_has_tokens_from(s, 0);
}

/// The character of a lexical error stands in the text and is of none of
/// the classes that the lexer knows.
pub proof fn lemma_lex_error_is_unknown(s: Seq<char>, pos: int, c: char)
    requires
        0 <= pos,
        lex_from(s, pos) == Err::<Seq<TokenView>, LexError>(LexError::UnknownCharacter(c)),
    ensures
        !is_known(c),
        exists|i: int| pos <= i < s.len() && s[i] == c,
    decreases s.len() - pos,
{
    if pos < s.len() {
        let first = s[pos];
        if first == '(' || first == ')' {
            lemma_lex_error_is_unknown(s, pos + 1, c);
        } else if in_run(RunKind::Digits, first) {
            lemma_run_in_bounds(s, pos + 1, RunKind::Digits);
            lemma_lex_error_is_unknown(s, pos + 1 + run_len(s, pos + 1, RunKind::Digits), c);
        } else if in_run(RunKind::Letters, first) {
            lemma_run_in_bounds(s, pos + 1, RunKind::Letters);
            lemma_lex_error_is_unknown(s, pos + 1 + run_len(s, pos + 1, RunKind::Letters), c);
        } else if first == '"' {
            let end = pos + 1 + run_len(s, pos + 1, RunKind::Quoted);
            lemma_run_in_bounds(s, pos + 1, RunKind::Quoted);
            if end < s.len() {
                lemma_lex_error_is_unknown(s, end + 1, c);
            }
        } else if white_space(first) {
            lemma_lex_error_is_unknown(s, pos + 1, c);
        } else {
            assert(s[pos] == c);
        }
    }
}

/// Every token of a text is well formed.
pub proof fn lemma_tokens_well_formed(s: Seq<char>, pos: int)
    requires
        0 <= pos,
    ensures
        lex_from(s, pos) matches Ok(tokens) ==> forall|i: int|
            0 <= i < tokens.len() ==> well_formed(#[trigger] tokens[i]),
    decreases s.len() - pos,
{
    if pos < s.len() {
        let c = s[pos];
        if c == '(' || c == ')' {
            lemma_tokens_well_formed(s, pos + 1);
        } else if in_run(RunKind::Digits, c) {
            lemma_run_is_maximal(s, pos + 1, RunKind::Digits);
            lemma_tokens_well_formed(s, pos + 1 + run_len(s, pos + 1, RunKind::Digits));
        } else if in_run(RunKind::Letters, c) {
            lemma_run_is_maximal(s, pos + 1, RunKind::Letters);
            lemma_tokens_well_formed(s, pos + 1 + run_len(s, pos + 1, RunKind::Letters));
        } else if c == '"' {
            let end = pos + 1 + run_len(s, pos + 1, RunKind::Quoted);
            lemma_run_is_maximal(s, pos + 1, RunKind::Quoted);
            if end < s.len() {
                lemma_tokens_well_formed(s, end + 1);
            }
        } else if white_space(c) {
            lemma_tokens_well_formed(s, pos + 1);
        }
    }
}

} // verus!
