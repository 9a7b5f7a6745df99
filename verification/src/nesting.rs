//! Nesting depth and top-level parenthesis groups of a token sequence, and
//! how the syntax tree counts them.

use crate::grammar::{all_call_trees, lemma_parse_complete, unparse_all};
use crate::parser::{
    lemma_walk_advances, params_spec, parse, program_spec, walk_spec, NodeView, ParseErrorView,
};
use crate::tokenizer::{lex, LexError, TokenView};
use vstd::prelude::*;

verus! {

/// What a token adds to the nesting depth.
pub open spec fn depth_change(token: TokenView) -> int {
    match token {
        TokenView::ParenOpen => 1,
        TokenView::ParenClose => -1,
        _ => 0,
    }
}

/// The nesting depth behind the first `n` tokens: opening parentheses
/// minus closing ones.
pub open spec fn depth(tokens: Seq<TokenView>, n: int) -> int
    decreases n,
{
    if n <= 0 || n > tokens.len() {
        0
    } else {
        depth(tokens, n - 1) + depth_change(tokens[n - 1])
    }
}

/// How many of the first `n` tokens are closing parentheses that bring the
/// nesting depth back to zero.
pub open spec fn groups(tokens: Seq<TokenView>, n: int) -> nat
    decreases n,
{
    if n <= 0 || n > tokens.len() {
        0
    } else if tokens[n - 1] == TokenView::ParenClose && depth(tokens, n) == 0 {
        groups(tokens, n - 1) + 1
    } else {
        groups(tokens, n - 1)
    }
}

/// The number of top-level parenthesis groups of a token sequence.
pub open spec fn top_level_groups(tokens: Seq<TokenView>) -> nat {
    groups(tokens, tokens.len() as int)
}

/// An expression ends with a closing parenthesis at the depth at which it
/// began, and is deeper everywhere inside. An argument list ends with a
/// closing parenthesis one level up, and is nowhere shallower than where it
/// began.
pub proof fn lemma_walk_depth(tokens: Seq<TokenView>, pos: int)
    requires
        0 <= pos,
    ensures
        walk_spec(tokens, pos) matches Ok((_, next)) ==> {
            &&& pos < next <= tokens.len()
            &&& tokens[next - 1] == TokenView::ParenClose
            &&& depth(tokens, next) == depth(tokens, pos)
            &&& forall|k: int| pos < k < next ==> depth(tokens, k) > depth(tokens, pos)
        },
        params_spec(tokens, pos) matches Ok((_, end)) ==> {
            &&& pos < end <= tokens.len()
            &&& tokens[end - 1] == TokenView::ParenClose
            &&& depth(tokens, end) == depth(tokens, pos) - 1
            &&& forall|k: int| pos <= k < end ==> depth(tokens, k) >= depth(tokens, pos)
        },
    decreases tokens.len() - pos,
{
    lemma_walk_advances(tokens, pos);
    if pos < tokens.len() {
        if let Ok((_, next)) = walk_spec(tokens, pos) {
            lemma_walk_depth(tokens, pos + 2);
            assert(depth(tokens, pos + 1) == depth(tokens, pos) + 1);
            assert(depth(tokens, pos + 2) == depth(tokens, pos) + 1);
            lemma_walk_depth(tokens, next);
        }
        if tokens[pos] == TokenView::ParenClose {
            assert(depth(tokens, pos + 1) == depth(tokens, pos) - 1);
        }
    }
}

/// Where the depth stays above zero, no group is closed.
pub proof fn lemma_groups_inside(tokens: Seq<TokenView>, from: int, to: int)
    requires
        0 <= from <= to <= tokens.len(),
        forall|k: int| from < k <= to ==> depth(tokens, k) > 0,
    ensures
        groups(tokens, to) == groups(tokens, from),
    decreases to - from,
{
    if from < to {
        lemma_groups_inside(tokens, from, to - 1);
    }
}

/// From a position at depth zero on, each top-level expression closes
/// exactly one group.
pub proof fn lemma_program_groups(tokens: Seq<TokenView>, pos: int)
    requires
        0 <= pos <= tokens.len(),
        depth(tokens, pos) == 0,
        program_spec(tokens, pos) is Ok,
    ensures
        top_level_groups(tokens) == groups(tokens, pos) + program_spec(tokens, pos)->Ok_0.len(),
    decreases tokens.len() - pos,
{
    if pos < tokens.len() {
        let next = walk_spec(tokens, pos)->Ok_0.1;
        lemma_walk_depth(tokens, pos);
        lemma_groups_inside(tokens, pos, next - 1);
        lemma_program_groups(tokens, next);
    }
}

/// Where a text has tokens and the tokens have a syntax tree, the tree is
/// a program with as many top-level nodes as the tokens have top-level
/// parenthesis groups.
pub proof fn lemma_body_counts_groups(text: Seq<char>, tokens: Seq<TokenView>, tree: NodeView)
    requires
        lex(text) == Ok::<Seq<TokenView>, LexError>(tokens),
        parse(tokens) == Ok::<NodeView, ParseErrorView>(tree),
    ensures
        tree is Program,
        tree->body.len() == top_level_groups(tokens),
{
    lemma_program_groups(tokens, 0);
}

/// A sequence of expressions is written with as many top-level parenthesis
/// groups as it has expressions.
pub proof fn lemma_written_body_counts_groups(body: Seq<NodeView>)
    requires
        all_call_trees(body),
    ensures
        top_level_groups(unparse_all(body)) == body.len(),
{
    lemma_parse_complete(body);
    lemma_program_groups(unparse_all(body), 0);
}

} // verus!
