//! The grammar that the parser decides, stated from the tree's side: which
//! trees are expressions, and which tokens such a tree is written with.

use crate::parser::{
    lemma_walk_advances, params_spec, parse, program_spec, walk_spec, NodeView, ParseErrorView,
};
use crate::tokenizer::TokenView;
use vstd::prelude::*;

verus! {

/// Whether a tree is an expression: a call whose arguments are expressions.
/// A program is none: it is the root only.
pub open spec fn is_call_tree(node: NodeView) -> bool
    decreases node,
{
    match node {
        NodeView::Program { .. } => false,
        NodeView::CallExpression { name, params } => all_call_trees(params),
    }
}

/// Whether every tree of a sequence is an expression.
pub open spec fn all_call_trees(nodes: Seq<NodeView>) -> bool
    decreases nodes,
{
    nodes.len() == 0 || (is_call_tree(nodes[0]) && all_call_trees(nodes.drop_first()))
}

/// The tokens that a tree is written with: for a call an opening
/// parenthesis, its name, its arguments and a closing parenthesis; for a
/// program its top-level nodes one behind the other.
pub open spec fn unparse(node: NodeView) -> Seq<TokenView>
    decreases node,
{
    match node {
        NodeView::Program { body } => unparse_all(body),
        NodeView::CallExpression { name, params } => seq![
            TokenView::ParenOpen,
            TokenView::Name(name),
        ] + unparse_all(params) + seq![TokenView::ParenClose],
    }
}

/// The tokens that a sequence of trees is written with.
pub open spec fn unparse_all(nodes: Seq<NodeView>) -> Seq<TokenView>
    decreases nodes,
{
    if nodes.len() == 0 {
        Seq::empty()
    } else {
        unparse(nodes[0]) + unparse_all(nodes.drop_first())
    }
}

/// What was parsed from a position on is an expression, or a sequence of
/// them, written with exactly the tokens that were passed over.
pub proof fn lemma_walk_sound(tokens: Seq<TokenView>, pos: int)
    requires
        0 <= pos,
    ensures
        walk_spec(tokens, pos) matches Ok((node, next)) ==> {
            &&& pos < next <= tokens.len()
            &&& is_call_tree(node)
            &&& tokens.subrange(pos, next) == unparse(node)
        },
        params_spec(tokens, pos) matches Ok((params, end)) ==> {
            &&& pos < end <= tokens.len()
            &&& all_call_trees(params)
            &&& tokens.subrange(pos, end) == unparse_all(params) + seq![TokenView::ParenClose]
        },
    decreases tokens.len() - pos,
{
    lemma_walk_advances(tokens, pos);
    if pos < tokens.len() {
        if let Ok((node, next)) = walk_spec(tokens, pos) {
            lemma_walk_sound(tokens, pos + 2);
            lemma_walk_advances(tokens, pos + 2);
            assert(tokens.subrange(pos, next) =~= seq![tokens[pos], tokens[pos + 1]]
                + tokens.subrange(pos + 2, next));
            assert(tokens.subrange(pos, next) =~= unparse(node));
            if tokens[pos] != TokenView::ParenClose {
                if let Ok((params, end)) = params_spec(tokens, pos) {
                    lemma_walk_sound(tokens, next);
                    let rest = params_spec(tokens, next)->Ok_0.0;
                    assert(params[0] == node);
                    assert(params.drop_first() =~= rest);
                    assert(tokens.subrange(pos, end) =~= tokens.subrange(pos, next)
                        + tokens.subrange(next, end));
                    assert(is_call_tree(node));
                    assert(all_call_trees(params));
                    assert(unparse_all(params) == unparse(node) + unparse_all(rest));
                    assert(tokens.subrange(pos, end) =~= unparse_all(params)
                        + seq![TokenView::ParenClose]);
                }
            }
        }
        if tokens[pos] == TokenView::ParenClose {
            assert(tokens.subrange(pos, pos + 1) =~= unparse_all(Seq::empty())
                + seq![TokenView::ParenClose]);
        }
    }
}

/// The top-level nodes parsed from a position on are expressions, written
/// with exactly the tokens from there to the end.
pub proof fn lemma_program_sound(tokens: Seq<TokenView>, pos: int)
    requires
        0 <= pos <= tokens.len(),
    ensures
        program_spec(tokens, pos) matches Ok(body) ==> {
            &&& all_call_trees(body)
            &&& tokens.subrange(pos, tokens.len() as int) == unparse_all(body)
        },
    decreases tokens.len() - pos,
{
    let len = tokens.len() as int;
    if pos < len {
        if let Ok(body) = program_spec(tokens, pos) {
            let (node, next) = walk_spec(tokens, pos)->Ok_0;
            lemma_walk_sound(tokens, pos);
            lemma_program_sound(tokens, next);
            let rest = program_spec(tokens, next)->Ok_0;
            assert(body[0] == node);
            assert(body.drop_first() =~= rest);
            assert(tokens.subrange(pos, len) =~= tokens.subrange(pos, next) + tokens.subrange(
                next,
                len,
            ));
        }
    } else {
        assert(tokens.subrange(pos, len) =~= unparse_all(Seq::empty()));
    }
}

/// A syntax tree that the parser gives is a program of expressions, and
/// written out again it is the token sequence that was parsed.
pub proof fn lemma_parse_sound(tokens: Seq<TokenView>, tree: NodeView)
    requires
        parse(tokens) == Ok::<NodeView, ParseErrorView>(tree),
    ensures
        tree is Program,
        all_call_trees(tree->body),
        unparse(tree) == tokens,
{
    lemma_program_sound(tokens, 0);
    assert(tokens.subrange(0, tokens.len() as int) =~= tokens);
}

/// An expression is written with at least three tokens, the first an
/// opening parenthesis and the second its name.
pub proof fn lemma_unparse_begins(node: NodeView)
    requires
        is_call_tree(node),
    ensures
        unparse(node).len() >= 3,
        unparse(node)[0] == TokenView::ParenOpen,
        unparse(node)[1] == TokenView::Name(node->name),
{
}

/// Where the tokens from a position on are those of an expression, the
/// expression is what is parsed there, and parsing ends behind them.
pub proof fn lemma_walk_complete(tokens: Seq<TokenView>, pos: int, node: NodeView)
    requires
        0 <= pos,
        is_call_tree(node),
        pos + unparse(node).len() <= tokens.len(),
        tokens.subrange(pos, pos + unparse(node).len()) == unparse(node),
    ensures
        walk_spec(tokens, pos) == Ok::<(NodeView, int), ParseErrorView>(
            (node, pos + unparse(node).len()),
        ),
    decreases node,
{
    let written = unparse(node);
    let window = tokens.subrange(pos, pos + written.len());
    let params = node->params;
    let inner = unparse_all(params);
    lemma_unparse_begins(node);
    assert(window[0] == tokens[pos]);
    assert(window[1] == tokens[pos + 1]);
    assert(written.len() == inner.len() + 3);
    assert forall|i: int| 0 <= i < inner.len() + 1 implies tokens.subrange(
        pos + 2,
        pos + 2 + inner.len() + 1,
    )[i] == (inner + seq![TokenView::ParenClose])[i] by {
        assert(window[i + 2] == tokens[pos + 2 + i]);
    }
    assert(tokens.subrange(pos + 2, pos + 2 + inner.len() + 1) =~= inner
        + seq![TokenView::ParenClose]);
    lemma_params_complete(tokens, pos + 2, params);
}

/// Where the tokens from a position on are those of a sequence of
/// expressions and a closing parenthesis, those expressions are the
/// arguments parsed there, and parsing ends behind the parenthesis.
pub proof fn lemma_params_complete(tokens: Seq<TokenView>, pos: int, params: Seq<NodeView>)
    requires
        0 <= pos,
        all_call_trees(params),
        pos + unparse_all(params).len() < tokens.len(),
        tokens.subrange(pos, pos + unparse_all(params).len() + 1) == unparse_all(params)
            + seq![TokenView::ParenClose],
    ensures
        params_spec(tokens, pos) == Ok::<(Seq<NodeView>, int), ParseErrorView>(
            (params, pos + unparse_all(params).len() + 1),
        ),
    decreases params,
{
    let written = unparse_all(params) + seq![TokenView::ParenClose];
    let window = tokens.subrange(pos, pos + written.len());
    assert(window[0] == tokens[pos]);
    if params.len() == 0 {
        assert(params =~= Seq::empty());
    } else {
        let first = unparse(params[0]);
        let rest = unparse_all(params.drop_first());
        let next = pos + first.len();
        lemma_unparse_begins(params[0]);
        assert forall|i: int| 0 <= i < first.len() implies tokens.subrange(pos, next)[i]
            == first[i] by {
            assert(window[i] == tokens[pos + i]);
        }
        assert(tokens.subrange(pos, next) =~= first);
        lemma_walk_complete(tokens, pos, params[0]);
        assert forall|i: int| 0 <= i < rest.len() + 1 implies tokens.subrange(
            next,
            next + rest.len() + 1,
        )[i] == (rest + seq![TokenView::ParenClose])[i] by {
            assert(window[first.len() + i] == tokens[next + i]);
        }
        assert(tokens.subrange(next, next + rest.len() + 1) =~= rest
            + seq![TokenView::ParenClose]);
        lemma_params_complete(tokens, next, params.drop_first());
        assert(seq![params[0]] + params.drop_first() =~= params);
    }
}

/// Where the tokens from a position to the end are those of a sequence of
/// expressions, those expressions are the top-level nodes parsed there.
pub proof fn lemma_program_complete(tokens: Seq<TokenView>, pos: int, body: Seq<NodeView>)
    requires
        0 <= pos <= tokens.len(),
        all_call_trees(body),
        tokens.subrange(pos, tokens.len() as int) == unparse_all(body),
    ensures
        program_spec(tokens, pos) == Ok::<Seq<NodeView>, ParseErrorView>(body),
    decreases body,
{
    let len = tokens.len() as int;
    let window = tokens.subrange(pos, len);
    if body.len() == 0 {
        assert(body =~= Seq::empty());
    } else {
        let first = unparse(body[0]);
        let rest = unparse_all(body.drop_first());
        let next = pos + first.len();
        lemma_unparse_begins(body[0]);
        assert(window.len() == first.len() + rest.len());
        assert forall|i: int| 0 <= i < first.len() implies tokens.subrange(pos, next)[i]
            == first[i] by {
            assert(window[i] == tokens[pos + i]);
        }
        assert(tokens.subrange(pos, next) =~= first);
        lemma_walk_complete(tokens, pos, body[0]);
        assert forall|i: int| 0 <= i < rest.len() implies tokens.subrange(next, len)[i]
            == rest[i] by {
            assert(window[first.len() + i] == tokens[next + i]);
        }
        assert(tokens.subrange(next, len) =~= rest);
        lemma_program_complete(tokens, next, body.drop_first());
        assert(seq![body[0]] + body.drop_first() =~= body);
    }
}

/// Every sequence of expressions, written out, is parsed back to the
/// program that holds exactly those expressions.
pub proof fn lemma_parse_complete(body: Seq<NodeView>)
    requires
        all_call_trees(body),
    ensures
        parse(unparse_all(body)) == Ok::<NodeView, ParseErrorView>(NodeView::Program { body }),
{
    let tokens = unparse_all(body);
    assert(tokens.subrange(0, tokens.len() as int) =~= tokens);
    lemma_program_complete(tokens, 0, body);
}

} // verus!
