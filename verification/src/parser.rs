//! Syntactic analysis: a sequence of tokens to a tree of call expressions.

use crate::grammar::{
    all_call_trees, is_call_tree, lemma_parse_sound, lemma_walk_sound, unparse,
};
use crate::nesting::{lemma_program_groups, top_level_groups};
use crate::tokenizer::{token_views, Token, TokenView};
use vstd::prelude::*;

verus! {

/// A node of the syntax tree.
#[derive(Debug, PartialEq)]
pub enum Node {
    /// The root: the top-level expressions in source order.
    Program { body: Vec<Node> },
    /// A parenthesized call: the name behind the opening parenthesis and the
    /// arguments in order.
    CallExpression { name: String, params: Vec<Node> },
}

/// The mathematical value of a [`Node`].
pub enum NodeView {
    Program { body: Seq<NodeView> },
    CallExpression { name: Seq<char>, params: Seq<NodeView> },
}

/// The value of a node: the values of its parts, arguments in order.
pub open spec fn node_view(node: Node) -> NodeView
    decreases node,
{
    match node {
        Node::Program { body } => NodeView::Program {
            body: Seq::new(
                body.len() as nat,
                |i: int|
                    if 0 <= i < body.len() {
                        node_view(body[i])
                    } else {
                        arbitrary()
                    },
            ),
        },
        Node::CallExpression { name, params } => NodeView::CallExpression {
            name: name@,
            params: Seq::new(
                params.len() as nat,
                |i: int|
                    if 0 <= i < params.len() {
                        node_view(params[i])
                    } else {
                        arbitrary()
                    },
            ),
        },
    }
}

impl View for Node {
    type V = NodeView;

    open spec fn view(&self) -> NodeView {
        node_view(*self)
    }
}

/// The views of a sequence of nodes, position by position.
pub open spec fn node_views(nodes: Seq<Node>) -> Seq<NodeView> {
    Seq::new(nodes.len(), |i: int| nodes[i]@)
}

/// The view of a call is made of the views of its name and arguments.
pub proof fn lemma_call_view(name: String, params: Vec<Node>)
    ensures
        (Node::CallExpression { name, params })@ == (NodeView::CallExpression {
            name: name@,
            params: node_views(params@),
        }),
{
    let node = Node::CallExpression { name, params };
    assert(node@->CallExpression_params =~= node_views(params@));
}

/// The view of a program is made of the views of its top-level nodes.
pub proof fn lemma_program_view(body: Vec<Node>)
    ensures
        (Node::Program { body })@ == (NodeView::Program { body: node_views(body@) }),
{
    let node = Node::Program { body };
    assert(node@->Program_body =~= node_views(body@));
}

/// Why a token sequence has no syntax tree.
#[derive(Debug, PartialEq)]
pub enum ParseError {
    /// An opening parenthesis is the last token.
    UnexpectedEnd,
    /// An opening parenthesis is followed by this token, which is no name.
    ExpectedName(Token),
    /// This token stands where an expression must begin.
    UnknownToken(Token),
    /// The tokens end inside a call's argument list.
    UnmatchedParen,
}

/// The mathematical value of a [`ParseError`].
pub enum ParseErrorView {
    UnexpectedEnd,
    ExpectedName(TokenView),
    UnknownToken(TokenView),
    UnmatchedParen,
}

impl View for ParseError {
    type V = ParseErrorView;

    open spec fn view(&self) -> ParseErrorView {
        match self {
            ParseError::UnexpectedEnd => ParseErrorView::UnexpectedEnd,
            ParseError::ExpectedName(token) => ParseErrorView::ExpectedName(token@),
            ParseError::UnknownToken(token) => ParseErrorView::UnknownToken(token@),
            ParseError::UnmatchedParen => ParseErrorView::UnmatchedParen,
        }
    }
}

/// The nodes `prefix`, then those of `rest`, ending where `rest` ends; the
/// error of `rest` where it has one.
pub open spec fn params_after(
    prefix: Seq<NodeView>,
    rest: Result<(Seq<NodeView>, int), ParseErrorView>,
) -> Result<(Seq<NodeView>, int), ParseErrorView> {
    match rest {
        Ok((nodes, end)) => Ok((prefix + nodes, end)),
        Err(error) => Err(error),
    }
}

/// The nodes `prefix`, then those of `rest`; the error of `rest` where it
/// has one.
pub open spec fn body_after(
    prefix: Seq<NodeView>,
    rest: Result<Seq<NodeView>, ParseErrorView>,
) -> Result<Seq<NodeView>, ParseErrorView> {
    match rest {
        Ok(nodes) => Ok(prefix + nodes),
        Err(error) => Err(error),
    }
}

/// The expression that begins with the token at `pos`, and the position
/// behind it; or the first error met on the way.
///
/// An expression is an opening parenthesis, a name, any number of
/// expressions, and a closing parenthesis.
pub open spec fn walk_spec(tokens: Seq<TokenView>, pos: int) -> Result<
    (NodeView, int),
    ParseErrorView,
>
    decreases tokens.len() - pos, 0nat,
{
    if pos < 0 || pos >= tokens.len() {
        Err(ParseErrorView::UnexpectedEnd)
    } else if tokens[pos] != TokenView::ParenOpen {
        Err(ParseErrorView::UnknownToken(tokens[pos]))
    } else if pos + 1 >= tokens.len() {
        Err(ParseErrorView::UnexpectedEnd)
    } else {
        match tokens[pos + 1] {
            TokenView::Name(name) => match params_spec(tokens, pos + 2) {
                Ok((params, next)) => Ok((NodeView::CallExpression { name, params }, next)),
                Err(error) => Err(error),
            },
            other => Err(ParseErrorView::ExpectedName(other)),
        }
    }
}

/// The arguments of a call from `pos` up to the closing parenthesis, and
/// the position behind that parenthesis; or the first error met on the way.
///
/// An expression always ends behind where it began and inside the tokens
/// (`lemma_walk_advances`), so the last branch is never taken.
pub open spec fn params_spec(tokens: Seq<TokenView>, pos: int) -> Result<
    (Seq<NodeView>, int),
    ParseErrorView,
>
    decreases tokens.len() - pos, 1nat,
{
    if pos < 0 || pos >= tokens.len() {
        Err(ParseErrorView::UnmatchedParen)
    } else if tokens[pos] == TokenView::ParenClose {
        Ok((Seq::empty(), pos + 1))
    } else {
        match walk_spec(tokens, pos) {
            Ok((first, next)) => if pos < next <= tokens.len() {
                params_after(seq![first], params_spec(tokens, next))
            } else {
                Err(ParseErrorView::UnmatchedParen)
            },
            Err(error) => Err(error),
        }
    }
}

/// An expression, or an argument list, that is there ends behind where it
/// began and inside the tokens.
pub proof fn lemma_walk_advances(tokens: Seq<TokenView>, pos: int)
    ensures
        walk_spec(tokens, pos) matches Ok((_, next)) ==> pos + 2 < next <= tokens.len(),
        params_spec(tokens, pos) matches Ok((_, end)) ==> pos < end <= tokens.len(),
    decreases tokens.len() - pos,
{
    if 0 <= pos < tokens.len() {
        if tokens[pos] == TokenView::ParenOpen && pos + 1 < tokens.len() {
            lemma_walk_advances(tokens, pos + 2);
        }
        if let Ok((_, next)) = walk_spec(tokens, pos) {
            lemma_walk_advances(tokens, next);
        }
    }
}

/// The top-level expressions from `pos` to the end of the tokens, or the
/// first error met on the way.
pub open spec fn program_spec(tokens: Seq<TokenView>, pos: int) -> Result<
    Seq<NodeView>,
    ParseErrorView,
>
    decreases tokens.len() - pos,
{
    if pos < 0 || pos >= tokens.len() {
        Ok(Seq::empty())
    } else {
        match walk_spec(tokens, pos) {
            Ok((first, next)) => {
                proof {
                    lemma_walk_advances(tokens, pos);
                }
                body_after(seq![first], program_spec(tokens, next))
            },
            Err(error) => Err(error),
        }
    }
}

/// The syntax tree of a whole token sequence: a program whose body holds
/// the top-level expressions in order; or the first error met.
pub open spec fn parse(tokens: Seq<TokenView>) -> Result<NodeView, ParseErrorView> {
    match program_spec(tokens, 0) {
        Ok(body) => Ok(NodeView::Program { body }),
        Err(error) => Err(error),
    }
}

/// No nodes before an argument list leave it as it is.
pub proof fn lemma_params_after_none(rest: Result<(Seq<NodeView>, int), ParseErrorView>)
    ensures
        params_after(Seq::empty(), rest) == rest,
{
    if let Ok((nodes, _)) = rest {
        assert(Seq::<NodeView>::empty() + nodes =~= nodes);
    }
}

/// Moving one node from the front of an argument list to the end of the
/// prefix changes nothing.
pub proof fn lemma_params_after_push(
    prefix: Seq<NodeView>,
    node: NodeView,
    rest: Result<(Seq<NodeView>, int), ParseErrorView>,
)
    ensures
        params_after(prefix.push(node), rest) == params_after(
            prefix,
            params_after(seq![node], rest),
        ),
{
    if let Ok((nodes, _)) = rest {
        assert(prefix.push(node) + nodes =~= prefix + (seq![node] + nodes));
    }
}

/// No nodes before a body leave it as it is.
pub proof fn lemma_body_after_none(rest: Result<Seq<NodeView>, ParseErrorView>)
    ensures
        body_after(Seq::empty(), rest) == rest,
{
    if let Ok(nodes) = rest {
        assert(Seq::<NodeView>::empty() + nodes =~= nodes);
    }
}

/// Moving one node from the front of a body to the end of the prefix
/// changes nothing.
pub proof fn lemma_body_after_push(
    prefix: Seq<NodeView>,
    node: NodeView,
    rest: Result<Seq<NodeView>, ParseErrorView>,
)
    ensures
        body_after(prefix.push(node), rest) == body_after(prefix, body_after(seq![node], rest)),
{
    if let Ok(nodes) = rest {
        assert(prefix.push(node) + nodes =~= prefix + (seq![node] + nodes));
    }
}

/// Pushes `node`; the views of the nodes grow by its view.
fn attach(nodes: &mut Vec<Node>, node: Node)
    ensures
        node_views(final(nodes)@) == node_views(old(nodes)@).push(node@),
{
    nodes.push(node);
    assert(node_views(nodes@) =~= node_views(old(nodes)@).push(node@));
}

/// Parses the expression that begins with the token at `pos`, and returns
/// it with the position behind its closing parenthesis. The expression is a
/// call whose arguments are calls, written with exactly the tokens from
/// `pos` up to that position.
///
/// Fails with `UnknownToken` where that token is no opening parenthesis,
/// with `UnexpectedEnd` where nothing follows it, with `ExpectedName` where
/// no name follows it, with `UnmatchedParen` where the tokens end before
/// the call is closed, and with the error of the first argument that has
/// one.
pub fn walk(tokens: &Vec<Token>, pos: usize) -> (result: Result<(Node, usize), ParseError>)
    requires
        pos < tokens.len(),
    ensures
        match result {
            Ok((node, next)) => walk_spec(token_views(tokens@), pos as int) == Ok::<
                (NodeView, int),
                ParseErrorView,
            >((node@, next as int)) && pos < next <= tokens.len() && is_call_tree(node@)
                && token_views(tokens@).subrange(pos as int, next as int) == unparse(node@),
            Err(error) => walk_spec(token_views(tokens@), pos as int) == Err::<
                (NodeView, int),
                ParseErrorView,
            >(error@),
        },
    decreases tokens.len() - pos,
{
    let ghost views = token_views(tokens@);
    let token = &tokens[pos];
    assert(views[pos as int] == token@);
    match token {
        Token::ParenOpen => {},
        _ => {
            return Err(ParseError::UnknownToken(token.duplicate()));
        },
    }
    if pos + 1 >= tokens.len() {
        return Err(ParseError::UnexpectedEnd);
    }
    let second = &tokens[pos + 1];
    assert(views[pos + 1] == second@);
    match second {
        Token::Name(name) => {
            let mut params: Vec<Node> = Vec::new();
            let mut cur: usize = pos + 2;
            proof {
                lemma_params_after_none(params_spec(views, cur as int));
                assert(node_views(params@) =~= Seq::empty());
            }
            while cur < tokens.len() && !tokens[cur].is_paren_close()
                invariant
                    views == token_views(tokens@),
                    views[pos as int] == TokenView::ParenOpen,
                    views[pos + 1] == TokenView::Name(name@),
                    pos + 2 <= cur <= tokens.len(),
                    params_spec(views, pos + 2) == params_after(
                        node_views(params@),
                        params_spec(views, cur as int),
                    ),
                decreases tokens.len() - cur,
            {
                assert(views[cur as int] == tokens[cur as int]@);
                let ghost before = node_views(params@);
                match walk(tokens, cur) {
                    Ok((node, next)) => {
                        proof {
                            lemma_params_after_push(
                                before,
                                node@,
                                params_spec(views, next as int),
                            );
                        }
                        attach(&mut params, node);
                        cur = next;
                    },
                    Err(error) => {
                        return Err(error);
                    },
                }
            }
            if cur >= tokens.len() {
                return Err(ParseError::UnmatchedParen);
            }
            assert(views[cur as int] == tokens[cur as int]@);
            let name = name.clone();
            proof {
                assert(node_views(params@) + Seq::<NodeView>::empty() =~= node_views(params@));
                lemma_call_view(name, params);
                lemma_walk_sound(views, pos as int);
            }
            Ok((Node::CallExpression { name, params }, cur + 1))
        },
        _ => Err(ParseError::ExpectedName(second.duplicate())),
    }
}

/// Syntactic analysis: turns a sequence of tokens into its syntax tree.
///
/// Succeeds exactly on the sequences that are expressions one behind the
/// other, with a `Program` that holds them in order; fails with the first
/// error met from left to right. The program's nodes are calls whose
/// arguments are calls; written out, the program is the token sequence
/// again; and it has one top-level node for each top-level parenthesis
/// group of the tokens.
pub fn parser(tokens: Vec<Token>) -> (result: Result<Node, ParseError>)
    ensures
        match result {
            Ok(tree) => {
                &&& parse(token_views(tokens@)) == Ok::<NodeView, ParseErrorView>(tree@)
                &&& tree@ is Program
                &&& all_call_trees(tree@->body)
                &&& unparse(tree@) == token_views(tokens@)
                &&& tree@->body.len() == top_level_groups(token_views(tokens@))
            },
            Err(error) => parse(token_views(tokens@)) == Err::<NodeView, ParseErrorView>(error@),
        },
{
    let ghost views = token_views(tokens@);
    let mut body: Vec<Node> = Vec::new();
    let mut pos: usize = 0;
    proof {
        lemma_body_after_none(program_spec(views, 0));
        assert(node_views(body@) =~= Seq::empty());
    }
    while pos < tokens.len()
        invariant
            views == token_views(tokens@),
            pos <= tokens.len(),
            program_spec(views, 0) == body_after(
                node_views(body@),
                program_spec(views, pos as int),
            ),
        decreases tokens.len() - pos,
    {
        let ghost before = node_views(body@);
        match walk(&tokens, pos) {
            Ok((node, next)) => {
                proof {
                    lemma_body_after_push(before, node@, program_spec(views, next as int));
                }
                attach(&mut body, node);
                pos = next;
            },
            Err(error) => {
                return Err(error);
            },
        }
    }
    proof {
        assert(node_views(body@) + Seq::<NodeView>::empty() =~= node_views(body@));
        lemma_program_view(body);
        lemma_parse_sound(views, NodeView::Program { body: node_views(body@) });
        lemma_program_groups(views, 0);
    }
    Ok(Node::Program { body })
}

} // verus!
