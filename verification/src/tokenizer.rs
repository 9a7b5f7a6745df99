//! Lexical analysis: source text to a sequence of tokens.

use crate::lexical::{lemma_tokens_well_formed, well_formed};
use vstd::prelude::*;

verus! {

/// An indivisible lexical unit of the source text.
#[derive(Debug, PartialEq)]
pub enum Token {
    ParenOpen,
    ParenClose,
    Number(String),
    Name(String),
    String(String),
}

/// The mathematical value of a [`Token`]: payloads are sequences of characters.
pub enum TokenView {
    ParenOpen,
    ParenClose,
    Number(Seq<char>),
    Name(Seq<char>),
    String(Seq<char>),
}

impl View for Token {
    type V = TokenView;

    open spec fn view(&self) -> TokenView {
        match self {
            Token::ParenOpen => TokenView::ParenOpen,
            Token::ParenClose => TokenView::ParenClose,
            Token::Number(text) => TokenView::Number(text@),
            Token::Name(text) => TokenView::Name(text@),
            Token::String(text) => TokenView::String(text@),
        }
    }
}

impl Token {
    /// Whether this token is a closing parenthesis.
    pub fn is_paren_close(&self) -> (b: bool)
        ensures
            b == (self@ == TokenView::ParenClose),
    {
        match self {
            Token::ParenClose => true,
            _ => false,
        }
    }

    /// An independent copy of this token.
    pub fn duplicate(&self) -> (copy: Token)
        ensures
            copy@ == self@,
    {
        match self {
            Token::ParenOpen => Token::ParenOpen,
            Token::ParenClose => Token::ParenClose,
            Token::Number(text) => Token::Number(text.clone()),
            Token::Name(text) => Token::Name(text.clone()),
            Token::String(text) => Token::String(text.clone()),
        }
    }
}

/// The views of a sequence of tokens, position by position.
pub open spec fn token_views(tokens: Seq<Token>) -> Seq<TokenView> {
    Seq::new(tokens.len(), |i: int| tokens[i]@)
}

/// Why a source text has no token sequence.
#[derive(Debug, PartialEq, Eq, Clone, Copy)]
pub enum LexError {
    /// A character that starts no token and is not whitespace.
    UnknownCharacter(char),
}

/// The characters of `input`, in order.
pub fn characters(input: &str) -> (chars: Vec<char>)
    ensures
        chars@ == input@,
{
    let mut chars: Vec<char> = Vec::new();
    for c in it: input.chars()
        invariant
            it.seq() == input@,
            chars@ == it.seq().take(it.index()),
    {
        chars.push(c);
    }
    chars
}

/// The class of characters that a run is made of.
#[derive(Debug, PartialEq, Eq, Clone, Copy)]
pub enum RunKind {
    /// ASCII decimal digits: the text of a number.
    Digits,
    /// ASCII lowercase letters: the text of a name.
    Letters,
    /// Anything but a double quote: the text of a string.
    Quoted,
}

/// Whether `c` may stand in a run of the given kind.
pub open spec fn in_run(kind: RunKind, c: char) -> bool {
    match kind {
        RunKind::Digits => '0' <= c && c <= '9',
        RunKind::Letters => 'a' <= c && c <= 'z',
        RunKind::Quoted => c != '"',
    }
}

/// The length of the longest run of the given kind that starts at `from`.
pub open spec fn run_len(s: Seq<char>, from: int, kind: RunKind) -> nat
    decreases s.len() - from,
{
    if 0 <= from < s.len() && in_run(kind, s[from]) {
        1 + run_len(s, from + 1, kind)
    } else {
        0
    }
}

/// A run ends inside the text.
pub proof fn lemma_run_in_bounds(s: Seq<char>, from: int, kind: RunKind)
    requires
        0 <= from <= s.len(),
    ensures
        from + run_len(s, from, kind) <= s.len(),
    decreases s.len() - from,
{
    if from < s.len() && in_run(kind, s[from]) {
        lemma_run_in_bounds(s, from + 1, kind);
    }
}

/// Whether a character has the Unicode property `White_Space`, as
/// `char::is_whitespace` of the standard library decides it.
pub uninterp spec fn white_space(c: char) -> bool;

/// `char::is_whitespace` is a function of the character alone; its result
/// is what [`white_space`] names. Nothing is claimed of which characters
/// those are.
pub assume_specification[ char::is_whitespace ](c: char) -> (b: bool)
    ensures
        b == white_space(c),
;

/// `String::push` appends the given character to the end of the string and
/// leaves the characters before it as they were.
pub assume_specification[ std::string::String::push ](text: &mut std::string::String, c: char)
    ensures
        final(text)@ == old(text)@.push(c),
;

/// The tokens `prefix`, then those of `rest`; the error of `rest` where it
/// has one.
pub open spec fn prefixed(
    prefix: Seq<TokenView>,
    rest: Result<Seq<TokenView>, LexError>,
) -> Result<Seq<TokenView>, LexError> {
    match rest {
        Ok(tokens) => Ok(prefix + tokens),
        Err(error) => Err(error),
    }
}

/// The tokens of the text from position `pos` on, or the first character
/// from there on that starts no token and is not whitespace.
///
/// A number or a name is the longest run of its class. A string runs from
/// behind an opening quote up to the next quote, or to the end of the text
/// where there is none.
pub open spec fn lex_from(s: Seq<char>, pos: int) -> Result<Seq<TokenView>, LexError>
    decreases s.len() - pos,
{
    if pos < 0 || pos >= s.len() {
        Ok(Seq::empty())
    } else {
        let c = s[pos];
        if c == '(' {
            prefixed(seq![TokenView::ParenOpen], lex_from(s, pos + 1))
        } else if c == ')' {
            prefixed(seq![TokenView::ParenClose], lex_from(s, pos + 1))
        } else if in_run(RunKind::Digits, c) {
            let end = pos + 1 + run_len(s, pos + 1, RunKind::Digits);
            proof {
                lemma_run_in_bounds(s, pos + 1, RunKind::Digits);
            }
            prefixed(seq![TokenView::Number(s.subrange(pos, end))], lex_from(s, end))
        } else if in_run(RunKind::Letters, c) {
            let end = pos + 1 + run_len(s, pos + 1, RunKind::Letters);
            proof {
                lemma_run_in_bounds(s, pos + 1, RunKind::Letters);
            }
            prefixed(seq![TokenView::Name(s.subrange(pos, end))], lex_from(s, end))
        } else if c == '"' {
            let end = pos + 1 + run_len(s, pos + 1, RunKind::Quoted);
            proof {
                lemma_run_in_bounds(s, pos + 1, RunKind::Quoted);
            }
            prefixed(
                seq![TokenView::String(s.subrange(pos + 1, end))],
                if end < s.len() {
                    lex_from(s, end + 1)
                } else {
                    Ok(Seq::empty())
                },
            )
        } else if white_space(c) {
            lex_from(s, pos + 1)
        } else {
            Err(LexError::UnknownCharacter(c))
        }
    }
}

/// The tokens of a whole text.
pub open spec fn lex(s: Seq<char>) -> Result<Seq<TokenView>, LexError> {
    lex_from(s, 0)
}

/// No tokens before the rest leave it as it is.
pub proof fn lemma_prefixed_none(rest: Result<Seq<TokenView>, LexError>)
    ensures
        prefixed(Seq::empty(), rest) == rest,
{
    if let Ok(tokens) = rest {
        assert(Seq::<TokenView>::empty() + tokens =~= tokens);
    }
}

/// Moving one token from the front of the rest to the end of the prefix
/// changes nothing.
pub proof fn lemma_prefixed_push(
    prefix: Seq<TokenView>,
    token: TokenView,
    rest: Result<Seq<TokenView>, LexError>,
)
    ensures
        prefixed(prefix.push(token), rest) == prefixed(prefix, prefixed(seq![token], rest)),
{
    if let Ok(tokens) = rest {
        assert(prefix.push(token) + tokens =~= prefix + (seq![token] + tokens));
    }
}

/// Whether `c` may stand in a run of the given kind.
pub fn belongs(kind: RunKind, c: char) -> (b: bool)
    ensures
        b == in_run(kind, c),
{
    match kind {
        RunKind::Digits => '0' <= c && c <= '9',
        RunKind::Letters => 'a' <= c && c <= 'z',
        RunKind::Quoted => c != '"',
    }
}

/// Collects the longest run of the given kind that starts at `start`, and
/// returns its text with the position behind it.
pub fn take_run(chars: &Vec<char>, start: usize, kind: RunKind) -> (run: (String, usize))
    requires
        start <= chars.len(),
    ensures
        run.1 == start + run_len(chars@, start as int, kind),
        run.1 <= chars.len(),
        run.0@ == chars@.subrange(start as int, run.1 as int),
{
    let mut text = String::new();
    let mut end: usize = start;
    while end < chars.len() && belongs(kind, chars[end])
        invariant
            start <= end <= chars.len(),
            run_len(chars@, start as int, kind) == (end - start) + run_len(
                chars@,
                end as int,
                kind,
            ),
            text@ == chars@.subrange(start as int, end as int),
        decreases chars.len() - end,
    {
        text.push(chars[end]);
        end += 1;
        assert(text@ =~= chars@.subrange(start as int, end as int));
    }
    (text, end)
}

/// Pushes `token`; the views of the tokens grow by its view.
fn emit(tokens: &mut Vec<Token>, token: Token)
    ensures
        token_views(final(tokens)@) == token_views(old(tokens)@).push(token@),
{
    tokens.push(token);
    assert(token_views(tokens@) =~= token_views(old(tokens)@).push(token@));
}

/// Lexical analysis: turns source text into its sequence of tokens.
///
/// Succeeds exactly on the texts in which every character outside a string
/// starts or continues a token or is whitespace; fails with the first
/// character that does neither. Every token's text is what its kind
/// allows.
pub fn tokenizer(input: &str) -> (result: Result<Vec<Token>, LexError>)
    ensures
        match result {
            Ok(tokens) => {
                &&& lex(input@) == Ok::<Seq<TokenView>, LexError>(token_views(tokens@))
                &&& forall|i: int| 0 <= i < tokens.len() ==> well_formed(#[trigger] tokens[i]@)
            },
            Err(error) => lex(input@) == Err::<Seq<TokenView>, LexError>(error),
        },
{
    let chars = characters(input);
    let mut tokens: Vec<Token> = Vec::new();
    let mut pos: usize = 0;
    proof {
        lemma_prefixed_none(lex_from(chars@, 0));
        assert(token_views(tokens@) =~= Seq::empty());
    }
    while pos < chars.len()
        invariant
            chars@ == input@,
            pos <= chars.len(),
            lex(chars@) == prefixed(token_views(tokens@), lex_from(chars@, pos as int)),
        decreases chars.len() - pos,
    {
        let c = chars[pos];
        let ghost before = token_views(tokens@);
        if c == '(' {
            emit(&mut tokens, Token::ParenOpen);
            proof {
                lemma_prefixed_push(before, TokenView::ParenOpen, lex_from(chars@, pos + 1));
            }
            pos += 1;
        } else if c == ')' {
            emit(&mut tokens, Token::ParenClose);
            proof {
                lemma_prefixed_push(before, TokenView::ParenClose, lex_from(chars@, pos + 1));
            }
            pos += 1;
        } else if belongs(RunKind::Digits, c) {
            let (text, end) = take_run(&chars, pos, RunKind::Digits);
            proof {
                lemma_prefixed_push(before, TokenView::Number(text@), lex_from(chars@, end as int));
            }
            emit(&mut tokens, Token::Number(text));
            pos = end;
        } else if belongs(RunKind::Letters, c) {
            let (text, end) = take_run(&chars, pos, RunKind::Letters);
            proof {
                lemma_prefixed_push(before, TokenView::Name(text@), lex_from(chars@, end as int));
            }
            emit(&mut tokens, Token::Name(text));
            pos = end;
        } else if c == '"' {
            let (text, end) = take_run(&chars, pos + 1, RunKind::Quoted);
            pos = if end < chars.len() {
                end + 1
            } else {
                end
            };
            proof {
                lemma_prefixed_push(before, TokenView::String(text@), lex_from(chars@, pos as int));
            }
            emit(&mut tokens, Token::String(text));
        } else if c.is_whitespace() {
            pos += 1;
        } else {
            return Err(LexError::UnknownCharacter(c));
        }
    }
    proof {
        assert(token_views(tokens@) + Seq::<TokenView>::empty() =~= token_views(tokens@));
        lemma_tokens_well_formed(chars@, 0);
        assert forall|i: int| 0 <= i < tokens.len() implies well_formed(
            #[trigger] tokens[i]@,
        ) by {
            assert(token_views(tokens@)[i] == tokens[i]@);
        }
    }
    Ok(tokens)
}

} // verus!
