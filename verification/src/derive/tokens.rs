//! Token lists.

use vstd::prelude::*;
use vstd::string::StringExecFns;

verus! {

/// What encloses a group.
#[derive(Clone, Copy, Debug, PartialEq, Eq, Structural)]
pub enum Delimiter {
    /// Round brackets.
    Parenthesis,
    /// Curly brackets.
    Brace,
    /// Square brackets.
    Bracket,
    /// Nothing visible.
    Invisible,
}

/// One token of a declaration.
pub enum Token {
    /// A name or keyword.
    Ident(String),
    /// One punctuation character, and whether the next token follows at once.
    Punct(String, bool),
    /// A literal.
    Literal(String),
    /// A delimited list.
    Group(Delimiter, Vec<Token>),
}

/// What a token is.
pub enum TokenModel {
    Ident(Seq<char>),
    Punct(Seq<char>, bool),
    Literal(Seq<char>),
    Group(Delimiter, Seq<TokenModel>),
}

/// The model of a token.
pub open spec fn token_view(token: Token) -> TokenModel
    decreases token,
{
    match token {
        Token::Ident(text) => TokenModel::Ident(text@),
        Token::Punct(text, joint) => TokenModel::Punct(text@, joint),
        Token::Literal(text) => TokenModel::Literal(text@),
        Token::Group(delimiter, inner) => TokenModel::Group(
            delimiter,
            Seq::new(
                inner@.len(),
                |i: int|
                    if 0 <= i < inner@.len() {
                        token_view(inner@[i])
                    } else {
                        TokenModel::Literal(Seq::empty())
                    },
            ),
        ),
    }
}

/// The model of a token list.
pub open spec fn tokens_view(tokens: Seq<Token>) -> Seq<TokenModel> {
    Seq::new(tokens.len(), |i: int| token_view(tokens[i]))
}

/// What separates a token from the one before it when a list is written out.
pub const GAP: &'static str = " ";

/// Whether a text reads `other`.
pub fn reads(text: &String, other: &str) -> (same: bool)
    ensures
        same == (text@ == other@),
{
    *text == other.to_owned()
}

impl Delimiter {
    /// What opens a group.
    pub open spec fn opening(self) -> Seq<char> {
        match self {
            Delimiter::Parenthesis => "("@,
            Delimiter::Brace => "{"@,
            Delimiter::Bracket => "["@,
            Delimiter::Invisible => ""@,
        }
    }

    /// What closes a group.
    pub open spec fn closing(self) -> Seq<char> {
        match self {
            Delimiter::Parenthesis => ")"@,
            Delimiter::Brace => "}"@,
            Delimiter::Bracket => "]"@,
            Delimiter::Invisible => ""@,
        }
    }

    /// What opens a group.
    pub fn open_text(self) -> (text: &'static str)
        ensures
            text@ == self.opening(),
    {
        match self {
            Delimiter::Parenthesis => "(",
            Delimiter::Brace => "{",
            Delimiter::Bracket => "[",
            Delimiter::Invisible => "",
        }
    }

    /// What closes a group.
    pub fn close_text(self) -> (text: &'static str)
        ensures
            text@ == self.closing(),
    {
        match self {
            Delimiter::Parenthesis => ")",
            Delimiter::Brace => "}",
            Delimiter::Bracket => "]",
            Delimiter::Invisible => "",
        }
    }
}

impl TokenModel {
    /// Whether this is the name `text`.
    pub open spec fn is_ident(self, text: Seq<char>) -> bool {
        self == TokenModel::Ident(text)
    }

    /// Whether this is the punctuation character `text`.
    pub open spec fn is_punct(self, text: Seq<char>) -> bool {
        self matches TokenModel::Punct(found, _) && found == text
    }

    /// Whether this is a group in `delimiter`.
    pub open spec fn is_group(self, delimiter: Delimiter) -> bool {
        self matches TokenModel::Group(found, _) && found == delimiter
    }

    /// The tokens inside a group.
    pub open spec fn inside(self) -> Seq<TokenModel> {
        match self {
            TokenModel::Group(_, inner) => inner,
            _ => Seq::empty(),
        }
    }

    /// Whether the next token follows at once.
    pub open spec fn joint(self) -> bool {
        self matches TokenModel::Punct(_, joint) && joint
    }
}

impl Token {
    /// Whether this is the name `text`.
    pub fn is_ident(&self, text: &str) -> (yes: bool)
        ensures
            yes == token_view(*self).is_ident(text@),
    {
        match self {
            Token::Ident(found) => reads(found, text),
            _ => false,
        }
    }

    /// Whether this is the punctuation character `text`.
    pub fn is_punct(&self, text: &str) -> (yes: bool)
        ensures
            yes == token_view(*self).is_punct(text@),
    {
        match self {
            Token::Punct(found, _) => reads(found, text),
            _ => false,
        }
    }

    /// Whether this is a group in `delimiter`.
    pub fn is_group(&self, delimiter: Delimiter) -> (yes: bool)
        ensures
            yes == token_view(*self).is_group(delimiter),
    {
        match self {
            Token::Group(found, _) => *found == delimiter,
            _ => false,
        }
    }

    /// Whether the next token follows at once.
    pub fn joint(&self) -> (yes: bool)
        ensures
            yes == token_view(*self).joint(),
    {
        match self {
            Token::Punct(_, joint) => *joint,
            _ => false,
        }
    }
}

/// A token written out.
pub open spec fn token_text(token: TokenModel) -> Seq<char>
    decreases token,
{
    match token {
        TokenModel::Ident(text) => text,
        TokenModel::Punct(text, _) => text,
        TokenModel::Literal(text) => text,
        TokenModel::Group(delimiter, inner) => delimiter.opening() + rendered(inner)
            + delimiter.closing(),
    }
}

/// A token list written out: tokens are kept apart by a space unless the first
/// of the two is joint.
pub open spec fn rendered(tokens: Seq<TokenModel>) -> Seq<char>
    decreases tokens,
{
    if tokens.len() == 0 {
        Seq::empty()
    } else {
        let before = tokens.drop_last();
        rendered(before) + gap(before) + token_text(tokens.last())
    }
}

/// What stands between a list and the token after it.
pub open spec fn gap(before: Seq<TokenModel>) -> Seq<char> {
    if before.len() == 0 || before.last().joint() {
        Seq::empty()
    } else {
        GAP@
    }
}

/// A group's model is over the models of its tokens.
pub proof fn lemma_inside(delimiter: Delimiter, inner: Vec<Token>)
    ensures
        token_view(Token::Group(delimiter, inner)) == TokenModel::Group(
            delimiter,
            tokens_view(inner@),
        ),
{
    assert(token_view(Token::Group(delimiter, inner)).inside() =~= tokens_view(inner@));
}

/// Writes a token out.
pub fn write_token(token: &Token) -> (text: String)
    ensures
        text@ == token_text(token_view(*token)),
    decreases token,
{
    match token {
        Token::Ident(text) => text.clone(),
        Token::Punct(text, _) => text.clone(),
        Token::Literal(text) => text.clone(),
        Token::Group(delimiter, inner) => {
            proof {
                lemma_inside(*delimiter, *inner);
            }
            let mut text = delimiter.open_text().to_owned();
            text.append(render_tokens(inner).as_str());
            text.append(delimiter.close_text());
            text
        },
    }
}

/// Writes a token list out.
pub fn render_tokens(tokens: &Vec<Token>) -> (text: String)
    ensures
        text@ == rendered(tokens_view(tokens@)),
    decreases tokens,
{
    let mut text = String::new();
    let mut i: usize = 0;
    while i < tokens.len()
        invariant
            i <= tokens@.len(),
            text@ == rendered(tokens_view(tokens@).take(i as int)),
        decreases tokens@.len() - i,
    {
        proof {
            assert(tokens_view(tokens@).take(i + 1).drop_last() =~= tokens_view(tokens@).take(
                i as int,
            ));
        }
        if i > 0 && !tokens[i - 1].joint() {
            text.append(GAP);
        }
        assert(decreases_to!(tokens => tokens@[i as int]));
        text.append(write_token(&tokens[i]).as_str());
        i = i + 1;
    }
    assert(tokens_view(tokens@).take(tokens@.len() as int) =~= tokens_view(tokens@));
    text
}

/// Copies a token.
pub fn copy_token(token: &Token) -> (copy: Token)
    ensures
        token_view(copy) == token_view(*token),
    decreases token,
{
    match token {
        Token::Ident(text) => Token::Ident(text.clone()),
        Token::Punct(text, joint) => Token::Punct(text.clone(), *joint),
        Token::Literal(text) => Token::Literal(text.clone()),
        Token::Group(delimiter, inner) => {
            let copied = copy_tokens(inner);
            proof {
                lemma_inside(*delimiter, *inner);
                lemma_inside(*delimiter, copied);
            }
            Token::Group(*delimiter, copied)
        },
    }
}

/// Copies a token list.
pub fn copy_tokens(tokens: &Vec<Token>) -> (copies: Vec<Token>)
    ensures
        tokens_view(copies@) == tokens_view(tokens@),
    decreases tokens,
{
    let mut copies: Vec<Token> = Vec::new();
    let mut i: usize = 0;
    while i < tokens.len()
        invariant
            i <= tokens@.len(),
            tokens_view(copies@) =~= tokens_view(tokens@).take(i as int),
        decreases tokens@.len() - i,
    {
        assert(decreases_to!(tokens => tokens@[i as int]));
        let ghost before = copies@;
        copies.push(copy_token(&tokens[i]));
        proof {
            assert(tokens_view(copies@) =~= tokens_view(before).push(token_view(copies@.last())));
            assert(tokens_view(tokens@).take(i + 1) =~= tokens_view(tokens@).take(i as int).push(
                token_view(tokens@[i as int]),
            ));
        }
        i = i + 1;
    }
    copies
}

} // verus!
