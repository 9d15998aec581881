//! Param bundles: structs whose fields are system params.

use vstd::prelude::*;
use vstd::string::StringExecFns;

use crate::derive::attributes::{COMMA, HASH};
use crate::derive::tokens::{
    copy_token, lemma_inside, token_view, tokens_view, Delimiter, Token, TokenModel,
};

verus! {

/// What marks a lifetime.
pub const APOSTROPHE: &'static str = "'";

/// What opens a list of generics.
pub const LESS: &'static str = "<";

/// What closes a list of generics.
pub const GREATER: &'static str = ">";

/// What parts a field's name from its type.
pub const COLON: &'static str = ":";

/// One field of a bundle.
pub struct BundleField {
    /// The field's name.
    pub name: String,
    /// The tokens of the field's type.
    pub ty: Vec<Token>,
}

/// A parsed bundle.
pub struct Bundle {
    /// The struct's name.
    pub name: String,
    /// The struct's lifetime parameter, without the apostrophe.
    pub lifetime: Option<String>,
    /// The struct's fields.
    pub fields: Vec<BundleField>,
}

/// Why a declaration is no bundle.
pub enum BundleError {
    /// The declaration is not a struct.
    NotAStruct,
    /// An apostrophe without a name in the generics.
    MalformedLifetime,
    /// More than one lifetime parameter.
    SeveralLifetimes,
    /// A type parameter.
    TypeParameters,
    /// Generics that do not end.
    UnterminatedGenerics,
    /// No body in curly brackets.
    NoNamedFields,
    /// A body without fields.
    NoFields,
    /// A field without a colon behind its name.
    MissingColon(String),
    /// A field without a type.
    EmptyType(String),
}

/// What a field is.
pub struct FieldModel {
    pub name: Seq<char>,
    pub ty: Seq<TokenModel>,
}

/// What a bundle is.
pub struct BundleModel {
    pub name: Seq<char>,
    pub lifetime: Option<Seq<char>>,
    pub fields: Seq<FieldModel>,
}

/// What an error is.
pub enum FaultModel {
    NotAStruct,
    MalformedLifetime,
    SeveralLifetimes,
    TypeParameters,
    UnterminatedGenerics,
    NoNamedFields,
    NoFields,
    MissingColon(Seq<char>),
    EmptyType(Seq<char>),
}

/// The text of an optional name.
pub open spec fn optional_text(text: Option<String>) -> Option<Seq<char>> {
    match text {
        Some(text) => Some(text@),
        None => None,
    }
}

impl View for BundleField {
    type V = FieldModel;

    open spec fn view(&self) -> FieldModel {
        FieldModel { name: self.name@, ty: tokens_view(self.ty@) }
    }
}

impl View for Bundle {
    type V = BundleModel;

    open spec fn view(&self) -> BundleModel {
        BundleModel {
            name: self.name@,
            lifetime: optional_text(self.lifetime),
            fields: self.fields@.map_values(|field: BundleField| field@),
        }
    }
}

impl View for BundleError {
    type V = FaultModel;

    open spec fn view(&self) -> FaultModel {
        match *self {
            BundleError::NotAStruct => FaultModel::NotAStruct,
            BundleError::MalformedLifetime => FaultModel::MalformedLifetime,
            BundleError::SeveralLifetimes => FaultModel::SeveralLifetimes,
            BundleError::TypeParameters => FaultModel::TypeParameters,
            BundleError::UnterminatedGenerics => FaultModel::UnterminatedGenerics,
            BundleError::NoNamedFields => FaultModel::NoNamedFields,
            BundleError::NoFields => FaultModel::NoFields,
            BundleError::MissingColon(name) => FaultModel::MissingColon(name@),
            BundleError::EmptyType(name) => FaultModel::EmptyType(name@),
        }
    }
}

impl FaultModel {
    /// The message that stands for an error.
    pub open spec fn wording(self) -> Seq<char> {
        match self {
            FaultModel::NotAStruct => "SystemParam can only be derived for structs"@,
            FaultModel::MalformedLifetime => "malformed lifetime parameter"@,
            FaultModel::SeveralLifetimes => "SystemParam bundles support at most one lifetime"@,
            FaultModel::TypeParameters =>
                "SystemParam bundles support lifetimes only, no type parameters"@,
            FaultModel::UnterminatedGenerics => "unterminated generics"@,
            FaultModel::NoNamedFields => "SystemParam requires named fields"@,
            FaultModel::NoFields => "SystemParam bundles need at least one field"@,
            FaultModel::MissingColon(name) => "expected `:` after field `"@ + name + "`"@,
            FaultModel::EmptyType(name) => "field `"@ + name + "` has an empty type"@,
        }
    }
}

impl BundleError {
    /// The message that stands for an error.
    pub fn message(&self) -> (text: String)
        ensures
            text@ == self@.wording(),
    {
        match self {
            BundleError::NotAStruct => "SystemParam can only be derived for structs".to_owned(),
            BundleError::MalformedLifetime => "malformed lifetime parameter".to_owned(),
            BundleError::SeveralLifetimes =>
                "SystemParam bundles support at most one lifetime".to_owned(),
            BundleError::TypeParameters =>
                "SystemParam bundles support lifetimes only, no type parameters".to_owned(),
            BundleError::UnterminatedGenerics => "unterminated generics".to_owned(),
            BundleError::NoNamedFields => "SystemParam requires named fields".to_owned(),
            BundleError::NoFields => "SystemParam bundles need at least one field".to_owned(),
            BundleError::MissingColon(name) => {
                let mut text = "expected `:` after field `".to_owned();
                text.append(name.as_str());
                text.append("`");
                text
            },
            BundleError::EmptyType(name) => {
                let mut text = "field `".to_owned();
                text.append(name.as_str());
                text.append("` has an empty type");
                text
            },
        }
    }
}

/// What is read of a declaration before its fields.
pub struct HeadModel {
    pub name: Option<Seq<char>>,
    pub lifetime: Option<Seq<char>>,
    pub body: Option<Seq<TokenModel>>,
}

/// Reads a list of generics behind its opening bracket: the lifetime, and what
/// follows the closing bracket.
pub open spec fn generics(tokens: Seq<TokenModel>, lifetime: Option<Seq<char>>) -> Result<
    (Option<Seq<char>>, Seq<TokenModel>),
    FaultModel,
>
    decreases tokens.len(),
{
    if tokens.len() == 0 {
        Err(FaultModel::UnterminatedGenerics)
    } else if tokens[0].is_punct(APOSTROPHE@) {
        if tokens.len() < 2 {
            Err(FaultModel::MalformedLifetime)
        } else {
            match tokens[1] {
                TokenModel::Ident(name) => if lifetime is Some {
                    Err(FaultModel::SeveralLifetimes)
                } else {
                    generics(tokens.skip(2), Some(name))
                },
                _ => Err(FaultModel::MalformedLifetime),
            }
        }
    } else if tokens[0].is_punct(GREATER@) {
        Ok((lifetime, tokens.skip(1)))
    } else if tokens[0].is_punct(COMMA@) {
        generics(tokens.skip(1), lifetime)
    } else {
        Err(FaultModel::TypeParameters)
    }
}

/// Reading generics leaves fewer tokens.
pub proof fn lemma_generics_shorten(tokens: Seq<TokenModel>, lifetime: Option<Seq<char>>)
    ensures
        generics(tokens, lifetime) matches Ok(read) ==> read.1.len() < tokens.len(),
    decreases tokens.len(),
{
    if tokens.len() == 0 {
    } else if tokens[0].is_punct(APOSTROPHE@) {
        if tokens.len() >= 2 {
            if let TokenModel::Ident(name) = tokens[1] {
                lemma_generics_shorten(tokens.skip(2), Some(name));
            }
        }
    } else if tokens[0].is_punct(COMMA@) {
        lemma_generics_shorten(tokens.skip(1), lifetime);
    }
}

/// Reads a declaration up to its fields. The token behind a hash sign is passed
/// over; the last body in curly brackets counts.
pub open spec fn head_of(tokens: Seq<TokenModel>, head: HeadModel) -> Result<HeadModel, FaultModel>
    decreases tokens.len(),
{
    if tokens.len() == 0 {
        Ok(head)
    } else if tokens[0].is_punct(HASH@) {
        if tokens.len() < 2 {
            Ok(head)
        } else {
            head_of(tokens.skip(2), head)
        }
    } else if tokens[0].is_ident("struct"@) {
        if tokens.len() < 2 {
            Err(FaultModel::NotAStruct)
        } else {
            match tokens[1] {
                TokenModel::Ident(name) => if tokens.len() >= 3 && tokens[2].is_punct(LESS@) {
                    proof {
                        lemma_generics_shorten(tokens.skip(3), head.lifetime);
                    }
                    match generics(tokens.skip(3), head.lifetime) {
                        Err(fault) => Err(fault),
                        Ok((lifetime, rest)) => head_of(
                            rest,
                            HeadModel { name: Some(name), lifetime, body: head.body },
                        ),
                    }
                } else {
                    head_of(tokens.skip(2), HeadModel { name: Some(name), ..head })
                },
                _ => Err(FaultModel::NotAStruct),
            }
        }
    } else if tokens[0].is_group(Delimiter::Brace) {
        head_of(tokens.skip(1), HeadModel { body: Some(tokens[0].inside()), ..head })
    } else {
        head_of(tokens.skip(1), head)
    }
}

/// What is left behind attributes and visibility.
pub open spec fn unprefixed(tokens: Seq<TokenModel>) -> Seq<TokenModel>
    decreases tokens.len(),
{
    if tokens.len() == 0 {
        tokens
    } else if tokens[0].is_punct(HASH@) {
        if tokens.len() < 2 {
            Seq::empty()
        } else {
            unprefixed(tokens.skip(2))
        }
    } else if tokens[0].is_ident("pub"@) {
        if tokens.len() >= 2 && tokens[1].is_group(Delimiter::Parenthesis) {
            unprefixed(tokens.skip(2))
        } else {
            unprefixed(tokens.skip(1))
        }
    } else {
        tokens
    }
}

/// How many tokens stand before the first comma outside angle brackets.
pub open spec fn type_length(tokens: Seq<TokenModel>, depth: int) -> nat
    decreases tokens.len(),
{
    if tokens.len() == 0 {
        0
    } else if tokens[0].is_punct(LESS@) {
        1 + type_length(tokens.skip(1), depth + 1)
    } else if tokens[0].is_punct(GREATER@) {
        1 + type_length(tokens.skip(1), depth - 1)
    } else if tokens[0].is_punct(COMMA@) && depth == 0 {
        0
    } else {
        1 + type_length(tokens.skip(1), depth)
    }
}

/// Passing over a prefix leaves no more tokens.
pub proof fn lemma_unprefixed_shortens(tokens: Seq<TokenModel>)
    ensures
        unprefixed(tokens).len() <= tokens.len(),
    decreases tokens.len(),
{
    if tokens.len() > 0 {
        if tokens[0].is_punct(HASH@) {
            if tokens.len() >= 2 {
                lemma_unprefixed_shortens(tokens.skip(2));
            }
        } else if tokens[0].is_ident("pub"@) {
            if tokens.len() >= 2 && tokens[1].is_group(Delimiter::Parenthesis) {
                lemma_unprefixed_shortens(tokens.skip(2));
            } else {
                lemma_unprefixed_shortens(tokens.skip(1));
            }
        }
    }
}

/// The fields of a body: names with types, parted by commas. What does not start
/// with a name ends the list.
pub open spec fn fields_of(tokens: Seq<TokenModel>) -> Result<Seq<FieldModel>, FaultModel>
    decreases tokens.len(),
{
    proof {
        lemma_unprefixed_shortens(tokens);
    }
    let rest = unprefixed(tokens);
    if rest.len() == 0 {
        Ok(Seq::empty())
    } else {
        match rest[0] {
            TokenModel::Ident(name) => {
                let behind = rest.skip(2);
                let length = type_length(behind, 0) as int;
                if rest.len() < 2 || !rest[1].is_punct(COLON@) {
                    Err(FaultModel::MissingColon(name))
                } else if length == 0 {
                    Err(FaultModel::EmptyType(name))
                } else {
                    let field = FieldModel { name, ty: behind.take(length) };
                    if length >= behind.len() {
                        Ok(seq![field])
                    } else {
                        match fields_of(behind.skip(length + 1)) {
                            Ok(more) => Ok(seq![field] + more),
                            Err(fault) => Err(fault),
                        }
                    }
                }
            },
            _ => Ok(Seq::empty()),
        }
    }
}

/// The bundle that a declaration declares.
pub open spec fn bundle_of(tokens: Seq<TokenModel>) -> Result<BundleModel, FaultModel> {
    match head_of(tokens, HeadModel { name: None, lifetime: None, body: None }) {
        Err(fault) => Err(fault),
        Ok(head) => match (head.name, head.body) {
            (None, _) => Err(FaultModel::NotAStruct),
            (_, None) => Err(FaultModel::NoNamedFields),
            (Some(name), Some(body)) => match fields_of(body) {
                Err(fault) => Err(fault),
                Ok(fields) => if fields.len() == 0 {
                    Err(FaultModel::NoFields)
                } else {
                    Ok(BundleModel { name, lifetime: head.lifetime, fields })
                },
            },
        },
    }
}

/// A lifetime with its place in the declaration, once the generics are read.
fn read_generics(tokens: &Vec<Token>, start: usize, known: Option<String>) -> (read: Result<
    (Option<String>, usize),
    BundleError,
>)
    requires
        start <= tokens@.len(),
    ensures
        match read {
            Ok((lifetime, next)) => start < next <= tokens@.len() && generics(
                tokens_view(tokens@).skip(start as int),
                optional_text(known),
            ) == Ok::<(Option<Seq<char>>, Seq<TokenModel>), FaultModel>(
                (optional_text(lifetime), tokens_view(tokens@).skip(next as int)),
            ),
            Err(error) => generics(tokens_view(tokens@).skip(start as int), optional_text(known))
                == Err::<(Option<Seq<char>>, Seq<TokenModel>), FaultModel>(error@),
        },
{
    let ghost all = tokens_view(tokens@);
    let ghost wanted = generics(all.skip(start as int), optional_text(known));
    let mut lifetime = known;
    let mut i: usize = start;
    while i < tokens.len()
        invariant
            all == tokens_view(tokens@),
            start <= i <= tokens@.len(),
            wanted == generics(all.skip(start as int), optional_text(known)),
            wanted == generics(all.skip(i as int), optional_text(lifetime)),
        decreases tokens@.len() - i,
    {
        let ghost rest = all.skip(i as int);
        assert(rest[0] == token_view(tokens@[i as int]));
        assert(rest.skip(1) =~= all.skip(i + 1));
        if tokens[i].is_punct(APOSTROPHE) {
            if i + 1 >= tokens.len() {
                return Err(BundleError::MalformedLifetime);
            }
            assert(rest.skip(2) =~= all.skip(i + 2));
            assert(rest[1] == token_view(tokens@[i + 1]));
            match &tokens[i + 1] {
                Token::Ident(name) => {
                    if lifetime.is_some() {
                        return Err(BundleError::SeveralLifetimes);
                    }
                    lifetime = Some(name.clone());
                    i = i + 2;
                },
                _ => {
                    return Err(BundleError::MalformedLifetime);
                },
            }
        } else if tokens[i].is_punct(GREATER) {
            return Ok((lifetime, i + 1));
        } else if tokens[i].is_punct(COMMA) {
            i = i + 1;
        } else {
            return Err(BundleError::TypeParameters);
        }
    }
    Err(BundleError::UnterminatedGenerics)
}

/// What is read of a declaration before its fields; the body by its place.
struct Head {
    name: Option<String>,
    lifetime: Option<String>,
    body: Option<usize>,
}

impl Head {
    spec fn model(self, tokens: Seq<TokenModel>) -> HeadModel {
        HeadModel {
            name: optional_text(self.name),
            lifetime: optional_text(self.lifetime),
            body: match self.body {
                Some(place) => Some(tokens[place as int].inside()),
                None => None,
            },
        }
    }

    spec fn fits(self, tokens: Seq<TokenModel>) -> bool {
        self.body matches Some(place) ==> place < tokens.len() && tokens[place as int].is_group(
            Delimiter::Brace,
        )
    }
}

fn read_head(tokens: &Vec<Token>) -> (read: Result<Head, BundleError>)
    ensures
        match read {
            Ok(head) => head.fits(tokens_view(tokens@)) && head_of(
                tokens_view(tokens@),
                HeadModel { name: None, lifetime: None, body: None },
            ) == Ok::<HeadModel, FaultModel>(head.model(tokens_view(tokens@))),
            Err(error) => head_of(
                tokens_view(tokens@),
                HeadModel { name: None, lifetime: None, body: None },
            ) == Err::<HeadModel, FaultModel>(error@),
        },
{
    let ghost all = tokens_view(tokens@);
    let ghost start = HeadModel { name: None, lifetime: None, body: None };
    let mut head = Head { name: None, lifetime: None, body: None };
    let mut i: usize = 0;
    assert(all.skip(0) =~= all);
    while i < tokens.len()
        invariant
            all == tokens_view(tokens@),
            start == (HeadModel { name: None, lifetime: None, body: None }),
            i <= tokens@.len(),
            head.fits(all),
            head_of(all, start) == head_of(all.skip(i as int), head.model(all)),
        decreases tokens@.len() - i,
    {
        let ghost rest = all.skip(i as int);
        let ghost before = head.model(all);
        assert(rest[0] == token_view(tokens@[i as int]));
        assert(rest.skip(1) =~= all.skip(i + 1));
        if tokens[i].is_punct(HASH) {
            if i + 1 >= tokens.len() {
                i = i + 1;
            } else {
                assert(rest.skip(2) =~= all.skip(i + 2));
                i = i + 2;
            }
        } else if tokens[i].is_ident("struct") {
            if i + 1 >= tokens.len() {
                return Err(BundleError::NotAStruct);
            }
            assert(rest.skip(2) =~= all.skip(i + 2));
            assert(rest[1] == token_view(tokens@[i + 1]));
            let name = match &tokens[i + 1] {
                Token::Ident(name) => name.clone(),
                _ => {
                    return Err(BundleError::NotAStruct);
                },
            };
            if i + 2 < tokens.len() && tokens[i + 2].is_punct(LESS) {
                assert(rest.skip(3) =~= all.skip(i + 3));
                assert(rest[2] == token_view(tokens@[i + 2]));
                let Head { name: _, lifetime, body } = head;
                match read_generics(tokens, i + 3, lifetime) {
                    Err(error) => {
                        return Err(error);
                    },
                    Ok((lifetime, next)) => {
                        head = Head { name: Some(name), lifetime, body };
                        i = next;
                    },
                }
            } else {
                head.name = Some(name);
                assert(head.model(all) == (HeadModel { name: Some(name@), ..before }));
                i = i + 2;
            }
        } else if tokens[i].is_group(Delimiter::Brace) {
            head.body = Some(i);
            assert(head.model(all) == (HeadModel { body: Some(rest[0].inside()), ..before }));
            i = i + 1;
        } else {
            i = i + 1;
        }
    }
    assert(all.skip(i as int).len() == 0);
    Ok(head)
}

fn pass_prefix(tokens: &Vec<Token>, start: usize) -> (next: usize)
    requires
        start <= tokens@.len(),
    ensures
        start <= next <= tokens@.len(),
        unprefixed(tokens_view(tokens@).skip(start as int)) == tokens_view(tokens@).skip(
            next as int,
        ),
{
    let ghost all = tokens_view(tokens@);
    let mut i: usize = start;
    while i < tokens.len()
        invariant
            all == tokens_view(tokens@),
            start <= i <= tokens@.len(),
            unprefixed(all.skip(start as int)) == unprefixed(all.skip(i as int)),
        decreases tokens@.len() - i,
    {
        let ghost rest = all.skip(i as int);
        assert(rest[0] == token_view(tokens@[i as int]));
        assert(rest.skip(1) =~= all.skip(i + 1));
        if tokens[i].is_punct(HASH) {
            if i + 1 >= tokens.len() {
                assert(all.skip(tokens@.len() as int) =~= Seq::<TokenModel>::empty());
                return tokens.len();
            }
            assert(rest.skip(2) =~= all.skip(i + 2));
            i = i + 2;
        } else if tokens[i].is_ident("pub") {
            if i + 1 < tokens.len() && tokens[i + 1].is_group(Delimiter::Parenthesis) {
                assert(rest[1] == token_view(tokens@[i + 1]));
                assert(rest.skip(2) =~= all.skip(i + 2));
                i = i + 2;
            } else {
                i = i + 1;
            }
        } else {
            return i;
        }
    }
    i
}

fn read_type(tokens: &Vec<Token>, start: usize) -> (read: (Vec<Token>, usize))
    requires
        start <= tokens@.len(),
    ensures
        read.1 <= tokens@.len(),
        read.1 - start == type_length(tokens_view(tokens@).skip(start as int), 0),
        tokens_view(read.0@) == tokens_view(tokens@).subrange(start as int, read.1 as int),
{
    let ghost all = tokens_view(tokens@);
    let mut ty: Vec<Token> = Vec::new();
    let mut depth: i128 = 0;
    let mut i: usize = start;
    while i < tokens.len()
        invariant
            all == tokens_view(tokens@),
            start <= i <= tokens@.len(),
            -(i - start) <= depth <= i - start,
            tokens_view(ty@) =~= all.subrange(start as int, i as int),
            type_length(all.skip(start as int), 0) == i - start + type_length(
                all.skip(i as int),
                depth as int,
            ),
        decreases tokens@.len() - i,
    {
        let ghost rest = all.skip(i as int);
        let ghost before = ty@;
        assert(rest[0] == token_view(tokens@[i as int]));
        assert(rest.skip(1) =~= all.skip(i + 1));
        if tokens[i].is_punct(LESS) {
            depth = depth + 1;
        } else if tokens[i].is_punct(GREATER) {
            depth = depth - 1;
        } else if depth == 0 && tokens[i].is_punct(COMMA) {
            return (ty, i);
        }
        ty.push(copy_token(&tokens[i]));
        proof {
            assert(tokens_view(ty@) =~= tokens_view(before).push(token_view(ty@.last())));
            assert(all.subrange(start as int, i + 1) =~= all.subrange(start as int, i as int).push(
                all[i as int],
            ));
        }
        i = i + 1;
    }
    (ty, i)
}

/// Reads the fields of a body.
pub fn parse_fields(tokens: &Vec<Token>) -> (read: Result<Vec<BundleField>, BundleError>)
    ensures
        match read {
            Ok(fields) => fields_of(tokens_view(tokens@)) == Ok::<Seq<FieldModel>, FaultModel>(
                fields@.map_values(|field: BundleField| field@),
            ),
            Err(error) => fields_of(tokens_view(tokens@)) == Err::<Seq<FieldModel>, FaultModel>(
                error@,
            ),
        },
{
    let ghost all = tokens_view(tokens@);
    let mut fields: Vec<BundleField> = Vec::new();
    let mut i: usize = 0;
    proof {
        assert(all.skip(0) =~= all);
        if let Ok(more) = fields_of(all) {
            assert(fields@.map_values(|field: BundleField| field@) + more =~= more);
        }
    }
    loop
        invariant
            all == tokens_view(tokens@),
            i <= tokens@.len(),
            fields_of(all) == match fields_of(all.skip(i as int)) {
                Ok(more) => Ok::<Seq<FieldModel>, FaultModel>(
                    fields@.map_values(|field: BundleField| field@) + more,
                ),
                Err(fault) => Err(fault),
            },
        decreases tokens@.len() - i,
    {
        let ghost here = all.skip(i as int);
        let ghost before = fields@.map_values(|field: BundleField| field@);
        let at = pass_prefix(tokens, i);
        let ghost rest = all.skip(at as int);
        let name = if at < tokens.len() {
            assert(rest[0] == token_view(tokens@[at as int]));
            match &tokens[at] {
                Token::Ident(name) => Some(name.clone()),
                _ => None,
            }
        } else {
            None
        };
        let name = match name {
            Some(name) => name,
            None => {
                assert(before + Seq::<FieldModel>::empty() =~= before);
                return Ok(fields);
            },
        };
        if at + 1 >= tokens.len() || !tokens[at + 1].is_punct(COLON) {
            return Err(BundleError::MissingColon(name));
        }
        assert(rest[1] == token_view(tokens@[at + 1]));
        assert(rest.skip(2) =~= all.skip(at + 2));
        let (ty, end) = read_type(tokens, at + 2);
        if end == at + 2 {
            return Err(BundleError::EmptyType(name));
        }
        let ghost field = FieldModel { name: name@, ty: tokens_view(ty@) };
        proof {
            assert(rest.skip(2).take(end - at - 2) =~= all.subrange(at + 2, end as int));
        }
        fields.push(BundleField { name, ty });
        assert(fields@.map_values(|field: BundleField| field@) =~= before.push(field));
        assert(before.push(field) =~= before + seq![field]);
        if end >= tokens.len() {
            return Ok(fields);
        }
        proof {
            assert(rest.skip(2).skip(end - at - 1) =~= all.skip(end + 1));
            if let Ok(more) = fields_of(all.skip(end + 1)) {
                assert(before + (seq![field] + more) =~= before.push(field) + more);
            }
        }
        i = end + 1;
    }
}

/// Reads a declaration as a bundle.
pub fn parse_bundle(tokens: &Vec<Token>) -> (read: Result<Bundle, BundleError>)
    ensures
        match read {
            Ok(bundle) => bundle_of(tokens_view(tokens@)) == Ok::<BundleModel, FaultModel>(bundle@),
            Err(error) => bundle_of(tokens_view(tokens@)) == Err::<BundleModel, FaultModel>(error@),
        },
{
    let head = match read_head(tokens) {
        Ok(head) => head,
        Err(error) => {
            return Err(error);
        },
    };
    let Head { name, lifetime, body } = head;
    let name = match name {
        Some(name) => name,
        None => {
            return Err(BundleError::NotAStruct);
        },
    };
    let place = match body {
        Some(place) => place,
        None => {
            return Err(BundleError::NoNamedFields);
        },
    };
    assert(tokens_view(tokens@)[place as int] == token_view(tokens@[place as int]));
    match &tokens[place] {
        Token::Group(delimiter, inner) => {
            proof {
                lemma_inside(*delimiter, *inner);
            }
            match parse_fields(inner) {
                Err(error) => Err(error),
                Ok(fields) => if fields.len() == 0 {
                    Err(BundleError::NoFields)
                } else {
                    Ok(Bundle { name, lifetime, fields })
                },
            }
        },
        _ => Err(BundleError::NoNamedFields),
    }
}

} // verus!
