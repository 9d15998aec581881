//! Attributes of a declaration.

use vstd::prelude::*;
use vstd::string::StringExecFns;

use crate::derive::tokens::{
    lemma_inside, token_text, token_view, tokens_view, write_token, Delimiter, Token, TokenModel,
};

verus! {

/// What marks an attribute.
pub const HASH: &'static str = "#";

/// What parts the entries of a list.
pub const COMMA: &'static str = ",";

/// What parts a key from its value.
pub const EQUALS: &'static str = "=";

/// The contents of the attributes of a declaration, in order. The token behind a
/// hash sign belongs to it, whether or not the two make an attribute.
pub open spec fn attributes_of(tokens: Seq<TokenModel>) -> Seq<Seq<TokenModel>>
    decreases tokens.len(),
{
    if tokens.len() < 2 {
        Seq::empty()
    } else if !tokens[0].is_punct(HASH@) {
        attributes_of(tokens.skip(1))
    } else if tokens[1].is_group(Delimiter::Bracket) {
        seq![tokens[1].inside()] + attributes_of(tokens.skip(2))
    } else {
        attributes_of(tokens.skip(2))
    }
}

/// The contents of the attributes of a declaration, as places in it.
fn attribute_places(tokens: &Vec<Token>) -> (places: Vec<usize>)
    ensures
        attributes_of(tokens_view(tokens@)) == Seq::new(
            places@.len(),
            |i: int| tokens_view(tokens@)[places@[i] as int].inside(),
        ),
        forall|i: int|
            0 <= i < places@.len() ==> (#[trigger] places@[i]) < tokens@.len() && token_view(
                tokens@[places@[i] as int],
            ).is_group(Delimiter::Bracket),
{
    let ghost all = tokens_view(tokens@);
    let mut places: Vec<usize> = Vec::new();
    let mut i: usize = 0;
    assert(all.skip(0) =~= all);
    assert(Seq::new(0, |i: int| all[places@[i] as int].inside()) + attributes_of(all)
        =~= attributes_of(all));
    while i < tokens.len()
        invariant
            all == tokens_view(tokens@),
            i <= tokens@.len(),
            attributes_of(all) == Seq::new(
                places@.len(),
                |i: int| all[places@[i] as int].inside(),
            ) + attributes_of(all.skip(i as int)),
            forall|i: int|
                0 <= i < places@.len() ==> (#[trigger] places@[i]) < tokens@.len() && token_view(
                    tokens@[places@[i] as int],
                ).is_group(Delimiter::Bracket),
        decreases tokens@.len() - i,
    {
        let ghost rest = all.skip(i as int);
        let ghost before = places@;
        if !tokens[i].is_punct(HASH) {
            assert(rest.skip(1) =~= all.skip(i + 1));
            i = i + 1;
        } else if i + 1 < tokens.len() {
            assert(rest.skip(2) =~= all.skip(i + 2));
            if tokens[i + 1].is_group(Delimiter::Bracket) {
                places.push(i + 1);
                assert(Seq::new(places@.len(), |n: int| all[places@[n] as int].inside())
                    + attributes_of(all.skip(i + 2)) =~= Seq::new(
                    before.len(),
                    |n: int| all[before[n] as int].inside(),
                ) + (seq![rest[1].inside()] + attributes_of(rest.skip(2))));
            }
            i = i + 2;
        } else {
            assert(attributes_of(rest) == Seq::<Seq<TokenModel>>::empty());
            assert(attributes_of(all.skip(i + 1)) == Seq::<Seq<TokenModel>>::empty());
            i = i + 1;
        }
    }
    assert(attributes_of(all.skip(i as int)) == Seq::<Seq<TokenModel>>::empty());
    assert(attributes_of(all) =~= Seq::new(
        places@.len(),
        |i: int| tokens_view(tokens@)[places@[i] as int].inside(),
    ));
    places
}

/// Whether an attribute is `#[component(.., needle, ..)]`.
pub open spec fn names_component_option(attribute: Seq<TokenModel>, needle: Seq<char>) -> bool {
    &&& attribute.len() > 0
    &&& attribute[0].is_ident("component"@)
    &&& exists|i: int|
        1 <= i < attribute.len() && (#[trigger] attribute[i]).is_group(Delimiter::Parenthesis)
            && attribute[i].inside().contains(TokenModel::Ident(needle))
}

fn has_name(tokens: &Vec<Token>, needle: &str) -> (found: bool)
    ensures
        found == tokens_view(tokens@).contains(TokenModel::Ident(needle@)),
{
    let mut i: usize = 0;
    while i < tokens.len()
        invariant
            i <= tokens@.len(),
            forall|j: int|
                0 <= j < i ==> #[trigger] tokens_view(tokens@)[j] != TokenModel::Ident(needle@),
        decreases tokens@.len() - i,
    {
        if tokens[i].is_ident(needle) {
            assert(tokens_view(tokens@)[i as int] == TokenModel::Ident(needle@));
            return true;
        }
        i = i + 1;
    }
    false
}

/// Whether an attribute is `#[component(.., needle, ..)]`.
pub fn attribute_contains_component_ident(attribute: &Vec<Token>, needle: &str) -> (found: bool)
    ensures
        found == names_component_option(tokens_view(attribute@), needle@),
{
    let ghost all = tokens_view(attribute@);
    if attribute.len() == 0 || !attribute[0].is_ident("component") {
        return false;
    }
    let mut i: usize = 1;
    while i < attribute.len()
        invariant
            1 <= i <= attribute@.len(),
            all == tokens_view(attribute@),
            all[0].is_ident("component"@),
            forall|j: int|
                1 <= j < i ==> !((#[trigger] all[j]).is_group(Delimiter::Parenthesis)
                    && all[j].inside().contains(TokenModel::Ident(needle@))),
        decreases attribute@.len() - i,
    {
        if let Token::Group(delimiter, inner) = &attribute[i] {
            proof {
                lemma_inside(*delimiter, *inner);
                assert(all[i as int] == token_view(attribute@[i as int]));
            }
            if *delimiter == Delimiter::Parenthesis && has_name(inner, needle) {
                return true;
            }
        }
        i = i + 1;
    }
    false
}

/// Whether a declaration has `#[component(.., needle, ..)]`.
pub open spec fn has_component_option(tokens: Seq<TokenModel>, needle: Seq<char>) -> bool {
    exists|i: int|
        0 <= i < attributes_of(tokens).len() && #[trigger] names_component_option(
            attributes_of(tokens)[i],
            needle,
        )
}

/// Whether a declaration has `#[component(.., needle, ..)]`.
pub fn component_attribute_contains(tokens: &Vec<Token>, needle: &str) -> (found: bool)
    ensures
        found == has_component_option(tokens_view(tokens@), needle@),
{
    let places = attribute_places(tokens);
    let ghost attributes = attributes_of(tokens_view(tokens@));
    let mut i: usize = 0;
    while i < places.len()
        invariant
            i <= places@.len(),
            attributes == attributes_of(tokens_view(tokens@)),
            attributes == Seq::new(
                places@.len(),
                |i: int| tokens_view(tokens@)[places@[i] as int].inside(),
            ),
            forall|i: int|
                0 <= i < places@.len() ==> (#[trigger] places@[i]) < tokens@.len() && token_view(
                    tokens@[places@[i] as int],
                ).is_group(Delimiter::Bracket),
            forall|j: int|
                0 <= j < i ==> !#[trigger] names_component_option(attributes[j], needle@),
        decreases places@.len() - i,
    {
        assert(places@[i as int] < tokens@.len());
        if let Token::Group(delimiter, inner) = &tokens[places[i]] {
            proof {
                lemma_inside(*delimiter, *inner);
                assert(attributes[i as int] == tokens_view(inner@));
            }
            if attribute_contains_component_ident(inner, needle) {
                return true;
            }
        }
        i = i + 1;
    }
    false
}

/// Where the first comma stands, or the length of the list.
pub open spec fn comma(tokens: Seq<TokenModel>) -> nat
    decreases tokens.len(),
{
    if tokens.len() == 0 || tokens[0].is_punct(COMMA@) {
        0
    } else {
        1 + comma(tokens.skip(1))
    }
}

/// The texts of `tokens`, one behind the other.
pub open spec fn run_together(tokens: Seq<TokenModel>) -> Seq<char>
    decreases tokens.len(),
{
    if tokens.len() == 0 {
        Seq::empty()
    } else {
        run_together(tokens.drop_last()) + token_text(tokens.last())
    }
}

/// The value of `key` in a list `key = value, ..`: the first that is not empty.
/// The token behind a key belongs to it, whether or not it is an equals sign.
pub open spec fn value_of(args: Seq<TokenModel>, key: Seq<char>) -> Option<Seq<char>>
    decreases args.len(),
{
    if args.len() < 2 {
        None
    } else if !args[0].is_ident(key) {
        value_of(args.skip(1), key)
    } else if !args[1].is_punct(EQUALS@) {
        value_of(args.skip(2), key)
    } else {
        let behind = args.skip(2);
        let value = run_together(behind.take(comma(behind) as int));
        if value.len() > 0 {
            Some(value)
        } else if comma(behind) >= behind.len() {
            None
        } else {
            value_of(behind.skip(comma(behind) as int + 1), key)
        }
    }
}

/// Where the value that starts at `start` ends, and its text.
fn read_value(args: &Vec<Token>, start: usize) -> (read: (usize, String))
    requires
        start <= args@.len(),
    ensures
        read.0 - start == comma(tokens_view(args@).skip(start as int)),
        read.0 <= args@.len(),
        read.1@ == run_together(tokens_view(args@).subrange(start as int, read.0 as int)),
{
    let ghost all = tokens_view(args@);
    let mut value = String::new();
    let mut i: usize = start;
    assert(all.subrange(start as int, i as int) =~= Seq::<TokenModel>::empty());
    while i < args.len() && !args[i].is_punct(COMMA)
        invariant
            all == tokens_view(args@),
            start <= i <= args@.len(),
            value@ == run_together(all.subrange(start as int, i as int)),
            comma(all.skip(start as int)) == i - start + comma(all.skip(i as int)),
        decreases args@.len() - i,
    {
        proof {
            assert(all.skip(i as int).skip(1) =~= all.skip(i + 1));
            assert(all.subrange(start as int, i + 1).drop_last() =~= all.subrange(
                start as int,
                i as int,
            ));
        }
        value.append(write_token(&args[i]).as_str());
        i = i + 1;
    }
    (i, value)
}

fn read_key(args: &Vec<Token>, key: &str) -> (value: Option<String>)
    ensures
        match value {
            Some(value) => value_of(tokens_view(args@), key@) == Some(value@),
            None => value_of(tokens_view(args@), key@) is None,
        },
{
    let ghost all = tokens_view(args@);
    let mut i: usize = 0;
    assert(all.skip(0) =~= all);
    while i < args.len()
        invariant
            all == tokens_view(args@),
            i <= args@.len(),
            value_of(all, key@) == value_of(all.skip(i as int), key@),
        decreases args@.len() - i,
    {
        let ghost rest = all.skip(i as int);
        if !args[i].is_ident(key) {
            assert(rest.skip(1) =~= all.skip(i + 1));
            i = i + 1;
        } else if i + 1 >= args.len() {
            i = i + 1;
        } else if !args[i + 1].is_punct(EQUALS) {
            assert(rest.skip(2) =~= all.skip(i + 2));
            i = i + 2;
        } else {
            let (end, value) = read_value(args, i + 2);
            proof {
                assert(rest.skip(2) =~= all.skip(i + 2));
                assert(all.skip(i + 2).take(end - i - 2) =~= all.subrange(i + 2, end as int));
            }
            if !value.as_str().is_empty() {
                return Some(value);
            }
            if end < args.len() {
                assert(all.skip(i + 2).skip(end - i - 1) =~= all.skip(end + 1));
                i = end + 1;
            } else {
                assert(value_of(rest, key@) is None);
                i = end;
            }
        }
    }
    None
}

/// The value of `key` in an attribute `#[name(key = value)]`.
pub open spec fn keyed(
    attribute: Seq<TokenModel>,
    name: Seq<char>,
    key: Seq<char>,
) -> Option<Seq<char>> {
    if attribute.len() >= 2 && attribute[0].is_ident(name) && attribute[1].is_group(
        Delimiter::Parenthesis,
    ) {
        value_of(attribute[1].inside(), key)
    } else {
        None
    }
}

/// The value of `key` in the first of the attributes `#[name(key = value)]` that
/// gives one.
pub open spec fn first_keyed(
    attributes: Seq<Seq<TokenModel>>,
    name: Seq<char>,
    key: Seq<char>,
) -> Option<Seq<char>>
    decreases attributes.len(),
{
    if attributes.len() == 0 {
        None
    } else if keyed(attributes[0], name, key) is Some {
        keyed(attributes[0], name, key)
    } else {
        first_keyed(attributes.skip(1), name, key)
    }
}

fn read_attribute(attribute: &Vec<Token>, name: &str, key: &str) -> (value: Option<String>)
    ensures
        match value {
            Some(value) => keyed(tokens_view(attribute@), name@, key@) == Some(value@),
            None => keyed(tokens_view(attribute@), name@, key@) is None,
        },
{
    if attribute.len() < 2 || !attribute[0].is_ident(name) {
        return None;
    }
    assert(tokens_view(attribute@)[1] == token_view(attribute@[1]));
    match &attribute[1] {
        Token::Group(delimiter, inner) => {
            proof {
                lemma_inside(*delimiter, *inner);
            }
            if *delimiter == Delimiter::Parenthesis {
                read_key(inner, key)
            } else {
                None
            }
        },
        _ => None,
    }
}

/// The value in `#[attribute(key = value)]`; it may be a path, whose tokens are
/// run together up to a comma or the end.
pub fn attribute_value(tokens: &Vec<Token>, attribute: &str, key: &str) -> (value: Option<String>)
    ensures
        match value {
            Some(value) => first_keyed(attributes_of(tokens_view(tokens@)), attribute@, key@)
                == Some(value@),
            None => first_keyed(attributes_of(tokens_view(tokens@)), attribute@, key@) is None,
        },
{
    let places = attribute_places(tokens);
    let ghost all = attributes_of(tokens_view(tokens@));
    let mut i: usize = 0;
    assert(all.skip(0) =~= all);
    while i < places.len()
        invariant
            i <= places@.len(),
            all == attributes_of(tokens_view(tokens@)),
            all == Seq::new(
                places@.len(),
                |i: int| tokens_view(tokens@)[places@[i] as int].inside(),
            ),
            forall|i: int|
                0 <= i < places@.len() ==> (#[trigger] places@[i]) < tokens@.len() && token_view(
                    tokens@[places@[i] as int],
                ).is_group(Delimiter::Bracket),
            first_keyed(all, attribute@, key@) == first_keyed(
                all.skip(i as int),
                attribute@,
                key@,
            ),
        decreases places@.len() - i,
    {
        assert(places@[i as int] < tokens@.len());
        assert(all.skip(i as int).skip(1) =~= all.skip(i + 1));
        if let Token::Group(delimiter, inner) = &tokens[places[i]] {
            proof {
                lemma_inside(*delimiter, *inner);
                assert(all.skip(i as int)[0] == tokens_view(inner@));
            }
            let value = read_attribute(inner, attribute, key);
            if value.is_some() {
                return value;
            }
        }
        i = i + 1;
    }
    None
}

/// The first name behind `struct` or `enum`.
pub open spec fn declared_name(tokens: Seq<TokenModel>, seen: bool) -> Option<Seq<char>>
    decreases tokens.len(),
{
    if tokens.len() == 0 {
        None
    } else {
        match tokens[0] {
            TokenModel::Ident(name) => if name == "struct"@ || name == "enum"@ {
                declared_name(tokens.skip(1), true)
            } else if seen {
                Some(name)
            } else {
                declared_name(tokens.skip(1), false)
            },
            _ => declared_name(tokens.skip(1), seen),
        }
    }
}

/// The name of the declared struct or enum.
pub fn name_of_type(tokens: &Vec<Token>) -> (name: Option<String>)
    ensures
        match name {
            Some(name) => declared_name(tokens_view(tokens@), false) == Some(name@),
            None => declared_name(tokens_view(tokens@), false) is None,
        },
{
    let ghost all = tokens_view(tokens@);
    let mut seen = false;
    let mut i: usize = 0;
    assert(all.skip(0) =~= all);
    while i < tokens.len()
        invariant
            i <= tokens@.len(),
            all == tokens_view(tokens@),
            declared_name(all, false) == declared_name(all.skip(i as int), seen),
        decreases tokens@.len() - i,
    {
        proof {
            assert(all.skip(i as int).skip(1) =~= all.skip(i + 1));
            assert(all.skip(i as int)[0] == token_view(tokens@[i as int]));
        }
        if let Token::Ident(name) = &tokens[i] {
            if tokens[i].is_ident("struct") || tokens[i].is_ident("enum") {
                seen = true;
            } else if seen {
                return Some(name.clone());
            }
        }
        i = i + 1;
    }
    None
}

} // verus!
