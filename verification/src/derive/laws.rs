//! What is read from a declaration, whatever stands around it.

use crate::bowl_laws::{lemma_decimal_says_the_number, number_of};
use crate::derive::attributes::{
    attributes_of, comma, declared_name, first_keyed, has_component_option, keyed,
    names_component_option, run_together, value_of, COMMA, EQUALS, HASH,
};
use crate::derive::bundle::{
    bundle_of, fields_of, generics, head_of, type_length, unprefixed, BundleModel, FaultModel,
    FieldModel, HeadModel, APOSTROPHE, COLON, GREATER, LESS,
};
use crate::derive::code::{
    component_code, component_plan, system_param_code, ComponentError, Fingerprint, COMPILE_ERROR,
    COMPONENT_IMPL, UNTRACKED,
};
use crate::derive::lifetime::substituted;
use crate::derive::template::filled;
use crate::derive::tokens::{rendered, token_text, Delimiter, TokenModel, GAP};
use vstd::prelude::*;

verus! {

proof fn lemma_marks_differ()
    ensures
        HASH@ != COMMA@,
        LESS@ != COMMA@,
        GREATER@ != COMMA@,
        LESS@ != GREATER@,
        APOSTROPHE@ != GREATER@,
        APOSTROPHE@ != COMMA@,
        COLON@ != COMMA@,
        HASH@ != LESS@,
        "pub"@ != "struct"@,
        "struct"@ != "enum"@,
{
    reveal_strlit("#");
    reveal_strlit(",");
    reveal_strlit("<");
    reveal_strlit(">");
    reveal_strlit("'");
    reveal_strlit(":");
    reveal_strlit("pub");
    reveal_strlit("struct");
    reveal_strlit("enum");
    assert(HASH@[0] == '#');
    assert(COMMA@[0] == ',');
    assert(LESS@[0] == '<');
    assert(GREATER@[0] == '>');
    assert(APOSTROPHE@[0] == '\'');
    assert(COLON@[0] == ':');
    assert("pub"@.len() == 3);
    assert("struct"@.len() == 6);
    assert("enum"@.len() == 4);
}

/// An attribute is read wherever it stands: `#[..]` is one attribute, in order with the
/// others. Any other token is passed over.
pub proof fn lemma_attributes_are_found(
    joint: bool,
    inner: Seq<TokenModel>,
    other: TokenModel,
    rest: Seq<TokenModel>,
)
    ensures
        attributes_of(
            seq![
                TokenModel::Punct(HASH@, joint),
                TokenModel::Group(Delimiter::Bracket, inner),
            ] + rest,
        ) == seq![inner] + attributes_of(rest),
        !other.is_punct(HASH@) ==> attributes_of(seq![other] + rest) == attributes_of(rest),
        attributes_of(Seq::empty()).len() == 0,
{
    let marked = seq![
        TokenModel::Punct(HASH@, joint),
        TokenModel::Group(Delimiter::Bracket, inner),
    ] + rest;
    assert(marked.skip(2) =~= rest);
    assert(marked[0] == TokenModel::Punct(HASH@, joint));
    assert(marked[1] == TokenModel::Group(Delimiter::Bracket, inner));
    let plain = seq![other] + rest;
    assert(plain.skip(1) =~= rest);
    assert(plain[0] == other);
    if plain.len() < 2 {
        assert(rest.len() == 0);
        assert(attributes_of(rest) =~= Seq::<Seq<TokenModel>>::empty());
    }
}

/// An option is there when an attribute `#[component(.., option, ..)]` is, and stays
/// there whatever attribute stands before; an attribute of another name does not bring it.
pub proof fn lemma_component_options(
    joint: bool,
    attribute: Seq<TokenModel>,
    rest: Seq<TokenModel>,
    needle: Seq<char>,
)
    ensures
        ({
            let tokens = seq![
                TokenModel::Punct(HASH@, joint),
                TokenModel::Group(Delimiter::Bracket, attribute),
            ] + rest;
            &&& has_component_option(tokens, needle) <==> (attribute.len() > 0 && attribute[0]
                == TokenModel::Ident("component"@) && exists|i: int|
                0 < i < attribute.len() && ((
                #[trigger] attribute[i]) matches TokenModel::Group(Delimiter::Parenthesis, options)
                    && options.contains(TokenModel::Ident(needle)))) || has_component_option(
                rest,
                needle,
            )
        }),
        !has_component_option(Seq::empty(), needle),
{
    let tokens = seq![
        TokenModel::Punct(HASH@, joint),
        TokenModel::Group(Delimiter::Bracket, attribute),
    ] + rest;
    lemma_attributes_are_found(joint, attribute, TokenModel::Ident(needle), rest);
    let all = attributes_of(tokens);
    let others = attributes_of(rest);
    assert(all == seq![attribute] + others);
    if names_component_option(attribute, needle) {
        assert(names_component_option(all[0], needle));
        let i = choose|i: int|
            1 <= i < attribute.len() && (#[trigger] attribute[i]).is_group(Delimiter::Parenthesis)
                && attribute[i].inside().contains(TokenModel::Ident(needle));
        assert(attribute[i] matches TokenModel::Group(Delimiter::Parenthesis, options)
            && options.contains(TokenModel::Ident(needle)));
    }
    if has_component_option(rest, needle) {
        let i = choose|i: int|
            0 <= i < others.len() && #[trigger] names_component_option(others[i], needle);
        assert(all[i + 1] == others[i]);
        assert(names_component_option(all[i + 1], needle));
    }
    if has_component_option(tokens, needle) {
        let i = choose|i: int|
            0 <= i < all.len() && #[trigger] names_component_option(all[i], needle);
        if i > 0 {
            assert(all[i] == others[i - 1]);
            assert(names_component_option(others[i - 1], needle));
        }
    }
    if attribute.len() > 0 && attribute[0] == TokenModel::Ident("component"@) && exists|i: int|
        0 < i < attribute.len() && ((#[trigger] attribute[i]) matches TokenModel::Group(
            Delimiter::Parenthesis,
            options,
        ) && options.contains(TokenModel::Ident(needle))) {
        let i = choose|i: int|
            0 < i < attribute.len() && ((#[trigger] attribute[i]) matches TokenModel::Group(
                Delimiter::Parenthesis,
                options,
            ) && options.contains(TokenModel::Ident(needle)));
        assert(attribute[i].is_group(Delimiter::Parenthesis));
        assert(attribute[i].inside().contains(TokenModel::Ident(needle)));
        assert(names_component_option(attribute, needle));
    }
}

proof fn lemma_comma(value: Seq<TokenModel>, joint: bool, rest: Seq<TokenModel>)
    requires
        forall|i: int| 0 <= i < value.len() ==> !(#[trigger] value[i]).is_punct(COMMA@),
    ensures
        comma(value + seq![TokenModel::Punct(COMMA@, joint)] + rest) == value.len(),
        comma(value) == value.len(),
    decreases value.len(),
{
    let tokens = value + seq![TokenModel::Punct(COMMA@, joint)] + rest;
    if value.len() == 0 {
        assert(tokens[0] == TokenModel::Punct(COMMA@, joint));
    } else {
        let less = value.skip(1);
        assert forall|i: int| 0 <= i < less.len() implies !(#[trigger] less[i]).is_punct(
            COMMA@,
        ) by {
            assert(less[i] == value[i + 1]);
        }
        lemma_comma(less, joint, rest);
        assert(tokens.skip(1) =~= less + seq![TokenModel::Punct(COMMA@, joint)] + rest);
        assert(tokens[0] == value[0]);
    }
}

/// The value of a key is what stands between `key =` and the next comma, run together,
/// whatever follows; other keys are passed over.
pub proof fn lemma_value_of_a_key(
    key: Seq<char>,
    joint: bool,
    value: Seq<TokenModel>,
    rest: Seq<TokenModel>,
    other: TokenModel,
)
    requires
        forall|i: int| 0 <= i < value.len() ==> !(#[trigger] value[i]).is_punct(COMMA@),
        run_together(value).len() > 0,
    ensures
        value_of(
            seq![TokenModel::Ident(key), TokenModel::Punct(EQUALS@, joint)] + value,
            key,
        ) == Some(run_together(value)),
        value_of(
            seq![TokenModel::Ident(key), TokenModel::Punct(EQUALS@, joint)] + (value + seq![
                TokenModel::Punct(COMMA@, joint),
            ] + rest),
            key,
        ) == Some(run_together(value)),
        other != TokenModel::Ident(key) ==> value_of(seq![other] + rest, key) == value_of(
            rest,
            key,
        ),
{
    let head = seq![TokenModel::Ident(key), TokenModel::Punct(EQUALS@, joint)];
    lemma_comma(value, joint, rest);
    let short = head + value;
    assert(short.skip(2) =~= value);
    assert(value.take(value.len() as int) =~= value);
    assert(short[0] == TokenModel::Ident(key) && short[1] == TokenModel::Punct(EQUALS@, joint));
    let behind = value + seq![TokenModel::Punct(COMMA@, joint)] + rest;
    let long = head + behind;
    assert(long.skip(2) =~= behind);
    assert(behind.take(value.len() as int) =~= value);
    assert(long[0] == TokenModel::Ident(key) && long[1] == TokenModel::Punct(EQUALS@, joint));
    let passed = seq![other] + rest;
    assert(passed.skip(1) =~= rest);
    assert(passed[0] == other);
}

/// Of several attributes the first that has the key counts.
pub proof fn lemma_first_key_counts(
    attribute: Seq<TokenModel>,
    rest: Seq<Seq<TokenModel>>,
    name: Seq<char>,
    key: Seq<char>,
)
    ensures
        first_keyed(seq![attribute] + rest, name, key) == if keyed(attribute, name, key) is Some {
            keyed(attribute, name, key)
        } else {
            first_keyed(rest, name, key)
        },
        first_keyed(Seq::empty(), name, key) is None,
        keyed(attribute, name, key) is Some ==> attribute.len() >= 2 && attribute[0]
            == TokenModel::Ident(name),
        attribute.len() >= 2 && attribute[0] == TokenModel::Ident(name) && attribute[1].is_group(
            Delimiter::Parenthesis,
        ) ==> keyed(attribute, name, key) == value_of(attribute[1].inside(), key),
{
    let all = seq![attribute] + rest;
    assert(all[0] == attribute);
    assert(all.skip(1) =~= rest);
}

/// The name of a declaration is what stands behind `struct` or `enum`, whatever stands
/// before; without either there is none.
pub proof fn lemma_name_stands_behind_its_keyword(
    before: Seq<TokenModel>,
    name: Seq<char>,
    rest: Seq<TokenModel>,
)
    requires
        forall|i: int|
            0 <= i < before.len() ==> (#[trigger] before[i]) != TokenModel::Ident("struct"@)
                && before[i] != TokenModel::Ident("enum"@),
        name != "struct"@,
        name != "enum"@,
    ensures
        declared_name(
            before + (seq![TokenModel::Ident("struct"@), TokenModel::Ident(name)] + rest),
            false,
        ) == Some(name),
        declared_name(
            before + (seq![TokenModel::Ident("enum"@), TokenModel::Ident(name)] + rest),
            false,
        ) == Some(name),
        declared_name(before, false) is None,
    decreases before.len(),
{
    let first = seq![TokenModel::Ident("struct"@), TokenModel::Ident(name)] + rest;
    let second = seq![TokenModel::Ident("enum"@), TokenModel::Ident(name)] + rest;
    if before.len() == 0 {
        assert(before + first =~= first);
        assert(before + second =~= second);
        assert(first[0] == TokenModel::Ident("struct"@));
        assert(second[0] == TokenModel::Ident("enum"@));
        assert(first.skip(1)[0] == TokenModel::Ident(name));
        assert(second.skip(1)[0] == TokenModel::Ident(name));
        assert(declared_name(first.skip(1), true) == Some(name));
        assert(declared_name(second.skip(1), true) == Some(name));
    } else {
        let less = before.skip(1);
        assert forall|i: int| 0 <= i < less.len() implies (#[trigger] less[i])
            != TokenModel::Ident("struct"@) && less[i] != TokenModel::Ident("enum"@) by {
            assert(less[i] == before[i + 1]);
        }
        lemma_name_stands_behind_its_keyword(less, name, rest);
        assert((before + first).skip(1) =~= less + first);
        assert((before + second).skip(1) =~= less + second);
        assert((before + first)[0] == before[0]);
        assert((before + second)[0] == before[0]);
    }
}

/// A component declaration is refused exactly when it declares no type, asks for two
/// fingerprints, asks for one where an inverse has its own, or is an edge and an inverse
/// at once; else it is planned as it says.
pub proof fn lemma_what_a_component_asks_for(tokens: Seq<TokenModel>)
    ensures
        ({
            let hash = has_component_option(tokens, "hash"@);
            let revision = has_component_option(tokens, "revision"@);
            let edge = first_keyed(attributes_of(tokens), "relationship"@, "target"@);
            let inverse = first_keyed(
                attributes_of(tokens),
                "relationship_target"@,
                "relationship"@,
            );
            &&& component_plan(tokens) == Err::<
                crate::derive::code::ComponentPlanModel,
                ComponentError,
            >(ComponentError::NotAType) <==> declared_name(tokens, false) is None
            &&& component_plan(tokens) is Ok <==> declared_name(tokens, false) is Some && !(hash
                && revision) && !(inverse is Some && (hash || revision)) && !(edge is Some
                && inverse is Some)
            &&& hash && revision ==> component_plan(tokens) is Err
            &&& component_plan(tokens) matches Ok(plan) ==> {
                &&& declared_name(tokens, false) == Some(plan.name)
                &&& plan.untracked <==> has_component_option(tokens, "untracked"@)
                &&& plan.fingerprint == Fingerprint::Hash <==> hash
                &&& plan.fingerprint == Fingerprint::Revision <==> revision
                &&& plan.fingerprint == Fingerprint::Members <==> inverse is Some
                &&& plan.edge_target == edge
                &&& plan.target_edge == inverse
            }
        }),
{
}

/// Generics of one lifetime are read as that lifetime; two of them, or a type parameter,
/// or an end that is missing, are refused.
pub proof fn lemma_generics_of_one_lifetime(
    joint: bool,
    name: Seq<char>,
    second: Seq<char>,
    rest: Seq<TokenModel>,
    other: TokenModel,
)
    requires
        !other.is_punct(APOSTROPHE@),
        !other.is_punct(GREATER@),
        !other.is_punct(COMMA@),
    ensures
        ({
            let mark = TokenModel::Punct(APOSTROPHE@, joint);
            let end = TokenModel::Punct(GREATER@, joint);
            let comma = TokenModel::Punct(COMMA@, joint);
            &&& generics(seq![end] + rest, None) == Ok::<
                (Option<Seq<char>>, Seq<TokenModel>),
                FaultModel,
            >((None, rest))
            &&& generics(seq![mark, TokenModel::Ident(name), end] + rest, None) == Ok::<
                (Option<Seq<char>>, Seq<TokenModel>),
                FaultModel,
            >((Some(name), rest))
            &&& generics(
                seq![mark, TokenModel::Ident(name), comma, mark, TokenModel::Ident(second)] + rest,
                None,
            ) == Err::<(Option<Seq<char>>, Seq<TokenModel>), FaultModel>(
                FaultModel::SeveralLifetimes,
            )
            &&& generics(seq![other] + rest, None) == Err::<
                (Option<Seq<char>>, Seq<TokenModel>),
                FaultModel,
            >(FaultModel::TypeParameters)
            &&& generics(Seq::empty(), None) == Err::<
                (Option<Seq<char>>, Seq<TokenModel>),
                FaultModel,
            >(FaultModel::UnterminatedGenerics)
        }),
{
    lemma_marks_differ();
    let mark = TokenModel::Punct(APOSTROPHE@, joint);
    let end = TokenModel::Punct(GREATER@, joint);
    let comma = TokenModel::Punct(COMMA@, joint);
    let none = seq![end] + rest;
    assert(none.skip(1) =~= rest);
    let one = seq![mark, TokenModel::Ident(name), end] + rest;
    assert(one.skip(2) =~= none);
    assert(none[0] == end);
    assert(one[0] == mark && one[1] == TokenModel::Ident(name));
    assert(generics(none, Some(name)) == Ok::<
        (Option<Seq<char>>, Seq<TokenModel>),
        FaultModel,
    >((Some(name), rest)));
    let two = seq![mark, TokenModel::Ident(name), comma, mark, TokenModel::Ident(second)] + rest;
    let tail = seq![comma, mark, TokenModel::Ident(second)] + rest;
    let last = seq![mark, TokenModel::Ident(second)] + rest;
    assert(two.skip(2) =~= tail);
    assert(tail.skip(1) =~= last);
    assert(two[0] == mark && two[1] == TokenModel::Ident(name));
    assert(tail[0] == comma);
    assert(last[0] == mark && last[1] == TokenModel::Ident(second));
    assert(generics(last, Some(name)) is Err);
    assert(generics(tail, Some(name)) == generics(last, Some(name)));
    assert((seq![other] + rest)[0] == other);
}

/// How much deeper in angle brackets one is behind `tokens` than before them.
pub open spec fn nesting(tokens: Seq<TokenModel>) -> int
    decreases tokens.len(),
{
    if tokens.len() == 0 {
        0
    } else if tokens[0].is_punct(LESS@) {
        1 + nesting(tokens.skip(1))
    } else if tokens[0].is_punct(GREATER@) {
        nesting(tokens.skip(1)) - 1
    } else {
        nesting(tokens.skip(1))
    }
}

/// Whether every comma of `tokens` stands inside angle brackets, `depth` deep to begin
/// with.
pub open spec fn commas_nested(tokens: Seq<TokenModel>, depth: int) -> bool {
    forall|i: int|
        0 <= i < tokens.len() && (#[trigger] tokens[i]).is_punct(COMMA@) ==> depth + nesting(
            tokens.take(i),
        ) != 0
}

proof fn lemma_type_ends_at_its_comma(
    ty: Seq<TokenModel>,
    depth: int,
    joint: bool,
    rest: Seq<TokenModel>,
)
    requires
        commas_nested(ty, depth),
        depth + nesting(ty) == 0,
    ensures
        type_length(ty + (seq![TokenModel::Punct(COMMA@, joint)] + rest), depth) == ty.len(),
        type_length(ty, depth) == ty.len(),
    decreases ty.len(),
{
    lemma_marks_differ();
    let end = seq![TokenModel::Punct(COMMA@, joint)] + rest;
    let tokens = ty + end;
    if ty.len() == 0 {
        assert(tokens[0] == TokenModel::Punct(COMMA@, joint));
    } else {
        let less = ty.skip(1);
        let step: int = if ty[0].is_punct(LESS@) {
            1
        } else if ty[0].is_punct(GREATER@) {
            -1
        } else {
            0
        };
        assert(tokens.skip(1) =~= less + end);
        assert(tokens[0] == ty[0]);
        assert(ty.take(0) =~= Seq::<TokenModel>::empty());
        assert forall|i: int|
            0 <= i < less.len() && (#[trigger] less[i]).is_punct(COMMA@) implies depth + step
            + nesting(less.take(i)) != 0 by {
            assert(less[i] == ty[i + 1]);
            let longer = ty.take(i + 1);
            assert(longer.skip(1) =~= less.take(i));
            assert(longer[0] == ty[0]);
        }
        lemma_type_ends_at_its_comma(less, depth + step, joint, rest);
    }
}

/// A field is its name and its type, which reaches to the first comma outside angle
/// brackets; attributes and `pub` before it do not count, and what follows is read as
/// the next fields.
pub proof fn lemma_field_is_read(
    name: Seq<char>,
    joint: bool,
    ty: Seq<TokenModel>,
    rest: Seq<TokenModel>,
)
    requires
        name != "pub"@,
        ty.len() > 0,
        commas_nested(ty, 0),
        nesting(ty) == 0,
    ensures
        ({
            let head = seq![TokenModel::Ident(name), TokenModel::Punct(COLON@, joint)];
            let field = FieldModel { name, ty };
            &&& fields_of(head + ty) == Ok::<Seq<FieldModel>, FaultModel>(seq![field])
            &&& fields_of(head + (ty + (seq![TokenModel::Punct(COMMA@, joint)] + rest)))
                == match fields_of(rest) {
                Ok(more) => Ok::<Seq<FieldModel>, FaultModel>(seq![field] + more),
                Err(fault) => Err::<Seq<FieldModel>, FaultModel>(fault),
            }
        }),
        fields_of(Seq::empty()) == Ok::<Seq<FieldModel>, FaultModel>(Seq::empty()),
        unprefixed(seq![TokenModel::Ident("pub"@), TokenModel::Ident(name)] + rest) == seq![
            TokenModel::Ident(name),
        ] + rest,
{
    lemma_marks_differ();
    let head = seq![TokenModel::Ident(name), TokenModel::Punct(COLON@, joint)];
    let end = seq![TokenModel::Punct(COMMA@, joint)] + rest;
    lemma_type_ends_at_its_comma(ty, 0, joint, rest);
    let short = head + ty;
    assert(short[0] == TokenModel::Ident(name));
    assert(short[1] == TokenModel::Punct(COLON@, joint));
    assert(unprefixed(short) == short);
    assert(short.skip(2) =~= ty);
    assert(ty.take(ty.len() as int) =~= ty);
    let long = head + (ty + end);
    assert(long[0] == TokenModel::Ident(name));
    assert(long[1] == TokenModel::Punct(COLON@, joint));
    assert(unprefixed(long) == long);
    assert(long.skip(2) =~= ty + end);
    assert((ty + end).take(ty.len() as int) =~= ty);
    assert((ty + end).skip(ty.len() as int + 1) =~= rest);
    let public = seq![TokenModel::Ident("pub"@), TokenModel::Ident(name)] + rest;
    let bare = seq![TokenModel::Ident(name)] + rest;
    assert(public.skip(1) =~= bare);
    assert(public[0] == TokenModel::Ident("pub"@));
    assert(public[1] == TokenModel::Ident(name));
    assert(bare[0] == TokenModel::Ident(name));
    assert(unprefixed(bare) == bare);
}

/// Attributes and visibility before a field do not change what is read.
pub proof fn lemma_prefixes_do_not_count(
    joint: bool,
    any: TokenModel,
    scope: Seq<TokenModel>,
    rest: Seq<TokenModel>,
)
    ensures
        fields_of(seq![TokenModel::Punct(HASH@, joint), any] + rest) == fields_of(rest),
        fields_of(
            seq![
                TokenModel::Ident("pub"@),
                TokenModel::Group(Delimiter::Parenthesis, scope),
            ] + rest,
        ) == fields_of(rest),
{
    let marked = seq![TokenModel::Punct(HASH@, joint), any] + rest;
    assert(marked.skip(2) =~= rest);
    assert(marked[0] == TokenModel::Punct(HASH@, joint));
    let scoped = seq![
        TokenModel::Ident("pub"@),
        TokenModel::Group(Delimiter::Parenthesis, scope),
    ] + rest;
    assert(scoped.skip(2) =~= rest);
    assert(scoped[0] == TokenModel::Ident("pub"@));
    assert(scoped[1] == TokenModel::Group(Delimiter::Parenthesis, scope));
    assert(unprefixed(marked) == unprefixed(rest));
    assert(unprefixed(scoped) == unprefixed(rest));
}

proof fn lemma_head_of_plain(
    before: Seq<TokenModel>,
    tokens: Seq<TokenModel>,
    head: HeadModel,
)
    requires
        forall|i: int|
            0 <= i < before.len() ==> !(#[trigger] before[i]).is_punct(HASH@)
                && !before[i].is_ident("struct"@) && !before[i].is_group(Delimiter::Brace),
    ensures
        head_of(before + tokens, head) == head_of(tokens, head),
    decreases before.len(),
{
    if before.len() == 0 {
        assert(before + tokens =~= tokens);
    } else {
        let less = before.skip(1);
        assert forall|i: int| 0 <= i < less.len() implies !(#[trigger] less[i]).is_punct(HASH@)
            && !less[i].is_ident("struct"@) && !less[i].is_group(Delimiter::Brace) by {
            assert(less[i] == before[i + 1]);
        }
        lemma_head_of_plain(less, tokens, head);
        assert((before + tokens).skip(1) =~= less + tokens);
        assert((before + tokens)[0] == before[0]);
    }
}

/// A bundle has the name, the lifetime and the fields of its struct, whatever plain
/// tokens stand before. It needs a field, and a body in curly brackets; what is no struct
/// is refused.
pub proof fn lemma_bundle_is_read(
    before: Seq<TokenModel>,
    name: Seq<char>,
    lifetime: Seq<char>,
    joint: bool,
    body: Seq<TokenModel>,
)
    requires
        forall|i: int|
            0 <= i < before.len() ==> !(#[trigger] before[i]).is_punct(HASH@)
                && !before[i].is_ident("struct"@) && !before[i].is_group(Delimiter::Brace),
    ensures
        ({
            let word = TokenModel::Ident("struct"@);
            let fields = TokenModel::Group(Delimiter::Brace, body);
            let plain = before + seq![word, TokenModel::Ident(name), fields];
            let generic = before + seq![
                word,
                TokenModel::Ident(name),
                TokenModel::Punct(LESS@, joint),
                TokenModel::Punct(APOSTROPHE@, joint),
                TokenModel::Ident(lifetime),
                TokenModel::Punct(GREATER@, joint),
                fields,
            ];
            &&& bundle_of(plain) is Ok <==> fields_of(body) is Ok && fields_of(body)->Ok_0.len() > 0
            &&& bundle_of(plain) matches Ok(read) ==> read == (BundleModel {
                name,
                lifetime: None,
                fields: fields_of(body)->Ok_0,
            })
            &&& bundle_of(generic) is Ok <==> fields_of(body) is Ok && fields_of(body)->Ok_0.len()
                > 0
            &&& bundle_of(generic) matches Ok(read) ==> read == (BundleModel {
                name,
                lifetime: Some(lifetime),
                fields: fields_of(body)->Ok_0,
            })
            &&& fields_of(body) == Ok::<Seq<FieldModel>, FaultModel>(Seq::empty()) ==> bundle_of(
                plain,
            ) == Err::<BundleModel, FaultModel>(FaultModel::NoFields)
            &&& bundle_of(before + seq![word, TokenModel::Ident(name)]) == Err::<
                BundleModel,
                FaultModel,
            >(FaultModel::NoNamedFields)
            &&& bundle_of(before) == Err::<BundleModel, FaultModel>(FaultModel::NotAStruct)
        }),
{
    lemma_marks_differ();
    let empty = HeadModel { name: None, lifetime: None, body: None };
    let word = TokenModel::Ident("struct"@);
    let fields = TokenModel::Group(Delimiter::Brace, body);
    let none = Seq::<TokenModel>::empty();
    let last = seq![fields];
    assert(last.skip(1) =~= none);
    let closing = seq![word, TokenModel::Ident(name), fields];
    assert(closing.skip(2) =~= last);
    let named = HeadModel { name: Some(name), lifetime: None, body: None };
    assert(last[0] == fields);
    assert(head_of(none, HeadModel { body: Some(body), ..named }) == Ok::<HeadModel, FaultModel>(
        HeadModel { body: Some(body), ..named },
    ));
    assert(head_of(last, named) == Ok::<HeadModel, FaultModel>(
        HeadModel { body: Some(body), ..named },
    ));
    assert(closing[0] == word && closing[1] == TokenModel::Ident(name) && closing[2] == fields);
    assert(head_of(closing, empty) == head_of(last, named));
    lemma_head_of_plain(before, closing, empty);
    let inner = seq![
        TokenModel::Punct(APOSTROPHE@, joint),
        TokenModel::Ident(lifetime),
        TokenModel::Punct(GREATER@, joint),
    ] + last;
    let generic = seq![
        word,
        TokenModel::Ident(name),
        TokenModel::Punct(LESS@, joint),
        TokenModel::Punct(APOSTROPHE@, joint),
        TokenModel::Ident(lifetime),
        TokenModel::Punct(GREATER@, joint),
        fields,
    ];
    assert(generic.skip(3) =~= inner);
    lemma_generics_of_one_lifetime(joint, lifetime, lifetime, last, word);
    let tagged = HeadModel { name: Some(name), lifetime: Some(lifetime), body: None };
    assert(head_of(none, HeadModel { body: Some(body), ..tagged }) == Ok::<HeadModel, FaultModel>(
        HeadModel { body: Some(body), ..tagged },
    ));
    assert(head_of(last, tagged) == Ok::<HeadModel, FaultModel>(
        HeadModel { body: Some(body), ..tagged },
    ));
    assert(generic[0] == word && generic[1] == TokenModel::Ident(name));
    assert(generic[2] == TokenModel::Punct(LESS@, joint));
    assert(head_of(generic, empty) == head_of(last, tagged));
    lemma_head_of_plain(before, generic, empty);
    let bare = seq![word, TokenModel::Ident(name)];
    assert(bare.skip(2) =~= none);
    assert(bare[0] == word && bare[1] == TokenModel::Ident(name));
    assert(head_of(none, named) == Ok::<HeadModel, FaultModel>(named));
    assert(head_of(bare, empty) == head_of(none, named));
    lemma_head_of_plain(before, bare, empty);
    lemma_head_of_plain(before, none, empty);
    assert(before + none =~= before);
    assert(head_of(none, empty) == Ok::<HeadModel, FaultModel>(empty));
}

/// Where a lifetime is named it is replaced, and every other token stays where it is;
/// inside groups alike.
pub proof fn lemma_lifetimes_are_replaced(
    joint: bool,
    lifetime: Seq<char>,
    replacement: Seq<char>,
    other: TokenModel,
    inner: Seq<TokenModel>,
    delimiter: Delimiter,
    rest: Seq<TokenModel>,
)
    requires
        !other.is_punct(APOSTROPHE@),
        !(other is Group),
    ensures
        substituted(
            seq![TokenModel::Punct(APOSTROPHE@, joint), TokenModel::Ident(lifetime)] + rest,
            lifetime,
            replacement,
        ) == seq![TokenModel::Punct(APOSTROPHE@, true), TokenModel::Ident(replacement)]
            + substituted(rest, lifetime, replacement),
        substituted(seq![other] + rest, lifetime, replacement) == seq![other] + substituted(
            rest,
            lifetime,
            replacement,
        ),
        substituted(
            seq![TokenModel::Group(delimiter, inner)] + rest,
            lifetime,
            replacement,
        ) == seq![TokenModel::Group(delimiter, substituted(inner, lifetime, replacement))]
            + substituted(rest, lifetime, replacement),
{
    let named = seq![TokenModel::Punct(APOSTROPHE@, joint), TokenModel::Ident(lifetime)] + rest;
    assert(named.skip(2) =~= rest);
    assert(named[0] == TokenModel::Punct(APOSTROPHE@, joint));
    assert(named[1] == TokenModel::Ident(lifetime));
    let plain = seq![other] + rest;
    assert(plain.skip(1) =~= rest);
    assert(plain[0] == other);
    let grouped = seq![TokenModel::Group(delimiter, inner)] + rest;
    assert(grouped.skip(1) =~= rest);
    assert(grouped[0] == TokenModel::Group(delimiter, inner));
}

/// Tokens are written one behind the other, with a gap between two unless the first of
/// them is joint; a group is written in its brackets.
pub proof fn lemma_tokens_are_written_in_order(
    before: Seq<TokenModel>,
    last: TokenModel,
    delimiter: Delimiter,
    inner: Seq<TokenModel>,
)
    ensures
        rendered(Seq::empty()).len() == 0,
        rendered(seq![last]) == token_text(last),
        before.len() > 0 ==> rendered(before.push(last)) == if before.last() matches TokenModel::Punct(
            _,
            true,
        ) {
            rendered(before) + token_text(last)
        } else {
            rendered(before) + GAP@ + token_text(last)
        },
        token_text(TokenModel::Group(delimiter, inner)) == delimiter.opening() + rendered(inner)
            + delimiter.closing(),
{
    let all = before.push(last);
    assert(all.drop_last() =~= before);
    let only = seq![last];
    assert(only.drop_last() =~= Seq::<TokenModel>::empty());
    assert(only.last() == last);
    let none = Seq::<TokenModel>::empty();
    assert(rendered(none) =~= Seq::<char>::empty());
    assert(only.drop_last() == none);
    assert(rendered(only) =~= token_text(last));
    if before.len() > 0 && before.last().joint() {
        assert(rendered(all) =~= rendered(before) + token_text(last));
    }
}

/// A template is copied, except that `$` and a digit stand for the text of that number.
pub proof fn lemma_templates_are_filled(
    plain: char,
    digit: char,
    rest: Seq<char>,
    args: Seq<Seq<char>>,
)
    ensures
        filled(Seq::empty(), args).len() == 0,
        plain != '$' ==> filled(seq![plain] + rest, args) == seq![plain] + filled(rest, args),
        '0' <= digit <= '9' && (digit as int - '0' as int) < args.len() ==> filled(
            seq!['$', digit] + rest,
            args,
        ) == args[digit as int - '0' as int] + filled(rest, args),
{
    let copied = seq![plain] + rest;
    assert(copied.skip(1) =~= rest);
    assert(copied[0] == plain);
    let numbered = seq!['$', digit] + rest;
    assert(numbered.skip(2) =~= rest);
    assert(numbered[0] == '$' && numbered[1] == digit);
}

/// The code of a bundle has one piece for each field, in order; a piece is told the
/// number and the name of its field, and its type with the lifetime replaced.
pub proof fn lemma_code_has_a_piece_for_each_field(
    bundle: BundleModel,
    template: Seq<char>,
    at: int,
)
    requires
        0 <= at < bundle.fields.len(),
    ensures
        bundle.each(template, (at + 1) as nat) == bundle.each(template, at as nat) + filled(
            template,
            bundle.field_args(at),
        ),
        bundle.each(template, 0).len() == 0,
        bundle.all(template) == bundle.each(template, bundle.fields.len()),
        bundle.field_args(at).len() == 4,
        number_of(bundle.field_args(at)[0]) == at,
        bundle.field_args(at)[1] == bundle.fields[at].name,
        bundle.lifetime is None ==> bundle.field_args(at)[2] == rendered(bundle.fields[at].ty)
            && bundle.field_args(at)[3] == rendered(bundle.fields[at].ty),
        bundle.lifetime matches Some(name) ==> bundle.field_args(at)[2] == rendered(
            substituted(bundle.fields[at].ty, name, "static"@),
        ) && bundle.field_args(at)[3] == rendered(
            substituted(bundle.fields[at].ty, name, "__item"@),
        ),
{
    lemma_decimal_says_the_number(at as nat);
}

/// A declaration that is refused becomes a compile error that says why; one that is
/// accepted becomes its impls, in which the name of the type stands where the template
/// asks for it.
pub proof fn lemma_refusals_become_errors(tokens: Seq<TokenModel>)
    ensures
        component_plan(tokens) matches Err(error) ==> component_code(tokens) == filled(
            COMPILE_ERROR@,
            seq![error.wording()],
        ),
        component_plan(tokens) matches Ok(plan) ==> component_code(tokens) == filled(
            COMPONENT_IMPL@,
            plan.pieces(),
        ) && plan.pieces()[0] == plan.name && plan.pieces()[2] == plan.fingerprint.code() && (
        plan.untracked <==> plan.pieces()[1] == UNTRACKED@),
        bundle_of(tokens) matches Err(fault) ==> system_param_code(tokens) == filled(
            COMPILE_ERROR@,
            seq![fault.wording()],
        ),
        bundle_of(tokens) matches Ok(bundle) ==> system_param_code(tokens) == bundle.code(),
{
    reveal_strlit("");
    reveal_strlit("fn tracked() -> bool { false }");
    assert(""@.len() == 0);
    assert(UNTRACKED@.len() > 0);
}

} // verus!
