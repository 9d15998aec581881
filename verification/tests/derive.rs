use bowl::derive::attributes::{attribute_value, component_attribute_contains, name_of_type};
use bowl::derive::bundle::{parse_bundle, parse_fields, BundleError};
use bowl::derive::code::{derive_component, derive_system_param, plan_component, ComponentError, Fingerprint};
use bowl::derive::lifetime::substitute_lifetime;
use bowl::derive::template::fill;
use bowl::derive::tokens::{copy_tokens, render_tokens, Delimiter, Token};

fn ident(text: &str) -> Token {
    Token::Ident(text.to_string())
}

fn punct(text: &str) -> Token {
    Token::Punct(text.to_string(), false)
}

fn group(delimiter: Delimiter, tokens: Vec<Token>) -> Token {
    Token::Group(delimiter, tokens)
}

fn lifetime(name: &str) -> Vec<Token> {
    vec![Token::Punct("'".to_string(), true), ident(name)]
}

/// `#[component(<option>)] struct Name;`
fn component(options: &[&str], name: &str) -> Vec<Token> {
    let mut tokens = Vec::new();
    for option in options {
        tokens.push(punct("#"));
        tokens.push(group(
            Delimiter::Bracket,
            vec![ident("component"), group(Delimiter::Parenthesis, vec![ident(option)])],
        ));
    }
    tokens.push(ident("struct"));
    tokens.push(ident(name));
    tokens.push(punct(";"));
    tokens
}

fn keyed(attribute: &str, key: &str, value: Vec<Token>) -> Vec<Token> {
    let mut args = vec![ident(key), punct("=")];
    args.extend(value);
    vec![
        punct("#"),
        group(
            Delimiter::Bracket,
            vec![ident(attribute), group(Delimiter::Parenthesis, args)],
        ),
    ]
}

fn squeezed(text: &str) -> String {
    text.split_whitespace().collect::<Vec<_>>().join(" ")
}

#[test]
fn a_plain_component_is_tracked_without_a_fingerprint() {
    assert_eq!(
        squeezed(&derive_component(&component(&[], "Plain"))),
        "impl ::bowl::Component for Plain { }"
    );
}

#[test]
fn component_options_become_methods() {
    let hashed = derive_component(&component(&["hash"], "Hashed"));
    assert_eq!(
        squeezed(&hashed),
        "impl ::bowl::Component for Hashed { fn fingerprint(&self) -> \
         ::core::option::Option<u64> { \
         ::core::option::Option::Some(::bowl::hash_component(self)) } }"
    );
    let revised = derive_component(&component(&["revision"], "Revised"));
    assert!(revised.contains("::core::option::Option::Some(self.revision)"));
    let untracked = derive_component(&component(&["untracked"], "Quiet"));
    assert_eq!(
        squeezed(&untracked),
        "impl ::bowl::Component for Quiet { fn tracked() -> bool { false } }"
    );
    assert!(component_attribute_contains(&component(&["hash"], "Hashed"), "hash"));
    assert!(!component_attribute_contains(&component(&["hash"], "Hashed"), "revision"));
}

#[test]
fn a_relationship_names_the_inverse_on_its_target() {
    let mut tokens = keyed("relationship", "target", vec![ident("Members")]);
    tokens.extend(component(&[], "MemberOf"));
    let text = derive_component(&tokens);
    assert!(text.contains("::bowl::RelationshipEdge::new::<Members>(self.0)"));

    let mut tokens = keyed("relationship_target", "relationship", vec![ident("MemberOf")]);
    tokens.extend(component(&[], "Members"));
    let text = derive_component(&tokens);
    assert!(text.contains("impl ::bowl::RelationshipTarget for Members {"));
    assert!(text.contains("type Edge = MemberOf;"));
    assert!(text.contains("::bowl::hash_component(&self.0)"));
    assert_eq!(plan_component(&tokens).unwrap().fingerprint, Fingerprint::Members);
}

#[test]
fn a_keyed_value_may_be_a_path() {
    let path = vec![ident("crate"), punct(":"), punct(":"), ident("Members"), punct(","), ident("x")];
    let tokens = keyed("relationship", "target", path);
    assert_eq!(
        attribute_value(&tokens, "relationship", "target"),
        Some("crate::Members".to_string())
    );
    assert_eq!(attribute_value(&tokens, "relationship", "source"), None);
    assert_eq!(attribute_value(&tokens, "relationship_target", "target"), None);
}

#[test]
fn contradicting_options_are_refused() {
    let both = component(&["hash", "revision"], "Both");
    assert_eq!(plan_component(&both).err(), Some(ComponentError::TwoFingerprints));
    assert_eq!(
        derive_component(&both),
        "compile_error!(\"#[component(hash)] and #[component(revision)] are mutually \
         exclusive\");"
    );

    let mut redundant = keyed("relationship_target", "relationship", vec![ident("Edge")]);
    redundant.extend(component(&["hash"], "Members"));
    assert_eq!(plan_component(&redundant).err(), Some(ComponentError::RedundantFingerprint));

    let mut two = keyed("relationship", "target", vec![ident("Members")]);
    two.extend(keyed("relationship_target", "relationship", vec![ident("Edge")]));
    two.extend(component(&[], "Odd"));
    assert_eq!(plan_component(&two).err(), Some(ComponentError::EdgeAndTarget));

    let alias = vec![ident("type"), ident("Alias"), punct("="), ident("u64"), punct(";")];
    assert_eq!(plan_component(&alias).err(), Some(ComponentError::NotAType));
    assert_eq!(name_of_type(&alias), None);
    assert_eq!(
        name_of_type(&vec![ident("pub"), ident("enum"), ident("Shade")]),
        Some("Shade".to_string())
    );
}

/// `struct Bundle<'w> { pub views: View<'w, A>, commands: Commands<B> }`
fn bundle() -> Vec<Token> {
    let mut views = vec![ident("pub"), ident("views"), punct(":"), ident("View"), punct("<")];
    views.extend(lifetime("w"));
    views.extend(vec![punct(","), ident("A"), punct(">"), punct(",")]);
    let mut fields = views;
    fields.extend(vec![
        ident("commands"),
        punct(":"),
        ident("Commands"),
        punct("<"),
        ident("B"),
        punct(">"),
    ]);
    let mut tokens = vec![ident("struct"), ident("Bundle"), punct("<")];
    tokens.extend(lifetime("w"));
    tokens.push(punct(">"));
    tokens.push(group(Delimiter::Brace, fields));
    tokens
}

#[test]
fn a_bundle_lists_its_fields() {
    let parsed = match parse_bundle(&bundle()) {
        Ok(parsed) => parsed,
        Err(error) => panic!("{}", error.message()),
    };
    assert_eq!(parsed.name, "Bundle");
    assert_eq!(parsed.lifetime, Some("w".to_string()));
    assert_eq!(parsed.fields.len(), 2);
    assert_eq!(parsed.fields[0].name, "views");
    assert_eq!(parsed.fields[1].name, "commands");
    let text = parsed.fields[0].ty_with_lifetime(&parsed.lifetime, "static");
    assert_eq!(text, "View < 'static , A >");
}

#[test]
fn a_bundle_is_composed_field_by_field() {
    let text = derive_system_param(&bundle());
    assert!(text.starts_with("impl<'w> ::bowl::__derive::SystemParam for Bundle<'w> {"));
    assert!(text.contains("type Item<'__item> = Bundle<'__item>;"));
    assert!(text.contains("::keys(&state.0)"));
    assert!(text.contains("::keys(&state.1)"));
    assert!(!text.contains("&state.2"));
    assert!(text.contains("views: <"));
    assert!(text.contains("commands: <"));
}

#[test]
fn malformed_bundles_are_refused() {
    let message = |tokens: Vec<Token>| match parse_bundle(&tokens) {
        Ok(_) => panic!("the bundle is malformed"),
        Err(error) => error.message(),
    };
    assert_eq!(message(vec![ident("enum")]), "SystemParam can only be derived for structs");
    assert_eq!(message(vec![ident("struct")]), "SystemParam can only be derived for structs");
    assert_eq!(
        message(vec![ident("struct"), ident("Unit"), punct(";")]),
        "SystemParam requires named fields"
    );
    assert_eq!(
        message(vec![ident("struct"), ident("Empty"), group(Delimiter::Brace, vec![])]),
        "SystemParam bundles need at least one field"
    );
    assert_eq!(
        message(vec![ident("struct"), ident("Open"), punct("<")]),
        "unterminated generics"
    );
    assert_eq!(
        message(vec![ident("struct"), ident("Typed"), punct("<"), ident("T"), punct(">")]),
        "SystemParam bundles support lifetimes only, no type parameters"
    );
    assert_eq!(
        message(vec![ident("struct"), ident("Bad"), punct("<"), punct("'"), punct(">")]),
        "malformed lifetime parameter"
    );
    let mut two = vec![ident("struct"), ident("Two"), punct("<")];
    two.extend(lifetime("a"));
    two.push(punct(","));
    two.extend(lifetime("b"));
    two.push(punct(">"));
    assert_eq!(message(two), "SystemParam bundles support at most one lifetime");
    assert_eq!(
        message(vec![
            ident("struct"),
            ident("Colon"),
            group(Delimiter::Brace, vec![ident("field"), ident("u64")]),
        ]),
        "expected `:` after field `field`"
    );
    assert_eq!(
        message(vec![
            ident("struct"),
            ident("Bare"),
            group(Delimiter::Brace, vec![ident("field"), punct(":"), punct(",")]),
        ]),
        "field `field` has an empty type"
    );
    assert_eq!(
        derive_system_param(&vec![ident("enum")]),
        "compile_error!(\"SystemParam can only be derived for structs\");"
    );
}

#[test]
fn fields_end_at_a_comma_outside_angle_brackets() {
    let tokens = vec![
        punct("#"),
        group(Delimiter::Bracket, vec![ident("allow")]),
        ident("pub"),
        group(Delimiter::Parenthesis, vec![ident("crate")]),
        ident("map"),
        punct(":"),
        ident("Map"),
        punct("<"),
        ident("K"),
        punct(","),
        ident("V"),
        punct(">"),
        punct(","),
        ident("next"),
        punct(":"),
        ident("u64"),
    ];
    let fields: Result<Vec<_>, BundleError> = parse_fields(&tokens);
    let fields = match fields {
        Ok(fields) => fields,
        Err(error) => panic!("{}", error.message()),
    };
    assert_eq!(fields.len(), 2);
    assert_eq!(fields[0].ty.len(), 6);
    assert_eq!(fields[1].ty.len(), 1);
}

#[test]
fn lifetimes_are_replaced_inside_groups() {
    let mut inner = lifetime("w");
    inner.push(ident("A"));
    let mut tokens = lifetime("w");
    tokens.push(group(Delimiter::Parenthesis, inner));
    tokens.extend(lifetime("other"));
    let replaced = substitute_lifetime(&tokens, "w", "static");
    let text = render_tokens(&replaced);
    assert_eq!(text, "'static ('static A) 'other");
    let same = substitute_lifetime(&tokens, "absent", "static");
    assert_eq!(render_tokens(&same), render_tokens(&copy_tokens(&tokens)));
}

#[test]
fn templates_take_their_arguments_by_number() {
    let (one, two) = ("a".to_string(), "b".to_string());
    assert_eq!(fill("$0-$1-$0", &vec![&one, &two]), "a-b-a");
    assert_eq!(fill("plain", &vec![&one]), "plain");
}
