//! Replacing a bundle's lifetime in the types of its fields.

use vstd::prelude::*;

use crate::derive::bundle::{optional_text, BundleField, FieldModel, APOSTROPHE};
use crate::derive::tokens::{
    copy_token, lemma_inside, render_tokens, rendered, token_view, tokens_view, Token, TokenModel,
};

verus! {

/// Whether `tokens` starts with the lifetime `name`.
pub open spec fn starts_with_lifetime(tokens: Seq<TokenModel>, name: Seq<char>) -> bool {
    tokens.len() >= 2 && tokens[0].is_punct(APOSTROPHE@) && tokens[1].is_ident(name)
}

/// A lifetime as tokens.
pub open spec fn lifetime_tokens(name: Seq<char>) -> Seq<TokenModel> {
    seq![TokenModel::Punct(APOSTROPHE@, true), TokenModel::Ident(name)]
}

/// A token list with every occurrence of one lifetime replaced by another, also
/// inside groups.
pub open spec fn substituted(
    tokens: Seq<TokenModel>,
    lifetime: Seq<char>,
    replacement: Seq<char>,
) -> Seq<TokenModel>
    decreases tokens,
{
    if tokens.len() == 0 {
        Seq::empty()
    } else if starts_with_lifetime(tokens, lifetime) {
        lifetime_tokens(replacement) + substituted(tokens.skip(2), lifetime, replacement)
    } else {
        seq![
            match tokens[0] {
                TokenModel::Group(delimiter, inner) => TokenModel::Group(
                    delimiter,
                    substituted(inner, lifetime, replacement),
                ),
                other => other,
            },
        ] + substituted(tokens.skip(1), lifetime, replacement)
    }
}

/// Replaces every occurrence of one lifetime by another.
pub fn substitute_lifetime(tokens: &Vec<Token>, lifetime: &str, replacement: &str) -> (out: Vec<
    Token,
>)
    ensures
        tokens_view(out@) == substituted(tokens_view(tokens@), lifetime@, replacement@),
    decreases tokens,
{
    let ghost all = tokens_view(tokens@);
    let ghost wanted = substituted(all, lifetime@, replacement@);
    let mut out: Vec<Token> = Vec::new();
    let mut i: usize = 0;
    proof {
        assert(all.skip(0) =~= all);
        assert(tokens_view(out@) + wanted =~= wanted);
    }
    while i < tokens.len()
        invariant
            all == tokens_view(tokens@),
            i <= tokens@.len(),
            tokens_view(out@) + substituted(all.skip(i as int), lifetime@, replacement@) == wanted,
        decreases tokens@.len() - i,
    {
        let ghost rest = all.skip(i as int);
        let ghost before = tokens_view(out@);
        assert(rest[0] == token_view(tokens@[i as int]));
        assert(rest.skip(1) =~= all.skip(i + 1));
        if i + 1 < tokens.len() && tokens[i].is_punct(APOSTROPHE) && tokens[i + 1].is_ident(
            lifetime,
        ) {
            assert(rest[1] == token_view(tokens@[i + 1]));
            assert(rest.skip(2) =~= all.skip(i + 2));
            out.push(Token::Punct(APOSTROPHE.to_owned(), true));
            out.push(Token::Ident(replacement.to_owned()));
            proof {
                assert(tokens_view(out@) =~= before + lifetime_tokens(replacement@));
                assert(before + (lifetime_tokens(replacement@) + substituted(
                    rest.skip(2),
                    lifetime@,
                    replacement@,
                )) =~= tokens_view(out@) + substituted(rest.skip(2), lifetime@, replacement@));
            }
            i = i + 2;
        } else {
            assert(decreases_to!(tokens => tokens@[i as int]));
            let token = match &tokens[i] {
                Token::Group(delimiter, inner) => {
                    let replaced = substitute_lifetime(inner, lifetime, replacement);
                    proof {
                        lemma_inside(*delimiter, *inner);
                        lemma_inside(*delimiter, replaced);
                    }
                    Token::Group(*delimiter, replaced)
                },
                other => copy_token(other),
            };
            out.push(token);
            proof {
                assert(tokens_view(out@) =~= before.push(token_view(token)));
                let tail = substituted(rest.skip(1), lifetime@, replacement@);
                assert(before + (seq![token_view(token)] + tail) =~= tokens_view(out@) + tail);
            }
            i = i + 1;
        }
    }
    proof {
        assert(all.skip(i as int) =~= Seq::<TokenModel>::empty());
        assert(tokens_view(out@) + Seq::<TokenModel>::empty() =~= tokens_view(out@));
    }
    out
}

impl FieldModel {
    /// The field's type, with the bundle's lifetime replaced, written out.
    pub open spec fn type_text(self, lifetime: Option<Seq<char>>, replacement: Seq<char>) -> Seq<
        char,
    > {
        match lifetime {
            Some(lifetime) => rendered(substituted(self.ty, lifetime, replacement)),
            None => rendered(self.ty),
        }
    }
}

impl BundleField {
    /// The field's type, with the bundle's lifetime replaced, written out.
    pub fn ty_with_lifetime(&self, lifetime: &Option<String>, replacement: &str) -> (text: String)
        ensures
            text@ == self@.type_text(optional_text(*lifetime), replacement@),
    {
        match lifetime {
            Some(lifetime) => render_tokens(
                &substitute_lifetime(&self.ty, lifetime.as_str(), replacement),
            ),
            None => render_tokens(&self.ty),
        }
    }
}

/// Whether a lifetime occurs in a token list, at the top or inside a group.
pub open spec fn mentions_lifetime(tokens: Seq<TokenModel>, name: Seq<char>) -> bool
    decreases tokens,
{
    if tokens.len() == 0 {
        false
    } else {
        ||| starts_with_lifetime(tokens, name)
        ||| match tokens[0] {
            TokenModel::Group(_, inner) => mentions_lifetime(inner, name),
            _ => false,
        }
        ||| mentions_lifetime(tokens.skip(1), name)
    }
}

/// After a lifetime was replaced by another, it does not occur any more.
pub proof fn lemma_lifetime_is_gone(
    tokens: Seq<TokenModel>,
    lifetime: Seq<char>,
    replacement: Seq<char>,
)
    requires
        lifetime != replacement,
    ensures
        !mentions_lifetime(substituted(tokens, lifetime, replacement), lifetime),
    decreases tokens,
{
    let out = substituted(tokens, lifetime, replacement);
    if tokens.len() == 0 {
    } else if starts_with_lifetime(tokens, lifetime) {
        lemma_lifetime_is_gone(tokens.skip(2), lifetime, replacement);
        let tail = substituted(tokens.skip(2), lifetime, replacement);
        assert(out.skip(1).skip(1) =~= tail);
        assert(out.skip(1)[0] == TokenModel::Ident(replacement));
        assert(!mentions_lifetime(out.skip(1), lifetime));
    } else {
        lemma_lifetime_is_gone(tokens.skip(1), lifetime, replacement);
        let rest = tokens.skip(1);
        let tail = substituted(rest, lifetime, replacement);
        assert(out.skip(1) =~= tail);
        if let TokenModel::Group(_, inner) = tokens[0] {
            lemma_lifetime_is_gone(inner, lifetime, replacement);
        }
        if starts_with_lifetime(out, lifetime) {
            assert(out[1] == tail[0]);
            assert(rest.len() > 0);
            assert(rest[0] == tokens[1]);
            assert(starts_with_lifetime(tokens, lifetime));
        }
    }
}

/// Replacing a lifetime that does not occur changes nothing.
pub proof fn lemma_absent_lifetime_changes_nothing(
    tokens: Seq<TokenModel>,
    lifetime: Seq<char>,
    replacement: Seq<char>,
)
    requires
        !mentions_lifetime(tokens, lifetime),
    ensures
        substituted(tokens, lifetime, replacement) == tokens,
    decreases tokens,
{
    if tokens.len() > 0 {
        lemma_absent_lifetime_changes_nothing(tokens.skip(1), lifetime, replacement);
        if let TokenModel::Group(_, inner) = tokens[0] {
            lemma_absent_lifetime_changes_nothing(inner, lifetime, replacement);
        }
        assert(seq![tokens[0]] + tokens.skip(1) =~= tokens);
    }
}

} // verus!
