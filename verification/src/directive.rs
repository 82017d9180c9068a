use crate::error::RewriteError;
use crate::tokens::names;
use crate::tokens::stream_tokens;
use crate::tokens::Delimiter;
use crate::tokens::Token;
use proc_macro2::Ident;
use proc_macro2::TokenStream;
use syn::parse::Parser;
use syn::punctuated::Punctuated;
use syn::token::Comma;
use vstd::prelude::*;

verus! {

/// A word that cannot name a parameter: a keyword of the language, strict or
/// reserved, or the lone underscore.
pub open spec fn is_reserved(name: Seq<char>) -> bool {
    ||| name == "_"@
    ||| name == "abstract"@
    ||| name == "as"@
    ||| name == "async"@
    ||| name == "await"@
    ||| name == "become"@
    ||| name == "box"@
    ||| name == "break"@
    ||| name == "const"@
    ||| name == "continue"@
    ||| name == "crate"@
    ||| name == "do"@
    ||| name == "dyn"@
    ||| name == "else"@
    ||| name == "enum"@
    ||| name == "extern"@
    ||| name == "false"@
    ||| name == "final"@
    ||| name == "fn"@
    ||| name == "for"@
    ||| name == "if"@
    ||| name == "impl"@
    ||| name == "in"@
    ||| name == "let"@
    ||| name == "loop"@
    ||| name == "macro"@
    ||| name == "match"@
    ||| name == "mod"@
    ||| name == "move"@
    ||| name == "mut"@
    ||| name == "override"@
    ||| name == "priv"@
    ||| name == "pub"@
    ||| name == "ref"@
    ||| name == "return"@
    ||| name == "Self"@
    ||| name == "self"@
    ||| name == "static"@
    ||| name == "struct"@
    ||| name == "super"@
    ||| name == "trait"@
    ||| name == "true"@
    ||| name == "try"@
    ||| name == "type"@
    ||| name == "typeof"@
    ||| name == "unsafe"@
    ||| name == "unsized"@
    ||| name == "use"@
    ||| name == "virtual"@
    ||| name == "where"@
    ||| name == "while"@
    ||| name == "yield"@
}

/// A token that is a plain identifier: a word that is not reserved.
pub open spec fn is_plain_identifier(token: Token) -> bool {
    token matches Token::Ident(name) && !is_reserved(name)
}

/// A token that is a comma, whatever follows it.
pub open spec fn is_comma(token: Token) -> bool {
    token matches Token::Punct { ch, .. } && ch == ','
}

/// Whether one of the tokens is a group without visible brackets. Such groups
/// do not come from source text; the parser looks through them.
pub open spec fn has_invisible_group(tokens: Seq<Token>) -> bool {
    exists|i: int|
        0 <= i < tokens.len() && (#[trigger] tokens[i] matches Token::Group { delimiter, .. }
            && delimiter == Delimiter::Invisible)
}

/// The grammar of a directive's arguments: plain identifiers separated by
/// commas, with or without a comma after the last one; no token at all is the
/// empty list.
pub open spec fn is_identifier_list(tokens: Seq<Token>) -> bool {
    forall|i: int|
        0 <= i < tokens.len() ==> if i % 2 == 0 {
            is_plain_identifier(#[trigger] tokens[i])
        } else {
            is_comma(tokens[i])
        }
}

/// The names that an identifier list holds, in order of appearance.
pub open spec fn listed_names(tokens: Seq<Token>) -> Seq<Seq<char>> {
    Seq::new(((tokens.len() + 1) / 2) as nat, |i: int| tokens[2 * i]->Ident_0)
}

/// What `Punctuated::<Ident, Comma>::parse_terminated` makes of a stream in
/// which some token is a group without visible brackets: the names of the
/// identifiers it parses, or `None` where it reports an error.
pub uninterp spec fn names_through_groups(tokens: Seq<Token>) -> Option<Seq<Seq<char>>>;

/// The identifiers that the arguments of a directive name, or `None` where
/// the arguments are malformed.
pub open spec fn directive_names(tokens: Seq<Token>) -> Option<Seq<Seq<char>>> {
    if has_invisible_group(tokens) {
        names_through_groups(tokens)
    } else if is_identifier_list(tokens) {
        Some(listed_names(tokens))
    } else {
        None
    }
}

/// `Punctuated::<Ident, Comma>::parse_terminated`, run over a whole stream by
/// `Parser::parse2`: parses identifiers separated by commas, a trailing comma
/// allowed, and nothing else. `Ident`'s parser takes a word unless it is
/// reserved, and `Comma`'s a `,` of either spacing. Where a group without
/// visible brackets stands among the tokens the parser looks through it; of
/// such a stream the contract says only that the outcome depends on the
/// tokens alone.
#[verifier::external_body]
pub(crate) fn parse_identifiers(tokens: TokenStream) -> (parsed: Result<Vec<Ident>, syn::Error>)
    ensures
        !has_invisible_group(stream_tokens(tokens)) ==> match parsed {
            Ok(identifiers) => {
                &&& is_identifier_list(stream_tokens(tokens))
                &&& names(identifiers@) == listed_names(stream_tokens(tokens))
            },
            Err(_) => !is_identifier_list(stream_tokens(tokens)),
        },
        has_invisible_group(stream_tokens(tokens)) ==> match parsed {
            Ok(identifiers) => names_through_groups(stream_tokens(tokens)) == Some(names(identifiers@)),
            Err(_) => names_through_groups(stream_tokens(tokens)) is None,
        },
{
    let list = Punctuated::<Ident, Comma>::parse_terminated.parse2(tokens)?;
    Ok(list.into_iter().collect())
}

/// Parses the arguments of a directive: the identifiers to guard, in the
/// order in which they are written.
pub fn parse_directive(attr: TokenStream) -> (result: Result<Vec<Ident>, RewriteError>)
    ensures
        match result {
            Ok(identifiers) => directive_names(stream_tokens(attr)) == Some(names(identifiers@)),
            Err(error) => {
                &&& error is MalformedDirective
                &&& directive_names(stream_tokens(attr)) is None
            },
        },
{
    match parse_identifiers(attr) {
        Ok(identifiers) => Ok(identifiers),
        Err(error) => Err(RewriteError::MalformedDirective(error)),
    }
}

} // verus!
