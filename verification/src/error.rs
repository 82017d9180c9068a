use crate::tokens::stream_tokens;
use crate::tokens::Delimiter;
use crate::tokens::Token;
use proc_macro2::TokenStream;
use vstd::prelude::*;

verus! {

/// Why a directive could not be applied to the item it stands on. Each
/// variant carries the parser's own error, which knows the place and the words
/// to report.
#[derive(Debug)]
pub enum RewriteError {
    /// The directive's arguments are not a comma-separated list of plain
    /// identifiers.
    MalformedDirective(syn::Error),
    /// The item under the directive is not a function definition.
    MalformedFunction(syn::Error),
}

/// Two colons that form one path separator, `::`.
pub open spec fn is_path_separator(first: Token, second: Token) -> bool {
    &&& first == (Token::Punct { ch: ':', joint: true })
    &&& second == (Token::Punct { ch: ':', joint: false })
}

/// One message to the author: `::core::compile_error! { "..." }`, which makes
/// the compiler stop and show the quoted words.
pub open spec fn is_message(tokens: Seq<Token>) -> bool {
    &&& tokens.len() == 8
    &&& is_path_separator(tokens[0], tokens[1])
    &&& tokens[2] == Token::Ident("core"@)
    &&& is_path_separator(tokens[3], tokens[4])
    &&& tokens[5] == Token::Ident("compile_error"@)
    &&& tokens[6] == (Token::Punct { ch: '!', joint: false })
    &&& tokens[7] matches Token::Group { delimiter, tokens: words }
    &&& delimiter == Delimiter::Brace
    &&& words.len() == 1
    &&& words[0] is Literal
}

/// What takes the place of a function whose directive could not be applied:
/// one message to the author or more, and nothing else.
pub open spec fn is_error_report(tokens: Seq<Token>) -> bool {
    &&& tokens.len() > 0
    &&& tokens.len() % 8 == 0
    &&& forall|k: int|
        0 <= k < tokens.len() / 8 ==> is_message(#[trigger] tokens.subrange(8 * k, 8 * k + 8))
}

/// `syn::Error::to_compile_error`: renders each message of the error as an
/// invocation of `compile_error!` that holds the message as a string literal.
/// An error holds one message at least.
#[verifier::external_body]
pub(crate) fn render_error(error: &syn::Error) -> (stream: TokenStream)
    ensures
        is_error_report(stream_tokens(stream)),
{
    error.to_compile_error()
}

impl RewriteError {
    /// The tokens that report this error to the author of the directive, at
    /// the place the parser names.
    pub fn report(&self) -> (stream: TokenStream)
        ensures
            is_error_report(stream_tokens(stream)),
    {
        match self {
            RewriteError::MalformedDirective(error) => render_error(error),
            RewriteError::MalformedFunction(error) => render_error(error),
        }
    }
}

} // verus!
