use proc_macro2::Group;
use proc_macro2::Ident;
use proc_macro2::Punct;
use proc_macro2::Spacing;
use proc_macro2::Span;
use proc_macro2::TokenStream;
use proc_macro2::TokenTree;
use quote::TokenStreamExt;
use vstd::prelude::*;

verus! {

/// The bracket kind of a delimited group of tokens.
#[derive(Clone, Copy, Debug, PartialEq, Eq)]
pub enum Delimiter {
    /// `( ... )`
    Parenthesis,
    /// `{ ... }`
    Brace,
    /// `[ ... ]`
    Bracket,
    /// A group without visible brackets.
    Invisible,
}

/// One token tree, as a mathematical value: what a token stream holds once
/// source locations are left aside.
pub enum Token {
    /// A word: a keyword or a name, by its text. The text of a raw
    /// identifier begins with `r#`.
    Ident(Seq<char>),
    /// A punctuation character; `joint` tells whether the next punctuation
    /// character follows it immediately, as `-` does in `->`.
    Punct { ch: char, joint: bool },
    /// A literal, by its text.
    Literal(Seq<char>),
    /// A bracketed group and the tokens inside it.
    Group { delimiter: Delimiter, tokens: Seq<Token> },
}

/// `proc_macro2::TokenStream`: a sequence of token trees.
#[verifier::external_type_specification]
#[verifier::external_body]
pub struct ExTokenStream(TokenStream);

/// `proc_macro2::TokenTree`: one token, or one bracketed group of tokens.
#[verifier::external_type_specification]
#[verifier::external_body]
pub struct ExTokenTree(TokenTree);

/// `proc_macro2::Ident`: a word of source text, with the place it stands at.
#[verifier::external_type_specification]
#[verifier::external_body]
pub struct ExIdent(Ident);

/// The token trees that a `proc_macro2::TokenStream` holds, in order.
pub uninterp spec fn stream_tokens(stream: TokenStream) -> Seq<Token>;

/// What a `proc_macro2::TokenTree` holds.
pub uninterp spec fn tree_token(tree: TokenTree) -> Token;

/// The text of a `proc_macro2::Ident`, as `Ident::to_string` gives it.
pub uninterp spec fn ident_name(ident: Ident) -> Seq<char>;

/// The names of a list of identifiers, in the same order.
pub open spec fn names(identifiers: Seq<Ident>) -> Seq<Seq<char>> {
    identifiers.map_values(|identifier: Ident| ident_name(identifier))
}

/// A character that may stand in a word built from plain text: an ASCII
/// letter, an ASCII digit or an underscore.
pub open spec fn is_word_char(c: char) -> bool {
    ('a' <= c && c <= 'z') || ('A' <= c && c <= 'Z') || ('0' <= c && c <= '9') || c == '_'
}

/// Text that is a keyword or a legal name whatever the edition: ASCII letters,
/// digits and underscores, not starting with a digit.
pub open spec fn is_word(text: Seq<char>) -> bool {
    &&& text.len() > 0
    &&& !('0' <= text[0] && text[0] <= '9')
    &&& forall|i: int| 0 <= i < text.len() ==> is_word_char(#[trigger] text[i])
}

/// The punctuation characters of the language.
pub open spec fn is_punct_char(c: char) -> bool {
    c == '!' || c == '#' || c == '$' || c == '%' || c == '&' || c == '\'' || c == '*' || c == '+'
        || c == ',' || c == '-' || c == '.' || c == '/' || c == ':' || c == ';' || c == '<'
        || c == '=' || c == '>' || c == '?' || c == '@' || c == '^' || c == '|' || c == '~'
}

/// `TokenStream::new`: a stream that holds no token.
#[verifier::external_body]
pub(crate) fn empty_stream() -> (stream: TokenStream)
    ensures
        stream_tokens(stream) == Seq::<Token>::empty(),
{
    TokenStream::new()
}

/// `TokenStreamExt::append`: the stream gains the tree as its last token.
/// A literal is left out: outside a running macro the stream splits one that
/// begins with a minus sign into the sign and the rest, and so gains two
/// tokens.
#[verifier::external_body]
pub(crate) fn push_tree(stream: &mut TokenStream, tree: TokenTree)
    requires
        !(tree_token(tree) is Literal),
    ensures
        stream_tokens(*final(stream)) == stream_tokens(*old(stream)).push(tree_token(tree)),
{
    stream.append(tree)
}

/// `Ident::new` at the call site's span: a word with the given text.
/// `Ident::new` panics on text that is no identifier, which `is_word` rules
/// out.
#[verifier::external_body]
pub(crate) fn word_tree(word: &str) -> (tree: TokenTree)
    requires
        is_word(word@),
    ensures
        tree_token(tree) == Token::Ident(word@),
{
    TokenTree::Ident(Ident::new(word, Span::call_site()))
}

/// `Ident::clone`: a word with the identifier's text and, beyond what the
/// contract tells, its place in the source.
#[verifier::external_body]
pub(crate) fn ident_tree(ident: &Ident) -> (tree: TokenTree)
    ensures
        tree_token(tree) == Token::Ident(ident_name(*ident)),
{
    TokenTree::Ident(ident.clone())
}

/// `Punct::new` with `Spacing::Alone`: a punctuation character on its own.
/// `Punct::new` panics on a character that is no punctuation, which
/// `is_punct_char` rules out.
#[verifier::external_body]
pub(crate) fn punct_tree(ch: char) -> (tree: TokenTree)
    requires
        is_punct_char(ch),
    ensures
        tree_token(tree) == (Token::Punct { ch, joint: false }),
{
    TokenTree::Punct(Punct::new(ch, Spacing::Alone))
}

/// `Group::new`: a group with the given brackets around the tokens of
/// `inner`.
#[verifier::external_body]
pub(crate) fn group_tree(delimiter: Delimiter, inner: TokenStream) -> (tree: TokenTree)
    ensures
        tree_token(tree) == (Token::Group { delimiter, tokens: stream_tokens(inner) }),
{
    let delimiter = match delimiter {
        Delimiter::Parenthesis => proc_macro2::Delimiter::Parenthesis,
        Delimiter::Brace => proc_macro2::Delimiter::Brace,
        Delimiter::Bracket => proc_macro2::Delimiter::Bracket,
        Delimiter::Invisible => proc_macro2::Delimiter::None,
    };
    TokenTree::Group(Group::new(delimiter, inner))
}

} // verus!
