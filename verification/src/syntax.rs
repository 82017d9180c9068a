use crate::tokens::stream_tokens;
use crate::tokens::Delimiter;
use crate::tokens::Token;
use proc_macro2::TokenStream;
use quote::ToTokens;
use syn::Expr;
use syn::ItemFn;
use syn::Stmt;
use vstd::prelude::*;

verus! {

/// `syn::ItemFn`: the syntax tree of a free-standing function.
#[verifier::external_type_specification]
#[verifier::external_body]
pub struct ExItemFn(ItemFn);

/// `syn::Stmt`: the syntax tree of one statement.
#[verifier::external_type_specification]
#[verifier::external_body]
pub struct ExStmt(Stmt);

/// `syn::Error`: what a parser reports, with the place and the words.
#[verifier::external_type_specification]
#[verifier::external_body]
pub struct ExError(syn::Error);

/// A function definition as a mathematical value: what the syntax tree of a
/// function prints, part by part, once source locations are left aside.
pub struct FunctionView {
    /// The tokens in front of the body: outer attributes, visibility and the
    /// signature with the name, the parameters and the return type.
    pub signature: Seq<Token>,
    /// The tokens of the inner attributes, which stand inside the body's
    /// braces in front of its first statement.
    pub inner_attributes: Seq<Token>,
    /// The statements of the body in order, each by its tokens.
    pub body: Seq<Seq<Token>>,
}

/// The tokens that `syn::Stmt` prints through `ToTokens`.
pub uninterp spec fn stmt_tokens(stmt: Stmt) -> Seq<Token>;

/// The statements that the body of a `syn::ItemFn` holds, `block.stmts`.
pub uninterp spec fn item_statements(item: ItemFn) -> Seq<Stmt>;

/// The tokens that a `syn::ItemFn` prints in front of its body's braces: its
/// outer attributes, `vis` and `sig`.
pub uninterp spec fn item_signature(item: ItemFn) -> Seq<Token>;

/// The tokens that a `syn::ItemFn` prints inside its body's braces in front of
/// the statements: its inner attributes.
pub uninterp spec fn item_inner_attributes(item: ItemFn) -> Seq<Token>;

/// What `syn::parse2::<ItemFn>` makes of a stream with these tokens: the view
/// of the function it parses, or `None` where it reports an error.
pub uninterp spec fn parsed_function(tokens: Seq<Token>) -> Option<FunctionView>;

/// The tokens of each statement of a list, in the same order.
pub open spec fn statements_tokens(statements: Seq<Stmt>) -> Seq<Seq<Token>> {
    statements.map_values(|stmt: Stmt| stmt_tokens(stmt))
}

/// The view of a syntax tree.
pub open spec fn function_view(item: ItemFn) -> FunctionView {
    FunctionView {
        signature: item_signature(item),
        inner_attributes: item_inner_attributes(item),
        body: statements_tokens(item_statements(item)),
    }
}

/// The tokens of a whole function definition: the signature, then one braced
/// group that holds the inner attributes and the statements one after another.
pub open spec fn function_tokens(function: FunctionView) -> Seq<Token> {
    function.signature.push(
        Token::Group {
            delimiter: Delimiter::Brace,
            tokens: function.inner_attributes + function.body.flatten(),
        },
    )
}

/// `syn::parse2::<ItemFn>`: parses a whole stream as one function definition.
/// Whether it succeeds, and what the parsed function prints, depends on the
/// stream's tokens alone.
#[verifier::external_body]
pub(crate) fn parse_function(tokens: TokenStream) -> (parsed: Result<ItemFn, syn::Error>)
    ensures
        match parsed {
            Ok(item) => parsed_function(stream_tokens(tokens)) == Some(function_view(item)),
            Err(_) => parsed_function(stream_tokens(tokens)) is None,
        },
{
    syn::parse2::<ItemFn>(tokens)
}

/// `Stmt::Expr` around `Expr::Verbatim`, without a semicolon: a statement
/// that prints exactly the tokens it was made of.
#[verifier::external_body]
pub(crate) fn verbatim_statement(tokens: TokenStream) -> (stmt: Stmt)
    ensures
        stmt_tokens(stmt) == stream_tokens(tokens),
{
    Stmt::Expr(Expr::Verbatim(tokens), None)
}

/// The field `block.stmts` of a `syn::ItemFn`, lent for change: the list of
/// the body's statements. What the list holds when it is given back is what
/// the function's body then holds, and nothing else of the function changes.
#[verifier::external_body]
pub(crate) fn statements_mut(item: &mut ItemFn) -> (statements: &mut Vec<Stmt>)
    ensures
        statements@ == item_statements(*old(item)),
        item_statements(*final(item)) == final(statements)@,
        item_signature(*final(item)) == item_signature(*old(item)),
        item_inner_attributes(*final(item)) == item_inner_attributes(*old(item)),
{
    &mut item.block.stmts
}

/// `ToTokens::to_token_stream` of `syn::ItemFn`: prints outer attributes,
/// visibility and signature, then the body's braces around the inner
/// attributes and the statements.
#[verifier::external_body]
pub(crate) fn print_function(item: &ItemFn) -> (stream: TokenStream)
    ensures
        stream_tokens(stream) == function_tokens(function_view(*item)),
{
    item.to_token_stream()
}

} // verus!
