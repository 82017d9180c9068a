use crate::syntax::stmt_tokens;
use crate::syntax::verbatim_statement;
use crate::tokens::empty_stream;
use crate::tokens::group_tree;
use crate::tokens::ident_name;
use crate::tokens::ident_tree;
use crate::tokens::is_punct_char;
use crate::tokens::is_word;
use crate::tokens::punct_tree;
use crate::tokens::push_tree;
use crate::tokens::stream_tokens;
use crate::tokens::word_tree;
use crate::tokens::Delimiter;
use crate::tokens::Token;
use proc_macro2::Ident;
use proc_macro2::TokenStream;
use syn::Stmt;
use vstd::prelude::*;

verus! {

/// A word of the guard's fixed text.
pub open spec fn word(text: &str) -> Token {
    Token::Ident(text@)
}

/// A punctuation character that stands alone.
pub open spec fn mark(ch: char) -> Token {
    Token::Punct { ch, joint: false }
}

/// The empty argument list `()` of a call.
pub open spec fn no_arguments() -> Token {
    Token::Group { delimiter: Delimiter::Parenthesis, tokens: Seq::empty() }
}

/// `__result.err().unwrap()`: the error payload of a failed validation.
pub open spec fn payload_tokens() -> Seq<Token> {
    seq![
        word("__result"),
        mark('.'),
        word("err"),
        no_arguments(),
        mark('.'),
        word("unwrap"),
        no_arguments(),
    ]
}

/// `return Err(<payload>);`
pub open spec fn early_return_tokens() -> Seq<Token> {
    seq![
        word("return"),
        word("Err"),
        Token::Group { delimiter: Delimiter::Parenthesis, tokens: payload_tokens() },
        mark(';'),
    ]
}

/// `let __result = <name>.validate(); if __result.is_err() { <early return> }`
pub open spec fn guard_body_tokens(name: Seq<char>) -> Seq<Token> {
    seq![
        word("let"),
        word("__result"),
        mark('='),
        Token::Ident(name),
        mark('.'),
        word("validate"),
        no_arguments(),
        mark(';'),
        word("if"),
        word("__result"),
        mark('.'),
        word("is_err"),
        no_arguments(),
        Token::Group { delimiter: Delimiter::Brace, tokens: early_return_tokens() },
    ]
}

/// The guard block for the parameter called `name`: one braced group, so that
/// its temporary binding stays in a scope of its own.
pub open spec fn guard_tokens(name: Seq<char>) -> Seq<Token> {
    seq![Token::Group { delimiter: Delimiter::Brace, tokens: guard_body_tokens(name) }]
}

/// Appends a word of the guard's fixed text.
fn push_word(stream: &mut TokenStream, text: &str)
    requires
        is_word(text@),
    ensures
        stream_tokens(*final(stream)) == stream_tokens(*old(stream)).push(word(text)),
{
    push_tree(stream, word_tree(text));
}

/// Appends the identifier of the guarded parameter.
fn push_ident(stream: &mut TokenStream, ident: &Ident)
    ensures
        stream_tokens(*final(stream)) == stream_tokens(*old(stream)).push(
            Token::Ident(ident_name(*ident)),
        ),
{
    push_tree(stream, ident_tree(ident));
}

/// Appends a punctuation character that stands alone.
fn push_punct(stream: &mut TokenStream, ch: char)
    requires
        is_punct_char(ch),
    ensures
        stream_tokens(*final(stream)) == stream_tokens(*old(stream)).push(mark(ch)),
{
    push_tree(stream, punct_tree(ch));
}

/// Appends a bracketed group around the tokens of `inner`.
fn push_group(stream: &mut TokenStream, delimiter: Delimiter, inner: TokenStream)
    ensures
        stream_tokens(*final(stream)) == stream_tokens(*old(stream)).push(
            Token::Group { delimiter, tokens: stream_tokens(inner) },
        ),
{
    push_tree(stream, group_tree(delimiter, inner));
}

/// The tokens of the guard block that validates `var`.
pub fn guard_stream(var: &Ident) -> (stream: TokenStream)
    ensures
        stream_tokens(stream) == guard_tokens(ident_name(*var)),
{
    proof {
        reveal_strlit("return");
        reveal_strlit("Err");
        reveal_strlit("__result");
        reveal_strlit("err");
        reveal_strlit("unwrap");
        reveal_strlit("let");
        reveal_strlit("validate");
        reveal_strlit("if");
        reveal_strlit("is_err");
    }
    let mut payload = empty_stream();
    push_word(&mut payload, "__result");
    push_punct(&mut payload, '.');
    push_word(&mut payload, "err");
    push_group(&mut payload, Delimiter::Parenthesis, empty_stream());
    push_punct(&mut payload, '.');
    push_word(&mut payload, "unwrap");
    push_group(&mut payload, Delimiter::Parenthesis, empty_stream());
    assert(stream_tokens(payload) == payload_tokens());

    let mut early_return = empty_stream();
    push_word(&mut early_return, "return");
    push_word(&mut early_return, "Err");
    push_group(&mut early_return, Delimiter::Parenthesis, payload);
    push_punct(&mut early_return, ';');
    assert(stream_tokens(early_return) == early_return_tokens());

    let mut body = empty_stream();
    push_word(&mut body, "let");
    push_word(&mut body, "__result");
    push_punct(&mut body, '=');
    push_ident(&mut body, var);
    push_punct(&mut body, '.');
    push_word(&mut body, "validate");
    push_group(&mut body, Delimiter::Parenthesis, empty_stream());
    push_punct(&mut body, ';');
    push_word(&mut body, "if");
    push_word(&mut body, "__result");
    push_punct(&mut body, '.');
    push_word(&mut body, "is_err");
    push_group(&mut body, Delimiter::Parenthesis, empty_stream());
    push_group(&mut body, Delimiter::Brace, early_return);
    assert(stream_tokens(body) == guard_body_tokens(ident_name(*var)));

    let mut stream = empty_stream();
    push_group(&mut stream, Delimiter::Brace, body);
    stream
}

/// The guard block that validates `var`, as a statement ready to stand in a
/// function's body.
///
/// The block enters the tree as the tokens it is made of, unparsed. An
/// identifier that makes no expression, such as a keyword, so gives a body
/// that the compiler refuses later; it is no failure here.
pub fn guard_statement(var: &Ident) -> (stmt: Stmt)
    ensures
        stmt_tokens(stmt) == guard_tokens(ident_name(*var)),
{
    verbatim_statement(guard_stream(var))
}

/// A guard block tells which parameter it validates: the blocks of two names
/// are the same only where the names are.
pub proof fn lemma_guard_names_its_parameter(a: Seq<char>, b: Seq<char>)
    requires
        guard_tokens(a) == guard_tokens(b),
    ensures
        a == b,
{
    let inner_a = guard_body_tokens(a);
    let inner_b = guard_body_tokens(b);
    assert(guard_tokens(a)[0]->Group_tokens == inner_a);
    assert(guard_tokens(b)[0]->Group_tokens == inner_b);
    assert(inner_a[3] == inner_b[3]);
}

} // verus!
