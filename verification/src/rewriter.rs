use crate::directive::directive_names;
use crate::directive::parse_directive;
use crate::error::is_error_report;
use crate::error::RewriteError;
use crate::guard::guard_statement;
use crate::guard::guard_tokens;
use crate::syntax::function_tokens;
use crate::syntax::function_view;
use crate::syntax::item_inner_attributes;
use crate::syntax::item_signature;
use crate::syntax::item_statements;
use crate::syntax::parse_function;
use crate::syntax::parsed_function;
use crate::syntax::print_function;
use crate::syntax::statements_mut;
use crate::syntax::statements_tokens;
use crate::syntax::stmt_tokens;
use crate::syntax::FunctionView;
use crate::tokens::ident_name;
use crate::tokens::names;
use crate::tokens::stream_tokens;
use crate::tokens::Token;
use proc_macro2::Ident;
use proc_macro2::TokenStream;
use syn::ItemFn;
use vstd::prelude::*;

verus! {

/// The order in which the guards of a rewritten function stand, and so run:
/// each guard is put in front of those put before it, so the last identifier
/// of the list comes first and the first comes last.
pub open spec fn guard_order<A>(identifiers: Seq<A>) -> Seq<A> {
    Seq::new(identifiers.len(), |i: int| identifiers[identifiers.len() - 1 - i])
}

/// The guard blocks for a list of parameter names, as they stand in the
/// rewritten body.
pub open spec fn guard_blocks(names: Seq<Seq<char>>) -> Seq<Seq<Token>> {
    guard_order(names).map_values(|name: Seq<char>| guard_tokens(name))
}

/// The function that rewriting makes of `function`: the same signature and
/// inner attributes, and a body that is the guard blocks followed by the
/// statements of `function`.
pub open spec fn rewritten(names: Seq<Seq<char>>, function: FunctionView) -> FunctionView {
    FunctionView {
        signature: function.signature,
        inner_attributes: function.inner_attributes,
        body: guard_blocks(names) + function.body,
    }
}

/// Rewrites `function` so that each parameter named in `identifiers` is
/// validated before any statement of the function runs.
///
/// The identifiers are taken as they come: none is checked against the
/// parameters of the function, and one that occurs twice gets two guards.
pub fn rewrite(identifiers: &[Ident], function: ItemFn) -> (result: ItemFn)
    ensures
        function_view(result) == rewritten(names(identifiers@), function_view(function)),
        item_statements(result).len() == identifiers@.len() + item_statements(function).len(),
        forall|i: int|
            0 <= i < identifiers@.len() ==> stmt_tokens(#[trigger] item_statements(result)[i])
                == guard_tokens(ident_name(identifiers@[identifiers@.len() - 1 - i])),
        item_statements(result).skip(identifiers@.len() as int) == item_statements(function),
        identifiers@.len() == 0 ==> item_statements(result) == item_statements(function),
{
    let mut result = function;
    let mut done: usize = 0;
    while done < identifiers.len()
        invariant
            done <= identifiers@.len(),
            item_signature(result) == item_signature(function),
            item_inner_attributes(result) == item_inner_attributes(function),
            item_statements(result).len() == done + item_statements(function).len(),
            item_statements(result).skip(done as int) == item_statements(function),
            forall|i: int|
                0 <= i < done ==> stmt_tokens(#[trigger] item_statements(result)[i])
                    == guard_tokens(ident_name(identifiers@[done - 1 - i])),
        decreases identifiers@.len() - done,
    {
        let ghost before = item_statements(result);
        let guard = guard_statement(&identifiers[done]);
        let statements = statements_mut(&mut result);
        statements.insert(0, guard);
        assert(item_statements(result).skip(done + 1) == before.skip(done as int));
        assert forall|i: int| 0 <= i < done + 1 implies stmt_tokens(
            #[trigger] item_statements(result)[i],
        ) == guard_tokens(ident_name(identifiers@[done - i])) by {
            if i > 0 {
                assert(item_statements(result)[i] == before[i - 1]);
            }
        }
        done += 1;
    }
    proof {
        let n: int = identifiers@.len() as int;
        let given = item_statements(function);
        assert(item_statements(result) == item_statements(result).take(n) + given);
        assert(statements_tokens(item_statements(result)) == guard_blocks(names(identifiers@))
            + statements_tokens(given));
        if n == 0 {
            assert(item_statements(result).skip(0) == item_statements(result));
        }
    }
    result
}

/// Rewrites `func_ast` with a guard for each of `vars` and prints the result.
pub fn with_validation_impl(vars: Vec<Ident>, func_ast: ItemFn) -> (stream: TokenStream)
    ensures
        stream_tokens(stream) == function_tokens(rewritten(names(vars@), function_view(func_ast))),
{
    let result = rewrite(vars.as_slice(), func_ast);
    print_function(&result)
}

/// The tokens of the function that applying a directive gives, or `None`
/// where the directive's arguments or the function definition are malformed.
/// `attr` holds the tokens of the directive's arguments, `func` those of the
/// item under it.
pub open spec fn applied(attr: Seq<Token>, func: Seq<Token>) -> Option<Seq<Token>> {
    match (directive_names(attr), parsed_function(func)) {
        (Some(names), Some(function)) => Some(function_tokens(rewritten(names, function))),
        _ => None,
    }
}

/// Applies the directive with the arguments `attr` to the function definition
/// `func`: parses both, rewrites the function with a guard for each identifier
/// of the list, and prints the result.
///
/// The directive's arguments are parsed first, so where both are malformed
/// the directive's error is the one returned, before any rewriting.
pub fn apply_directive(attr: TokenStream, func: TokenStream) -> (result: Result<
    TokenStream,
    RewriteError,
>)
    ensures
        match result {
            Ok(stream) => applied(stream_tokens(attr), stream_tokens(func)) == Some(
                stream_tokens(stream),
            ),
            Err(RewriteError::MalformedDirective(_)) => directive_names(stream_tokens(attr))
                is None,
            Err(RewriteError::MalformedFunction(_)) => {
                &&& directive_names(stream_tokens(attr)) is Some
                &&& parsed_function(stream_tokens(func)) is None
            },
        },
{
    let vars = match parse_directive(attr) {
        Ok(vars) => vars,
        Err(error) => {
            return Err(error);
        },
    };
    let func_ast = match parse_function(func) {
        Ok(func_ast) => func_ast,
        Err(error) => {
            return Err(RewriteError::MalformedFunction(error));
        },
    };
    Ok(with_validation_impl(vars, func_ast))
}

/// The directive itself: gives the rewritten function in place of the
/// function it stands on, or, where its arguments or the function are
/// malformed, a report to the author in place of any rewriting.
pub fn with_validation(attr: TokenStream, func: TokenStream) -> (stream: TokenStream)
    ensures
        match applied(stream_tokens(attr), stream_tokens(func)) {
            Some(tokens) => stream_tokens(stream) == tokens,
            None => is_error_report(stream_tokens(stream)),
        },
{
    match apply_directive(attr, func) {
        Ok(stream) => stream,
        Err(error) => error.report(),
    }
}

/// Rewriting with an empty list of identifiers leaves the function as it is:
/// the same signature and the same statements in the same order.
pub proof fn lemma_no_identifiers(function: FunctionView)
    ensures
        rewritten(Seq::empty(), function) == function,
{
    assert(guard_blocks(Seq::empty()) + function.body =~= function.body);
}

/// The rewritten body holds one guard block for each identifier of the list,
/// repeated identifiers counted, in front of all the statements that the
/// function had, which keep their order and content; the signature and the
/// inner attributes stay as they were.
pub proof fn lemma_guard_count(names: Seq<Seq<char>>, function: FunctionView)
    ensures
        rewritten(names, function).signature == function.signature,
        rewritten(names, function).inner_attributes == function.inner_attributes,
        rewritten(names, function).body.len() == names.len() + function.body.len(),
        forall|i: int|
            0 <= i < names.len() ==> #[trigger] rewritten(names, function).body[i] == guard_tokens(
                guard_order(names)[i],
            ),
        forall|j: int|
            0 <= j < function.body.len() ==> rewritten(names, function).body[names.len() + j]
                == #[trigger] function.body[j],
{
}

/// The guard at position `i` of the rewritten body validates the identifier
/// at position `i` counted from the end of the list: the identifier given
/// last is validated first.
pub proof fn lemma_guard_position(names: Seq<Seq<char>>, function: FunctionView, i: int)
    requires
        0 <= i < names.len(),
    ensures
        rewritten(names, function).body[i] == guard_tokens(names[names.len() - 1 - i]),
{
}

/// For the identifiers `a` and `b`, in this order, the body begins with the
/// guard of `b`, then holds the guard of `a`, then the function's own
/// statements.
pub proof fn lemma_reversal(a: Seq<char>, b: Seq<char>, function: FunctionView)
    ensures
        rewritten(seq![a, b], function).body == seq![guard_tokens(b), guard_tokens(a)]
            + function.body,
{
    assert(guard_blocks(seq![a, b]) =~= seq![guard_tokens(b), guard_tokens(a)]);
}

/// Rewriting in two steps is rewriting once with both lists, the list of the
/// first step in front: the guards of the second step come to stand in front
/// of those of the first.
pub proof fn lemma_rewrite_in_steps(
    first: Seq<Seq<char>>,
    second: Seq<Seq<char>>,
    function: FunctionView,
)
    ensures
        rewritten(second, rewritten(first, function)) == rewritten(first + second, function),
{
    assert(guard_blocks(second) + (guard_blocks(first) + function.body) =~= guard_blocks(
        first + second,
    ) + function.body);
}

} // verus!
