use fn_args_validator::with_validation_impl;
use proc_macro2::Delimiter;
use proc_macro2::Group;
use proc_macro2::Ident;
use proc_macro2::Punct;
use proc_macro2::Spacing;
use proc_macro2::Span;
use proc_macro2::TokenStream;
use proc_macro2::TokenTree;
use syn::ItemFn;

fn word(text: &str) -> TokenTree {
    TokenTree::Ident(Ident::new(text, Span::call_site()))
}

fn alone(ch: char) -> TokenTree {
    TokenTree::Punct(Punct::new(ch, Spacing::Alone))
}

fn joint(ch: char) -> TokenTree {
    TokenTree::Punct(Punct::new(ch, Spacing::Joint))
}

fn group(delimiter: Delimiter, inner: Vec<TokenTree>) -> TokenTree {
    TokenTree::Group(Group::new(delimiter, inner.into_iter().collect()))
}

/// `fn f(x: i32, y: i32) -> i32 { x + y }`, every token at the call site.
fn sum_function() -> TokenStream {
    let parameters = vec![
        word("x"),
        alone(':'),
        word("i32"),
        alone(','),
        word("y"),
        alone(':'),
        word("i32"),
    ];
    let body = vec![word("x"), alone('+'), word("y")];
    vec![
        word("fn"),
        word("f"),
        group(Delimiter::Parenthesis, parameters),
        joint('-'),
        alone('>'),
        word("i32"),
        group(Delimiter::Brace, body),
    ]
    .into_iter()
    .collect()
}

#[test]
fn with_validation() {
    let vars: Vec<Ident> = vec![
        Ident::new("x", Span::call_site()),
        Ident::new("y", Span::call_site()),
    ];
    let func: TokenStream = sum_function();
    let func_ast = syn::parse2::<ItemFn>(func).unwrap();
    let result = with_validation_impl(vars, func_ast);
    let expected = "\
TokenStream [
    Ident {
        sym: fn,
    },
    Ident {
        sym: f,
    },
    Group {
        delimiter: Parenthesis,
        stream: TokenStream [
            Ident {
                sym: x,
            },
            Punct {
                char: ':',
                spacing: Alone,
            },
            Ident {
                sym: i32,
            },
            Punct {
                char: ',',
                spacing: Alone,
            },
            Ident {
                sym: y,
            },
            Punct {
                char: ':',
                spacing: Alone,
            },
            Ident {
                sym: i32,
            },
        ],
    },
    Punct {
        char: '-',
        spacing: Joint,
    },
    Punct {
        char: '>',
        spacing: Alone,
    },
    Ident {
        sym: i32,
    },
    Group {
        delimiter: Brace,
        stream: TokenStream [
            Group {
                delimiter: Brace,
                stream: TokenStream [
                    Ident {
                        sym: let,
                    },
                    Ident {
                        sym: __result,
                    },
                    Punct {
                        char: '=',
                        spacing: Alone,
                    },
                    Ident {
                        sym: y,
                    },
                    Punct {
                        char: '.',
                        spacing: Alone,
                    },
                    Ident {
                        sym: validate,
                    },
                    Group {
                        delimiter: Parenthesis,
                        stream: TokenStream [],
                    },
                    Punct {
                        char: ';',
                        spacing: Alone,
                    },
                    Ident {
                        sym: if,
                    },
                    Ident {
                        sym: __result,
                    },
                    Punct {
                        char: '.',
                        spacing: Alone,
                    },
                    Ident {
                        sym: is_err,
                    },
                    Group {
                        delimiter: Parenthesis,
                        stream: TokenStream [],
                    },
                    Group {
                        delimiter: Brace,
                        stream: TokenStream [
                            Ident {
                                sym: return,
                            },
                            Ident {
                                sym: Err,
                            },
                            Group {
                                delimiter: Parenthesis,
                                stream: TokenStream [
                                    Ident {
                                        sym: __result,
                                    },
                                    Punct {
                                        char: '.',
                                        spacing: Alone,
                                    },
                                    Ident {
                                        sym: err,
                                    },
                                    Group {
                                        delimiter: Parenthesis,
                                        stream: TokenStream [],
                                    },
                                    Punct {
                                        char: '.',
                                        spacing: Alone,
                                    },
                                    Ident {
                                        sym: unwrap,
                                    },
                                    Group {
                                        delimiter: Parenthesis,
                                        stream: TokenStream [],
                                    },
                                ],
                            },
                            Punct {
                                char: ';',
                                spacing: Alone,
                            },
                        ],
                    },
                ],
            },
            Group {
                delimiter: Brace,
                stream: TokenStream [
                    Ident {
                        sym: let,
                    },
                    Ident {
                        sym: __result,
                    },
                    Punct {
                        char: '=',
                        spacing: Alone,
                    },
                    Ident {
                        sym: x,
                    },
                    Punct {
                        char: '.',
                        spacing: Alone,
                    },
                    Ident {
                        sym: validate,
                    },
                    Group {
                        delimiter: Parenthesis,
                        stream: TokenStream [],
                    },
                    Punct {
                        char: ';',
                        spacing: Alone,
                    },
                    Ident {
                        sym: if,
                    },
                    Ident {
                        sym: __result,
                    },
                    Punct {
                        char: '.',
                        spacing: Alone,
                    },
                    Ident {
                        sym: is_err,
                    },
                    Group {
                        delimiter: Parenthesis,
                        stream: TokenStream [],
                    },
                    Group {
                        delimiter: Brace,
                        stream: TokenStream [
                            Ident {
                                sym: return,
                            },
                            Ident {
                                sym: Err,
                            },
                            Group {
                                delimiter: Parenthesis,
                                stream: TokenStream [
                                    Ident {
                                        sym: __result,
                                    },
                                    Punct {
                                        char: '.',
                                        spacing: Alone,
                                    },
                                    Ident {
                                        sym: err,
                                    },
                                    Group {
                                        delimiter: Parenthesis,
                                        stream: TokenStream [],
                                    },
                                    Punct {
                                        char: '.',
                                        spacing: Alone,
                                    },
                                    Ident {
                                        sym: unwrap,
                                    },
                                    Group {
                                        delimiter: Parenthesis,
                                        stream: TokenStream [],
                                    },
                                ],
                            },
                            Punct {
                                char: ';',
                                spacing: Alone,
                            },
                        ],
                    },
                ],
            },
            Ident {
                sym: x,
            },
            Punct {
                char: '+',
                spacing: Alone,
            },
            Ident {
                sym: y,
            },
        ],
    },
]\
        ";
    let actual = format!("{:#?}", result);
    assert_eq!(expected, actual);
}
