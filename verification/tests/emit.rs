use markup_codegen::ast::{Element, IfClause, If, Node, Struct, Text};
use markup_codegen::emit::emit;
use markup_codegen::ops::Op;
use proc_macro2::{Delimiter, Spacing, Span, TokenStream, TokenTree};

fn term(source: &str) -> syn::Expr {
    syn::parse_str(source).unwrap()
}

fn binding(source: &str) -> syn::Pat {
    match term(&format!("|{}| ()", source)) {
        syn::Expr::Closure(mut closure) => closure.inputs.pop().unwrap().into_value(),
        _ => unreachable!(),
    }
}

/// The tokens of a stream, flattened: every token by its text, every group by
/// its delimiters around its tokens. Spacing is left out.
fn flat(stream: TokenStream) -> Vec<String> {
    let mut out = Vec::new();
    for tree in stream {
        match tree {
            TokenTree::Group(group) => {
                let (open, close) = match group.delimiter() {
                    Delimiter::Parenthesis => ("(", ")"),
                    Delimiter::Brace => ("{", "}"),
                    Delimiter::Bracket => ("[", "]"),
                    Delimiter::None => ("", ""),
                };
                out.push(open.to_string());
                out.extend(flat(group.stream()));
                out.push(close.to_string());
            }
            other => out.push(other.to_string()),
        }
    }
    out
}

fn code(source: &str) -> Vec<String> {
    flat(source.parse().unwrap())
}

fn emitted(ops: Vec<Op>) -> Vec<String> {
    flat(emit(&ops, Span::call_site()).into_iter().collect())
}

#[test]
fn no_operations_emit_no_tokens() {
    assert!(emit(&vec![], Span::call_site()).is_empty());
}

#[test]
fn a_write_emits_a_call_of_write_str() {
    assert_eq!(
        emitted(vec![Op::Write("<p>".to_string())]),
        code("__writer.write_str(\"<p>\")?;")
    );
}

#[test]
fn a_written_text_is_quoted_as_a_literal() {
    let text = "say \"hi\"\n\\ \u{e9}";
    let trees = emit(&vec![Op::Write(text.to_string())], Span::call_site());
    assert_eq!(trees.len(), 6);
    let argument = match &trees[3] {
        TokenTree::Group(group) => group.stream(),
        _ => panic!("no argument list"),
    };
    let literal: syn::LitStr = syn::parse2(argument).unwrap();
    assert_eq!(literal.value(), text);
}

#[test]
fn a_render_emits_a_call_of_render() {
    assert_eq!(
        emitted(vec![Op::Render(term("a + b"))]),
        code("markup::Render::render(&(a + b), __writer)?;")
    );
}

#[test]
fn heads_and_blocks_emit_control_flow() {
    assert_eq!(
        emitted(vec![
            Op::If(term("a")),
            Op::Block(vec![Op::Write("A".to_string())]),
            Op::ElseIf(term("b == 1")),
            Op::Block(vec![]),
            Op::Else,
            Op::Block(vec![Op::Render(term("c"))]),
            Op::For(binding("(i, x)"), term("xs.iter().enumerate()")),
            Op::Block(vec![Op::Block(vec![])]),
        ]),
        code(
            "if a { __writer.write_str(\"A\")?; } else if b == 1 { } else { \
             markup::Render::render(&(c), __writer)?; } \
             for (i, x) in xs.iter().enumerate() { { } }"
        )
    );
}

#[test]
fn path_separators_and_arrows_are_joint() {
    let trees = emit(&vec![Op::Render(term("x"))], Span::call_site());
    let spacing: Vec<Option<Spacing>> = trees
        .iter()
        .map(|tree| match tree {
            TokenTree::Punct(punct) => Some(punct.spacing()),
            _ => None,
        })
        .collect();
    assert_eq!(
        spacing,
        vec![
            None,
            Some(Spacing::Joint),
            Some(Spacing::Alone),
            None,
            Some(Spacing::Joint),
            Some(Spacing::Alone),
            None,
            None,
            Some(Spacing::Alone),
            Some(Spacing::Alone),
        ]
    );
}

fn page() -> Struct {
    let mut heading = Element {
        name: "h1".to_string(),
        id: None,
        classes: vec![],
        attributes: vec![],
        children: vec![Node::Text(Text::Expr(term("title")))],
        close: true,
    };
    heading.classes.push(term("\"big\""));
    Struct {
        name: syn::parse_str("Page").unwrap(),
        generics: syn::parse_str("<'a, T: std::fmt::Display = u8>").unwrap(),
        where_clause: Some(syn::parse_str("where T: Clone").unwrap()),
        fields: vec![
            (syn::parse_str("title").unwrap(), syn::parse_str("&'a str").unwrap()),
            (syn::parse_str("body").unwrap(), syn::parse_str("Vec<T>").unwrap()),
        ],
        nodes: vec![
            Node::Element(heading),
            Node::If(If {
                clauses: vec![IfClause {
                    test: term("body.is_empty()"),
                    consequent: vec![Node::Text(Text::String("<empty>".to_string()))],
                }],
                default: None,
            }),
        ],
    }
}

const PAGE: &str = "
    pub struct Page<'a, T: std::fmt::Display = u8> where T: Clone {
        pub title: &'a str,
        pub body: Vec<T>,
    }
    impl<'a, T: std::fmt::Display> markup::Render for Page<'a, T> where T: Clone {
        fn render(&self, __writer: &mut std::fmt::Formatter) -> std::fmt::Result {
            let Page { title, body, } = self;
            __writer.write_str(\"<h1 class=\\\"big\\\">\")?;
            markup::Render::render(&(title), __writer)?;
            __writer.write_str(\"</h1>\")?;
            if body.is_empty() {
                __writer.write_str(\"&lt;empty&gt;\")?;
            }
            Ok(())
        }
    }
    impl<'a, T: std::fmt::Display> std::fmt::Display for Page<'a, T> where T: Clone {
        fn fmt(&self, __writer: &mut std::fmt::Formatter) -> std::fmt::Result {
            markup::Render::render(self, __writer)
        }
    }
";

#[test]
fn a_template_emits_its_type_and_both_impls() {
    let trees = page().trees(Span::call_site());
    assert_eq!(flat(trees.into_iter().collect()), code(PAGE));
}

#[test]
fn a_template_is_added_behind_what_the_stream_holds() {
    let mut tokens: TokenStream = "mod before {}".parse().unwrap();
    page().to_tokens(&mut tokens);
    let mut expected = code("mod before {}");
    expected.extend(code(PAGE));
    assert_eq!(flat(tokens), expected);
}

#[test]
fn a_template_without_fields_or_generics() {
    let bare = Struct {
        name: syn::parse_str("Bare").unwrap(),
        generics: syn::Generics::default(),
        where_clause: None,
        fields: vec![],
        nodes: vec![],
    };
    assert_eq!(
        flat(bare.trees(Span::call_site()).into_iter().collect()),
        code(
            "pub struct Bare {}
             impl markup::Render for Bare {
                 fn render(&self, __writer: &mut std::fmt::Formatter) -> std::fmt::Result {
                     let Bare {} = self;
                     Ok(())
                 }
             }
             impl std::fmt::Display for Bare {
                 fn fmt(&self, __writer: &mut std::fmt::Formatter) -> std::fmt::Result {
                     markup::Render::render(self, __writer)
                 }
             }"
        )
    );
}

#[test]
fn the_emitted_template_parses_as_items() {
    let tokens: TokenStream = page().trees(Span::call_site()).into_iter().collect();
    let file: syn::File = syn::parse2(tokens).unwrap();
    assert_eq!(file.items.len(), 3);
    assert!(matches!(file.items[0], syn::Item::Struct(_)));
    assert!(matches!(file.items[1], syn::Item::Impl(_)));
    assert!(matches!(file.items[2], syn::Item::Impl(_)));
}
