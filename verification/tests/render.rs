use markup_codegen::ast::{Attribute, Element, For, If, IfClause, Node, Text};
use markup_codegen::builder::Builder;
use markup_codegen::lower::generate;
use markup_codegen::ops::Op;

fn term(source: &str) -> syn::Expr {
    syn::parse_str(source).unwrap()
}

fn any() -> syn::Pat {
    match term("|_| ()") {
        syn::Expr::Closure(mut closure) => closure.inputs.pop().unwrap().into_value(),
        _ => unreachable!(),
    }
}

fn text(text: &str) -> Node {
    Node::Text(Text::String(text.to_string()))
}

fn holds(test: &syn::Expr) -> bool {
    if *test == term("true") {
        true
    } else if *test == term("false") {
        false
    } else {
        panic!("a test that is neither true nor false")
    }
}

fn rounds(items: &syn::Expr) -> usize {
    match items {
        syn::Expr::Array(array) => array.elems.len(),
        _ => panic!("items that are no array"),
    }
}

/// Runs operations as the emitted code would run, with tests that are `true`
/// or `false` and loops over arrays, and records every write to the sink.
fn run(ops: &[Op], sink: &mut Vec<String>) {
    let mut taken = false;
    let mut i = 0;
    while i < ops.len() {
        let body: &[Op] = match ops.get(i + 1) {
            Some(Op::Block(body)) => body,
            _ => &[],
        };
        match &ops[i] {
            Op::Write(text) => sink.push(text.clone()),
            Op::Render(term) => sink.push(format!("{{{}}}", quote::ToTokens::to_token_stream(term))),
            Op::If(test) => {
                taken = holds(test);
                if taken {
                    run(body, sink);
                }
                i += 1;
            }
            Op::ElseIf(test) => {
                if !taken && holds(test) {
                    taken = true;
                    run(body, sink);
                }
                i += 1;
            }
            Op::Else => {
                if !taken {
                    run(body, sink);
                }
                i += 1;
            }
            Op::For(_, items) => {
                for _ in 0..rounds(items) {
                    run(body, sink);
                }
                i += 1;
            }
            Op::Block(body) => run(body, sink),
        }
        i += 1;
    }
}

fn writes(nodes: Vec<Node>) -> Vec<String> {
    let mut builder = Builder::default();
    generate(&nodes, &mut builder);
    let mut sink = Vec::new();
    run(&builder.finish(), &mut sink);
    sink
}

fn rendered(nodes: Vec<Node>) -> String {
    writes(nodes).concat()
}

fn chain(tests: &[&str], default: Option<&str>) -> Node {
    let names = ["A", "B", "C"];
    Node::If(If {
        clauses: tests
            .iter()
            .zip(names)
            .map(|(test, name)| IfClause { test: term(test), consequent: vec![text(name)] })
            .collect(),
        default: default.map(|name| vec![text(name)]),
    })
}

#[test]
fn a_true_first_clause_wins_over_the_default() {
    assert_eq!(rendered(vec![chain(&["true"], Some("B"))]), "A");
}

#[test]
fn a_false_clause_without_default_renders_nothing() {
    assert_eq!(rendered(vec![chain(&["false"], None)]), "");
    assert_eq!(writes(vec![chain(&["false"], None)]).len(), 0);
}

#[test]
fn exactly_one_branch_of_a_chain_runs() {
    assert_eq!(rendered(vec![chain(&["true", "true", "true"], Some("D"))]), "A");
    assert_eq!(rendered(vec![chain(&["false", "true", "true"], Some("D"))]), "B");
    assert_eq!(rendered(vec![chain(&["false", "false", "true"], Some("D"))]), "C");
    assert_eq!(rendered(vec![chain(&["false", "false", "false"], Some("D"))]), "D");
    assert_eq!(rendered(vec![chain(&["false", "false", "false"], None)]), "");
    assert_eq!(rendered(vec![chain(&["false"], Some("B"))]), "B");
}

#[test]
fn two_chains_in_a_row_are_decided_apart() {
    assert_eq!(
        rendered(vec![chain(&["true"], None), chain(&["false", "true"], Some("D"))]),
        "AB"
    );
}

fn checkbox(value: &str) -> Node {
    Node::Element(Element {
        name: "input".to_string(),
        id: None,
        classes: vec![],
        attributes: vec![Attribute { name: "checked".to_string(), value: term(value), bool: true }],
        children: vec![],
        close: false,
    })
}

#[test]
fn a_boolean_attribute_that_holds_is_its_name_behind_one_space() {
    assert_eq!(rendered(vec![checkbox("true")]), "<input checked>");
}

#[test]
fn a_boolean_attribute_that_fails_leaves_no_trace() {
    assert_eq!(rendered(vec![checkbox("false")]), "<input>");
}

fn each(items: &str) -> Node {
    Node::For(For { pat: any(), expr: term(items), body: vec![text("<li>"), text("x")] })
}

#[test]
fn a_loop_over_nothing_renders_as_if_it_were_not_there() {
    assert_eq!(
        rendered(vec![text("a"), each("[]"), text("b")]),
        rendered(vec![text("a"), text("b")])
    );
    assert_eq!(rendered(vec![each("[]")]), "");
    assert_eq!(writes(vec![each("[]")]).len(), 0);
}

#[test]
fn a_loop_renders_its_body_once_for_each_item() {
    assert_eq!(rendered(vec![text("a"), each("[1, 2, 3]"), text("b")]), "a&lt;li&gt;x&lt;li&gt;x&lt;li&gt;xb");
}

#[test]
fn each_run_of_static_text_is_one_write_to_the_sink() {
    let nodes = vec![
        text("a"),
        text("b"),
        Node::Text(Text::Expr(term("x"))),
        text("c"),
        chain(&["true"], None),
        text("d"),
        text("e"),
    ];
    assert_eq!(writes(nodes), vec!["ab", "{x}", "c", "A", "de"]);
}
