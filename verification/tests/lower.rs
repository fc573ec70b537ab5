use markup_codegen::ast::{Attribute, Element, For, If, IfClause, Node, Text};
use markup_codegen::builder::Builder;
use markup_codegen::lower::generate;
use markup_codegen::ops::Op;

fn expr(source: &str) -> syn::Expr {
    syn::parse_str(source).unwrap()
}

fn pattern(source: &str) -> syn::Pat {
    match expr(&format!("|{}| ()", source)) {
        syn::Expr::Closure(mut closure) => closure.inputs.pop().unwrap().into_value(),
        _ => unreachable!(),
    }
}

fn written(text: &str) -> Op {
    Op::Write(text.to_string())
}

fn literal(text: &str) -> Node {
    Node::Text(Text::String(text.to_string()))
}

fn computed(source: &str) -> Node {
    Node::Text(Text::Expr(expr(source)))
}

fn element(name: &str) -> Element {
    Element {
        name: name.to_string(),
        id: None,
        classes: vec![],
        attributes: vec![],
        children: vec![],
        close: true,
    }
}

fn lower(nodes: Vec<Node>) -> Vec<Op> {
    let mut builder = Builder::default();
    generate(&nodes, &mut builder);
    builder.finish()
}

#[test]
fn no_nodes_lower_to_nothing() {
    assert_eq!(lower(vec![]), vec![]);
}

#[test]
fn an_empty_paired_element_is_one_write() {
    assert_eq!(lower(vec![Node::Element(element("p"))]), vec![written("<p></p>")]);
}

#[test]
fn a_self_closing_element_has_no_end_tag() {
    let mut br = element("br");
    br.close = false;
    assert_eq!(lower(vec![Node::Element(br)]), vec![written("<br>")]);
}

#[test]
fn an_element_generates_by_itself() {
    let mut builder = Builder::default();
    builder.raw("x");
    element("i").generate(&mut builder);
    assert_eq!(builder.finish(), vec![written("x<i></i>")]);
}

#[test]
fn a_literal_term_and_a_literal_text_lower_alike() {
    let by_term = lower(vec![computed("\"a&b\"")]);
    let by_text = lower(vec![literal("a&b")]);
    assert_eq!(by_term, vec![written("a&amp;b")]);
    assert_eq!(by_term, by_text);
}

#[test]
fn a_text_generates_by_its_kind() {
    let mut builder = Builder::default();
    Text::String("<".to_string()).generate(&mut builder);
    Text::Expr(expr("x")).generate(&mut builder);
    Text::Expr(expr("\">\"")).generate(&mut builder);
    assert_eq!(builder.finish(), vec![written("&lt;"), Op::Render(expr("x")), written("&gt;")]);
}

#[test]
fn children_stand_between_the_tags_in_order() {
    let mut list = element("ul");
    let mut first = element("li");
    first.children = vec![literal("one")];
    let mut second = element("li");
    second.children = vec![computed("two"), literal("!")];
    list.children = vec![Node::Element(first), Node::Element(second)];
    assert_eq!(
        lower(vec![literal("<>"), Node::Element(list)]),
        vec![
            written("&lt;&gt;<ul><li>one</li><li>"),
            Op::Render(expr("two")),
            written("!</li></ul>"),
        ]
    );
}

#[test]
fn an_id_is_written_between_quotes() {
    let mut literal_id = element("div");
    literal_id.id = Some(expr("\"main\""));
    assert_eq!(lower(vec![Node::Element(literal_id)]), vec![written("<div id=\"main\"></div>")]);
    let mut computed_id = element("div");
    computed_id.id = Some(expr("self.id"));
    assert_eq!(
        lower(vec![Node::Element(computed_id)]),
        vec![written("<div id=\""), Op::Render(expr("self.id")), written("\"></div>")]
    );
}

#[test]
fn classes_are_joined_by_one_space() {
    let mut one = element("p");
    one.classes = vec![expr("\"a\"")];
    assert_eq!(lower(vec![Node::Element(one)]), vec![written("<p class=\"a\"></p>")]);
    let mut three = element("p");
    three.classes = vec![expr("\"a\""), expr("b"), expr("\"c&d\"")];
    assert_eq!(
        lower(vec![Node::Element(three)]),
        vec![written("<p class=\"a "), Op::Render(expr("b")), written(" c&amp;d\"></p>")]
    );
}

#[test]
fn attributes_keep_their_order() {
    let mut input = element("input");
    input.close = false;
    input.id = Some(expr("\"i\""));
    input.classes = vec![expr("\"c\"")];
    input.attributes = vec![
        Attribute { name: "type".to_string(), value: expr("\"text\""), bool: false },
        Attribute { name: "value".to_string(), value: expr("value"), bool: false },
        Attribute { name: "data-x".to_string(), value: expr("\"<\""), bool: false },
    ];
    assert_eq!(
        lower(vec![Node::Element(input)]),
        vec![
            written("<input id=\"i\" class=\"c\" type=\"text\" value=\""),
            Op::Render(expr("value")),
            written("\" data-x=\"&lt;\">"),
        ]
    );
}

#[test]
fn a_boolean_attribute_is_a_guarded_name() {
    let mut input = element("input");
    input.close = false;
    input.attributes =
        vec![Attribute { name: "checked".to_string(), value: expr("true"), bool: true }];
    assert_eq!(
        lower(vec![Node::Element(input)]),
        vec![
            written("<input"),
            Op::If(expr("true")),
            Op::Block(vec![written(" checked")]),
            written(">"),
        ]
    );
}

#[test]
fn names_are_escaped() {
    let mut odd = element("a<b");
    odd.attributes = vec![
        Attribute { name: "x\"y".to_string(), value: expr("\"v\""), bool: false },
        Attribute { name: "p&q".to_string(), value: expr("on"), bool: true },
    ];
    assert_eq!(
        lower(vec![Node::Element(odd)]),
        vec![
            written("<a&lt;b x&quot;y=\"v\""),
            Op::If(expr("on")),
            Op::Block(vec![written(" p&amp;q")]),
            written("></a&lt;b>"),
        ]
    );
}

#[test]
fn a_chain_lowers_to_if_else_if_else() {
    let chain = If {
        clauses: vec![
            IfClause { test: expr("a"), consequent: vec![literal("A")] },
            IfClause { test: expr("b"), consequent: vec![computed("x"), literal("B")] },
            IfClause { test: expr("c"), consequent: vec![] },
        ],
        default: Some(vec![literal("D")]),
    };
    assert_eq!(
        lower(vec![literal("<"), Node::If(chain), literal(">")]),
        vec![
            written("&lt;"),
            Op::If(expr("a")),
            Op::Block(vec![written("A")]),
            Op::ElseIf(expr("b")),
            Op::Block(vec![Op::Render(expr("x")), written("B")]),
            Op::ElseIf(expr("c")),
            Op::Block(vec![]),
            Op::Else,
            Op::Block(vec![written("D")]),
            written("&gt;"),
        ]
    );
}

#[test]
fn a_chain_without_default_has_no_else() {
    let chain =
        If { clauses: vec![IfClause { test: expr("false"), consequent: vec![literal("A")] }], default: None };
    let mut builder = Builder::default();
    chain.generate(&mut builder);
    assert_eq!(builder.finish(), vec![Op::If(expr("false")), Op::Block(vec![written("A")])]);
}

#[test]
fn a_loop_lowers_to_its_head_and_block() {
    let each = For {
        pat: pattern("(i, item)"),
        expr: expr("items.iter().enumerate()"),
        body: vec![Node::Element(element("li")), computed("item")],
    };
    let mut builder = Builder::default();
    builder.raw("a");
    each.generate(&mut builder);
    builder.raw("b");
    assert_eq!(
        builder.finish(),
        vec![
            written("a"),
            Op::For(pattern("(i, item)"), expr("items.iter().enumerate()")),
            Op::Block(vec![written("<li></li>"), Op::Render(expr("item"))]),
            written("b"),
        ]
    );
}

#[test]
fn text_is_not_gathered_across_a_block() {
    let inner = If {
        clauses: vec![IfClause { test: expr("deep"), consequent: vec![literal("x"), literal("y")] }],
        default: None,
    };
    let each = For {
        pat: pattern("_"),
        expr: expr("0..3"),
        body: vec![literal("a"), Node::If(inner), literal("b"), literal("c")],
    };
    assert_eq!(
        lower(vec![literal("1"), literal("2"), Node::For(each), literal("3")]),
        vec![
            written("12"),
            Op::For(pattern("_"), expr("0..3")),
            Op::Block(vec![
                written("a"),
                Op::If(expr("deep")),
                Op::Block(vec![written("xy")]),
                written("bc"),
            ]),
            written("3"),
        ]
    );
}

#[test]
fn one_write_for_each_run_of_static_text() {
    let mut p = element("p");
    p.children = vec![literal("a"), computed("x"), computed("y"), literal(""), computed("z"), literal("b")];
    let ops = lower(vec![Node::Element(p)]);
    assert_eq!(
        ops,
        vec![
            written("<p>a"),
            Op::Render(expr("x")),
            Op::Render(expr("y")),
            Op::Render(expr("z")),
            written("b</p>"),
        ]
    );
    let writes = ops.iter().filter(|op| matches!(op, Op::Write(_))).count();
    assert_eq!(writes, 2);
    assert_eq!(ops.len(), 2 + 3);
}

#[test]
fn a_node_generates_by_its_kind() {
    let mut builder = Builder::default();
    literal("t").generate(&mut builder);
    Node::Element(element("e")).generate(&mut builder);
    Node::If(If { clauses: vec![IfClause { test: expr("c"), consequent: vec![] }], default: None })
        .generate(&mut builder);
    Node::For(For { pat: pattern("x"), expr: expr("xs"), body: vec![] }).generate(&mut builder);
    assert_eq!(
        builder.finish(),
        vec![
            written("t<e></e>"),
            Op::If(expr("c")),
            Op::Block(vec![]),
            Op::For(pattern("x"), expr("xs")),
            Op::Block(vec![]),
        ]
    );
}
