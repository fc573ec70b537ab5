use markup_codegen::builder::Builder;
use markup_codegen::ops::Op;

fn term(source: &str) -> syn::Expr {
    syn::parse_str(source).unwrap()
}

fn write(text: &str) -> Op {
    Op::Write(text.to_string())
}

#[test]
fn a_new_builder_finishes_with_nothing() {
    assert_eq!(Builder::default().finish(), vec![]);
}

#[test]
fn escapes_each_reserved_character() {
    let mut builder = Builder::default();
    builder.str("a&b<c>d\"e");
    assert_eq!(builder.finish(), vec![write("a&amp;b&lt;c&gt;d&quot;e")]);
}

#[test]
fn escapes_every_occurrence_once() {
    let mut builder = Builder::default();
    builder.str("&&amp;<<>>\"\"");
    assert_eq!(builder.finish(), vec![write("&amp;&amp;amp;&lt;&lt;&gt;&gt;&quot;&quot;")]);
}

#[test]
fn leaves_other_characters_alone() {
    let mut builder = Builder::default();
    builder.str("plain 'text' \t\n \u{e9}\u{4e16} / = ;");
    assert_eq!(builder.finish(), vec![write("plain 'text' \t\n \u{e9}\u{4e16} / = ;")]);
}

#[test]
fn raw_text_is_not_escaped() {
    let mut builder = Builder::default();
    builder.raw("<a href=\"x\">&");
    assert_eq!(builder.finish(), vec![write("<a href=\"x\">&")]);
}

#[test]
fn neighbouring_text_becomes_one_write() {
    let mut builder = Builder::default();
    builder.raw("<");
    builder.str("p");
    builder.raw(">");
    builder.str("1 < 2");
    builder.raw("</p>");
    assert_eq!(builder.finish(), vec![write("<p>1 &lt; 2</p>")]);
}

#[test]
fn empty_text_makes_no_write() {
    let mut builder = Builder::default();
    builder.raw("");
    builder.str("");
    builder.extend(vec![Op::Else]);
    builder.raw("");
    assert_eq!(builder.finish(), vec![Op::Else]);
}

#[test]
fn extend_flushes_the_buffer_first() {
    let mut builder = Builder::default();
    builder.raw("a");
    builder.raw("b");
    builder.extend(vec![Op::Render(term("x")), Op::Render(term("y"))]);
    builder.raw("c");
    assert_eq!(
        builder.finish(),
        vec![write("ab"), Op::Render(term("x")), Op::Render(term("y")), write("c")]
    );
}

#[test]
fn extend_with_nothing_only_flushes() {
    let mut builder = Builder::default();
    builder.raw("a");
    builder.extend(vec![]);
    builder.raw("b");
    assert_eq!(builder.finish(), vec![write("a"), write("b")]);
}

#[test]
fn a_string_literal_is_folded_and_escaped() {
    let mut builder = Builder::default();
    builder.raw("[");
    builder.expr(&term("\"a&b\""));
    builder.raw("]");
    assert_eq!(builder.finish(), vec![write("[a&amp;b]")]);
}

#[test]
fn a_string_literal_is_read_by_its_value() {
    let mut builder = Builder::default();
    builder.expr(&term(r#""tab\there \"quoted\" \u{3c}""#));
    builder.expr(&term("r#\"raw \"text\" \\n\"#"));
    assert_eq!(
        builder.finish(),
        vec![write("tab\there &quot;quoted&quot; &lt;raw &quot;text&quot; \\n")]
    );
}

#[test]
fn any_other_term_is_rendered_at_run_time() {
    let mut builder = Builder::default();
    builder.raw("a");
    builder.expr(&term("name"));
    builder.expr(&term("1 + 2"));
    builder.expr(&term("b\"bytes\""));
    builder.expr(&term("(\"text\")"));
    assert_eq!(
        builder.finish(),
        vec![
            write("a"),
            Op::Render(term("name")),
            Op::Render(term("1 + 2")),
            Op::Render(term("b\"bytes\"")),
            Op::Render(term("(\"text\")")),
        ]
    );
}

#[test]
fn paren_appends_a_finished_block() {
    let mut scope = Builder::default();
    scope.raw("in");
    scope.expr(&term("x"));
    scope.raw("side");
    let mut builder = Builder::default();
    builder.extend(vec![Op::If(term("test"))]);
    builder.paren(scope);
    assert_eq!(
        builder.finish(),
        vec![
            Op::If(term("test")),
            Op::Block(vec![write("in"), Op::Render(term("x")), write("side")]),
        ]
    );
}

#[test]
fn paren_leaves_the_buffer_as_it_is() {
    let mut builder = Builder::default();
    builder.raw("pending");
    builder.paren(Builder::default());
    builder.raw(" still");
    assert_eq!(builder.finish(), vec![Op::Block(vec![]), write("pending still")]);
}

#[test]
fn scopes_share_no_buffer() {
    let mut outer = Builder::default();
    outer.raw("a");
    outer.extend(vec![Op::Else]);
    let mut inner = Builder::default();
    inner.raw("b");
    outer.paren(inner);
    outer.raw("c");
    assert_eq!(
        outer.finish(),
        vec![write("a"), Op::Else, Op::Block(vec![write("b")]), write("c")]
    );
}

#[test]
fn a_term_is_folded_by_what_was_read_of_it() {
    let mut builder = Builder::default();
    builder.raw("a");
    builder.folded(Some("<b>".to_string()), &term("ignored"));
    builder.folded(None, &term("\"kept\""));
    builder.folded(Some(String::new()), &term("empty"));
    assert_eq!(
        builder.finish(),
        vec![write("a&lt;b&gt;"), Op::Render(term("\"kept\""))]
    );
}
