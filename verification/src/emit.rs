//! The code that a render body and its template come to, token by token.
use crate::ast::Struct;
use crate::builder::Builder;
use crate::lower::{generate, lowered};
use crate::ops::{views, Op, OpView};
use crate::tokens::{
    expr_tokens, expr_trees, extend, extended, generics_tokens, generics_trees, group, group_tree,
    impl_generics_tokens, impl_generics_trees, is_word, name_tokens, name_trees, pat_tokens,
    pat_trees, punct, punct_tree, string, string_tree, type_generics_tokens, type_generics_trees,
    type_tokens, type_trees, where_tokens, where_trees, word, word_tree,
};
use proc_macro2::{Delimiter, Spacing, Span, TokenStream, TokenTree};
use vstd::prelude::*;

verus! {

/// A punctuation character that stands alone.
pub open spec fn alone(ch: char, site: Span) -> TokenTree {
    punct_tree(ch, Spacing::Alone, site)
}

/// The path separator `::`.
pub open spec fn colons(site: Span) -> Seq<TokenTree> {
    seq![punct_tree(':', Spacing::Joint, site), alone(':', site)]
}

/// The path `first::second::third`.
pub open spec fn path_tokens(
    first: Seq<char>,
    second: Seq<char>,
    third: Seq<char>,
    site: Span,
) -> Seq<TokenTree> {
    seq![word_tree(first, site)] + colons(site) + seq![word_tree(second, site)] + colons(site)
        + seq![word_tree(third, site)]
}

/// `__writer.write_str("text")?;`
pub open spec fn write_tokens(text: Seq<char>, site: Span) -> Seq<TokenTree> {
    seq![
        word_tree("__writer"@, site),
        alone('.', site),
        word_tree("write_str"@, site),
        group_tree(Delimiter::Parenthesis, seq![string_tree(text, site)], site),
        alone('?', site),
        alone(';', site),
    ]
}

/// The arguments of a call that renders a term: `&(term), __writer`.
pub open spec fn render_arguments(term: syn::Expr, site: Span) -> Seq<TokenTree> {
    seq![
        alone('&', site),
        group_tree(Delimiter::Parenthesis, expr_tokens(term), site),
        alone(',', site),
        word_tree("__writer"@, site),
    ]
}

/// `markup::Render::render(&(term), __writer)?;`
pub open spec fn render_tokens(term: syn::Expr, site: Span) -> Seq<TokenTree> {
    path_tokens("markup"@, "Render"@, "render"@, site) + seq![
        group_tree(Delimiter::Parenthesis, render_arguments(term, site), site),
        alone('?', site),
        alone(';', site),
    ]
}

/// The tokens of one operation.
pub open spec fn op_tokens(op: OpView, site: Span) -> Seq<TokenTree>
    decreases op,
{
    match op {
        OpView::Write(text) => write_tokens(text, site),
        OpView::Render(term) => render_tokens(term, site),
        OpView::If(test) => seq![word_tree("if"@, site)] + expr_tokens(test),
        OpView::ElseIf(test) => seq![word_tree("else"@, site), word_tree("if"@, site)]
            + expr_tokens(test),
        OpView::Else => seq![word_tree("else"@, site)],
        OpView::For(pattern, items) => seq![word_tree("for"@, site)] + pat_tokens(pattern) + seq![
            word_tree("in"@, site),
        ] + expr_tokens(items),
        OpView::Block(ops) => seq![
            group_tree(Delimiter::Brace, ops_tokens(ops, site), site),
        ],
    }
}

/// The tokens of a sequence of operations: those of each, in order.
pub open spec fn ops_tokens(ops: Seq<OpView>, site: Span) -> Seq<TokenTree>
    decreases ops,
{
    if ops.len() == 0 {
        Seq::empty()
    } else {
        ops_tokens(ops.drop_last(), site) + op_tokens(ops.last(), site)
    }
}

/// The words that emitted code is spelled with are words.
proof fn lemma_words()
    ensures
        is_word("__writer"@),
        is_word("write_str"@),
        is_word("markup"@),
        is_word("Render"@),
        is_word("render"@),
        is_word("if"@),
        is_word("else"@),
        is_word("for"@),
        is_word("in"@),
        is_word("pub"@),
        is_word("struct"@),
        is_word("impl"@),
        is_word("fn"@),
        is_word("self"@),
        is_word("mut"@),
        is_word("let"@),
        is_word("std"@),
        is_word("fmt"@),
        is_word("Formatter"@),
        is_word("Result"@),
        is_word("Display"@),
        is_word("Ok"@),
{
    reveal_strlit("pub");
    reveal_strlit("struct");
    reveal_strlit("impl");
    reveal_strlit("fn");
    reveal_strlit("self");
    reveal_strlit("mut");
    reveal_strlit("let");
    reveal_strlit("std");
    reveal_strlit("fmt");
    reveal_strlit("Formatter");
    reveal_strlit("Result");
    reveal_strlit("Display");
    reveal_strlit("Ok");
    reveal_strlit("__writer");
    reveal_strlit("write_str");
    reveal_strlit("markup");
    reveal_strlit("Render");
    reveal_strlit("render");
    reveal_strlit("if");
    reveal_strlit("else");
    reveal_strlit("for");
    reveal_strlit("in");
}

/// Appends `::`.
fn push_colons(out: &mut Vec<TokenTree>, site: Span)
    ensures
        final(out)@ == old(out)@ + colons(site),
{
    out.push(punct(':', Spacing::Joint, site));
    out.push(punct(':', Spacing::Alone, site));
    assert(out@ =~= old(out)@ + colons(site));
}

/// Appends the path `first::second::third`.
fn push_path(out: &mut Vec<TokenTree>, first: &str, second: &str, third: &str, site: Span)
    requires
        is_word(first@),
        is_word(second@),
        is_word(third@),
    ensures
        final(out)@ == old(out)@ + path_tokens(first@, second@, third@, site),
{
    out.push(word(first, site));
    push_colons(out, site);
    out.push(word(second, site));
    push_colons(out, site);
    out.push(word(third, site));
    assert(out@ =~= old(out)@ + path_tokens(first@, second@, third@, site));
}

impl Op {
    /// Appends the tokens of the operation to `out`, all of them at `site`
    /// but for those of the terms it carries.
    pub fn emit(&self, site: Span, out: &mut Vec<TokenTree>)
        ensures
            final(out)@ == old(out)@ + op_tokens(self@, site),
        decreases self, 0nat,
    {
        proof {
            lemma_words();
        }
        match self {
            Op::Write(text) => {
                out.push(word("__writer", site));
                out.push(punct('.', Spacing::Alone, site));
                out.push(word("write_str", site));
                let mut argument = Vec::new();
                argument.push(string(text.as_str(), site));
                assert(argument@ =~= seq![string_tree(text@, site)]);
                out.push(group(Delimiter::Parenthesis, argument, site));
                out.push(punct('?', Spacing::Alone, site));
                out.push(punct(';', Spacing::Alone, site));
                assert(out@ =~= old(out)@ + write_tokens(text@, site));
            },
            Op::Render(term) => {
                push_path(out, "markup", "Render", "render", site);
                let mut arguments = Vec::new();
                arguments.push(punct('&', Spacing::Alone, site));
                arguments.push(group(Delimiter::Parenthesis, expr_trees(term), site));
                arguments.push(punct(',', Spacing::Alone, site));
                arguments.push(word("__writer", site));
                assert(arguments@ =~= render_arguments(*term, site));
                out.push(group(Delimiter::Parenthesis, arguments, site));
                out.push(punct('?', Spacing::Alone, site));
                out.push(punct(';', Spacing::Alone, site));
                assert(out@ =~= old(out)@ + render_tokens(*term, site));
            },
            Op::If(test) => {
                out.push(word("if", site));
                let mut trees = expr_trees(test);
                out.append(&mut trees);
                assert(out@ =~= old(out)@ + op_tokens(self@, site));
            },
            Op::ElseIf(test) => {
                out.push(word("else", site));
                out.push(word("if", site));
                let mut trees = expr_trees(test);
                out.append(&mut trees);
                assert(out@ =~= old(out)@ + op_tokens(self@, site));
            },
            Op::Else => {
                out.push(word("else", site));
                assert(out@ =~= old(out)@ + op_tokens(self@, site));
            },
            Op::For(pattern, items) => {
                out.push(word("for", site));
                let mut trees = pat_trees(pattern);
                out.append(&mut trees);
                out.push(word("in", site));
                let mut trees = expr_trees(items);
                out.append(&mut trees);
                assert(out@ =~= old(out)@ + op_tokens(self@, site));
            },
            Op::Block(ops) => {
                let inner = emit(ops, site);
                proof {
                    crate::builder::lemma_block_view(*ops);
                }
                out.push(group(Delimiter::Brace, inner, site));
                assert(out@ =~= old(out)@ + op_tokens(self@, site));
            },
        }
    }
}

/// The tokens of a sequence of operations, all of them at `site` but for those
/// of the terms that the operations carry.
pub fn emit(ops: &Vec<Op>, site: Span) -> (trees: Vec<TokenTree>)
    ensures
        trees@ == ops_tokens(views(ops@), site),
    decreases ops, 1nat,
{
    let mut trees = Vec::new();
    let mut i: usize = 0;
    assert(views(ops@.take(0)) =~= Seq::<OpView>::empty());
    while i < ops.len()
        invariant
            i <= ops.len(),
            trees@ == ops_tokens(views(ops@.take(i as int)), site),
        decreases ops.len() - i,
    {
        ops[i].emit(site, &mut trees);
        proof {
            let next = views(ops@.take(i + 1));
            assert(next.drop_last() =~= views(ops@.take(i as int)));
            assert(next.last() == ops@[i as int]@);
        }
        i += 1;
    }
    assert(ops@.take(ops.len() as int) == ops@);
    trees
}

/// The fields of the data declaration: `pub name: ty,` for each.
pub open spec fn declared_fields(fields: Seq<(syn::Ident, syn::Type)>, site: Span) -> Seq<
    TokenTree,
>
    decreases fields.len(),
{
    if fields.len() == 0 {
        Seq::empty()
    } else {
        declared_fields(fields.drop_last(), site) + seq![word_tree("pub"@, site)] + name_tokens(
            fields.last().0,
        ) + seq![alone(':', site)] + type_tokens(fields.last().1) + seq![alone(',', site)]
    }
}

/// The fields as a render body binds them: `name,` for each.
pub open spec fn bound_fields(fields: Seq<(syn::Ident, syn::Type)>, site: Span) -> Seq<TokenTree>
    decreases fields.len(),
{
    if fields.len() == 0 {
        Seq::empty()
    } else {
        bound_fields(fields.drop_last(), site) + name_tokens(fields.last().0) + seq![
            alone(',', site),
        ]
    }
}

/// The `where` clause of a template, if it has one.
pub open spec fn where_part(clause: Option<syn::WhereClause>) -> Seq<TokenTree> {
    match clause {
        Some(clause) => where_tokens(clause),
        None => Seq::empty(),
    }
}

/// The data declaration: `pub struct Name<..> where .. { fields }`.
pub open spec fn declaration_tokens(template: Struct, site: Span) -> Seq<TokenTree> {
    seq![word_tree("pub"@, site), word_tree("struct"@, site)] + name_tokens(template.name)
        + generics_tokens(template.generics) + where_part(template.where_clause) + seq![
        group_tree(Delimiter::Brace, declared_fields(template.fields@, site), site),
    ]
}

/// The head of an impl of a trait for the template:
/// `impl<..> Trait for Name<..> where ..`.
pub open spec fn impl_head(template: Struct, the_trait: Seq<TokenTree>, site: Span) -> Seq<
    TokenTree,
> {
    seq![word_tree("impl"@, site)] + impl_generics_tokens(template.generics) + the_trait + seq![
        word_tree("for"@, site),
    ] + name_tokens(template.name) + type_generics_tokens(template.generics) + where_part(
        template.where_clause,
    )
}

/// The parameters of a method that writes: `&self, __writer: &mut
/// std::fmt::Formatter`.
pub open spec fn parameters(site: Span) -> Seq<TokenTree> {
    seq![
        alone('&', site),
        word_tree("self"@, site),
        alone(',', site),
        word_tree("__writer"@, site),
        alone(':', site),
        alone('&', site),
        word_tree("mut"@, site),
    ] + path_tokens("std"@, "fmt"@, "Formatter"@, site)
}

/// A method that writes:
/// `fn name(&self, __writer: &mut std::fmt::Formatter) -> std::fmt::Result { body }`.
pub open spec fn method_tokens(name: Seq<char>, body: Seq<TokenTree>, site: Span) -> Seq<
    TokenTree,
> {
    seq![
        word_tree("fn"@, site),
        word_tree(name, site),
        group_tree(Delimiter::Parenthesis, parameters(site), site),
        punct_tree('-', Spacing::Joint, site),
        alone('>', site),
    ] + path_tokens("std"@, "fmt"@, "Result"@, site) + seq![
        group_tree(Delimiter::Brace, body, site),
    ]
}

/// The body of `render`: it binds the fields, runs the operations that the
/// nodes lower to, in order, and ends in success:
/// `let Name { fields } = self; operations Ok(())`.
pub open spec fn render_body(template: Struct, site: Span) -> Seq<TokenTree> {
    seq![word_tree("let"@, site)] + name_tokens(template.name) + seq![
        group_tree(Delimiter::Brace, bound_fields(template.fields@, site), site),
        alone('=', site),
        word_tree("self"@, site),
        alone(';', site),
    ] + ops_tokens(lowered(template.nodes@), site) + seq![
        word_tree("Ok"@, site),
        group_tree(
            Delimiter::Parenthesis,
            seq![group_tree(Delimiter::Parenthesis, Seq::empty(), site)],
            site,
        ),
    ]
}

/// The body of `fmt`, which hands over to `render`:
/// `markup::Render::render(self, __writer)`.
pub open spec fn display_body(site: Span) -> Seq<TokenTree> {
    path_tokens("markup"@, "Render"@, "render"@, site) + seq![
        group_tree(
            Delimiter::Parenthesis,
            seq![word_tree("self"@, site), alone(',', site), word_tree("__writer"@, site)],
            site,
        ),
    ]
}

/// The trait `markup::Render`.
pub open spec fn render_trait(site: Span) -> Seq<TokenTree> {
    seq![word_tree("markup"@, site)] + colons(site) + seq![word_tree("Render"@, site)]
}

/// The whole of what a template comes to: its data declaration, its impl of
/// `markup::Render`, whose `render` runs the operations, and its impl of
/// `std::fmt::Display`, whose `fmt` hands over to `render`.
pub open spec fn template_tokens(template: Struct, site: Span) -> Seq<TokenTree> {
    declaration_tokens(template, site) + impl_head(template, render_trait(site), site) + seq![
        group_tree(
            Delimiter::Brace,
            method_tokens("render"@, render_body(template, site), site),
            site,
        ),
    ] + impl_head(template, path_tokens("std"@, "fmt"@, "Display"@, site), site) + seq![
        group_tree(Delimiter::Brace, method_tokens("fmt"@, display_body(site), site), site),
    ]
}

/// Appends the tokens of the `where` clause, if there is one.
fn push_where(out: &mut Vec<TokenTree>, clause: &Option<syn::WhereClause>)
    ensures
        final(out)@ == old(out)@ + where_part(*clause),
{
    match clause {
        Some(clause) => {
            let mut trees = where_trees(clause);
            out.append(&mut trees);
        },
        None => {
            assert(out@ =~= old(out)@ + where_part(*clause));
        },
    }
}

/// A method that writes, with the given name and body.
fn method(name: &str, body: Vec<TokenTree>, site: Span) -> (trees: Vec<TokenTree>)
    requires
        is_word(name@),
    ensures
        trees@ == method_tokens(name@, body@, site),
{
    proof {
        lemma_words();
    }
    let mut inputs = Vec::new();
    inputs.push(punct('&', Spacing::Alone, site));
    inputs.push(word("self", site));
    inputs.push(punct(',', Spacing::Alone, site));
    inputs.push(word("__writer", site));
    inputs.push(punct(':', Spacing::Alone, site));
    inputs.push(punct('&', Spacing::Alone, site));
    inputs.push(word("mut", site));
    push_path(&mut inputs, "std", "fmt", "Formatter", site);
    assert(inputs@ =~= parameters(site));
    let mut trees = Vec::new();
    trees.push(word("fn", site));
    trees.push(word(name, site));
    trees.push(group(Delimiter::Parenthesis, inputs, site));
    trees.push(punct('-', Spacing::Joint, site));
    trees.push(punct('>', Spacing::Alone, site));
    push_path(&mut trees, "std", "fmt", "Result", site);
    trees.push(group(Delimiter::Brace, body, site));
    assert(trees@ =~= method_tokens(name@, body@, site));
    trees
}

impl Struct {
    /// Appends the head of an impl of `the_trait` for the template.
    fn push_impl_head(&self, out: &mut Vec<TokenTree>, the_trait: Vec<TokenTree>, site: Span)
        ensures
            final(out)@ == old(out)@ + impl_head(*self, the_trait@, site),
    {
        proof {
            lemma_words();
        }
        let mut the_trait = the_trait;
        let ghost path = the_trait@;
        out.push(word("impl", site));
        let mut trees = impl_generics_trees(&self.generics);
        out.append(&mut trees);
        out.append(&mut the_trait);
        out.push(word("for", site));
        let mut trees = name_trees(&self.name);
        out.append(&mut trees);
        let mut trees = type_generics_trees(&self.generics);
        out.append(&mut trees);
        push_where(out, &self.where_clause);
        assert(out@ =~= old(out)@ + impl_head(*self, path, site));
    }

    /// The fields as they are declared and as a render body binds them.
    fn fields_trees(&self, site: Span) -> (trees: (Vec<TokenTree>, Vec<TokenTree>))
        ensures
            trees.0@ == declared_fields(self.fields@, site),
            trees.1@ == bound_fields(self.fields@, site),
    {
        proof {
            lemma_words();
        }
        let mut struct_fields = Vec::new();
        let mut splat_fields = Vec::new();
        let mut i: usize = 0;
        assert(self.fields@.take(0) == Seq::<(syn::Ident, syn::Type)>::empty());
        while i < self.fields.len()
            invariant
                i <= self.fields.len(),
                is_word("pub"@),
                struct_fields@ == declared_fields(self.fields@.take(i as int), site),
                splat_fields@ == bound_fields(self.fields@.take(i as int), site),
            decreases self.fields.len() - i,
        {
            let field = &self.fields[i];
            proof {
                let next = self.fields@.take(i + 1);
                assert(next.drop_last() == self.fields@.take(i as int));
                assert(next.last() == *field);
            }
            struct_fields.push(word("pub", site));
            let mut trees = name_trees(&field.0);
            struct_fields.append(&mut trees);
            struct_fields.push(punct(':', Spacing::Alone, site));
            let mut trees = type_trees(&field.1);
            struct_fields.append(&mut trees);
            struct_fields.push(punct(',', Spacing::Alone, site));
            let mut trees = name_trees(&field.0);
            splat_fields.append(&mut trees);
            splat_fields.push(punct(',', Spacing::Alone, site));
            i += 1;
        }
        assert(self.fields@.take(self.fields.len() as int) == self.fields@);
        (struct_fields, splat_fields)
    }

    /// The code of the template: its nodes are lowered, and the operations
    /// stand in the `render` of the type that is declared with the fields. All
    /// tokens are at `site` but for those of the terms, names and types that the
    /// template carries.
    pub fn trees(&self, site: Span) -> (trees: Vec<TokenTree>)
        ensures
            trees@ == template_tokens(*self, site),
    {
        proof {
            lemma_words();
        }
        let mut builder = Builder::default();
        generate(&self.nodes, &mut builder);
        let built = builder.finish();
        let (struct_fields, splat_fields) = self.fields_trees(site);

        let mut out = Vec::new();
        out.push(word("pub", site));
        out.push(word("struct", site));
        let mut trees = name_trees(&self.name);
        out.append(&mut trees);
        let mut trees = generics_trees(&self.generics);
        out.append(&mut trees);
        push_where(&mut out, &self.where_clause);
        out.push(group(Delimiter::Brace, struct_fields, site));
        assert(out@ =~= declaration_tokens(*self, site));

        let mut body = Vec::new();
        body.push(word("let", site));
        let mut trees = name_trees(&self.name);
        body.append(&mut trees);
        body.push(group(Delimiter::Brace, splat_fields, site));
        body.push(punct('=', Spacing::Alone, site));
        body.push(word("self", site));
        body.push(punct(';', Spacing::Alone, site));
        let mut trees = emit(&built, site);
        body.append(&mut trees);
        body.push(word("Ok", site));
        let mut unit = Vec::new();
        unit.push(group(Delimiter::Parenthesis, Vec::new(), site));
        assert(unit@ =~= seq![group_tree(Delimiter::Parenthesis, Seq::empty(), site)]);
        body.push(group(Delimiter::Parenthesis, unit, site));
        assert(body@ =~= render_body(*self, site));

        let mut the_trait = Vec::new();
        the_trait.push(word("markup", site));
        push_colons(&mut the_trait, site);
        the_trait.push(word("Render", site));
        assert(the_trait@ =~= render_trait(site));
        self.push_impl_head(&mut out, the_trait, site);
        out.push(group(Delimiter::Brace, method("render", body, site), site));

        let mut body = Vec::new();
        push_path(&mut body, "markup", "Render", "render", site);
        let mut arguments = Vec::new();
        arguments.push(word("self", site));
        arguments.push(punct(',', Spacing::Alone, site));
        arguments.push(word("__writer", site));
        assert(arguments@ =~= seq![
            word_tree("self"@, site),
            alone(',', site),
            word_tree("__writer"@, site),
        ]);
        body.push(group(Delimiter::Parenthesis, arguments, site));
        assert(body@ =~= display_body(site));

        let mut the_trait = Vec::new();
        push_path(&mut the_trait, "std", "fmt", "Display", site);
        assert(the_trait@ =~= path_tokens("std"@, "fmt"@, "Display"@, site));
        self.push_impl_head(&mut out, the_trait, site);
        out.push(group(Delimiter::Brace, method("fmt", body, site), site));
        assert(out@ =~= template_tokens(*self, site));
        out
    }

    /// Adds the code of the template to `tokens`, with the call site as the
    /// place of every token that the template does not carry itself.
    pub fn to_tokens(&self, tokens: &mut TokenStream)
        ensures
            exists|site: Span|
                *final(tokens) == extended(*old(tokens), #[trigger] template_tokens(*self, site)),
    {
        let site = Span::call_site();
        let trees = self.trees(site);
        extend(tokens, trees);
    }
}

} // verus!
