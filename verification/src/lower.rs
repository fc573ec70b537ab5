//! The walk that lowers a template tree, node by node and in declaration
//! order, into a builder.
use crate::ast::{Attribute, Element, For, If, IfClause, Node, Text};
use crate::builder::{Builder, Pending};
use crate::escape::escaped;
use crate::gather::{
    clean, deep_tight, dynamic, gathered, lemma_clean_concat, lemma_gathered_clean,
    lemma_gathered_runs, lemma_with_pieces_concat, lemma_with_pieces_push, operations, runs,
    written, Piece,
};
use crate::ops::{views, Op, OpView};
use crate::terms::literal_text;
use vstd::prelude::*;

verus! {

/// A term in text position: a plain string literal is static text, escaped;
/// any other term is rendered at run time.
pub open spec fn term_piece(term: syn::Expr) -> Piece {
    match literal_text(term) {
        Some(text) => Piece::Text(escaped(text)),
        None => Piece::Op(OpView::Render(term)),
    }
}

/// The class terms of an element, with one space between neighbours.
pub open spec fn classes_pieces(classes: Seq<syn::Expr>) -> Seq<Piece>
    decreases classes.len(),
{
    if classes.len() == 0 {
        Seq::empty()
    } else if classes.len() == 1 {
        seq![term_piece(classes[0])]
    } else {
        classes_pieces(classes.drop_last()) + seq![Piece::Text(" "@), term_piece(classes.last())]
    }
}

/// An attribute. A boolean one is a test of its value around a block that
/// writes one space and the name; any other is a space, the name, and the value
/// between double quotes.
pub open spec fn attribute_pieces(attribute: Attribute) -> Seq<Piece> {
    if attribute.bool {
        seq![
            Piece::Op(OpView::If(attribute.value)),
            Piece::Op(OpView::Block(seq![OpView::Write(" "@ + escaped(attribute.name@))])),
        ]
    } else {
        seq![
            Piece::Text(" "@),
            Piece::Text(escaped(attribute.name@)),
            Piece::Text("=\""@),
            term_piece(attribute.value),
            Piece::Text("\""@),
        ]
    }
}

/// The attributes of an element, in declaration order.
pub open spec fn attributes_pieces(attributes: Seq<Attribute>) -> Seq<Piece>
    decreases attributes.len(),
{
    if attributes.len() == 0 {
        Seq::empty()
    } else {
        attributes_pieces(attributes.drop_last()) + attribute_pieces(attributes.last())
    }
}

/// The start tag of an element up to and including its `>`.
pub open spec fn start_tag_pieces(element: Element) -> Seq<Piece> {
    seq![Piece::Text("<"@), Piece::Text(escaped(element.name@))] + (match element.id {
        Some(id) => seq![Piece::Text(" id=\""@), term_piece(id), Piece::Text("\""@)],
        None => Seq::empty(),
    }) + (if element.classes@.len() == 0 {
        Seq::empty()
    } else {
        seq![Piece::Text(" class=\""@)] + classes_pieces(element.classes@) + seq![
            Piece::Text("\""@),
        ]
    }) + attributes_pieces(element.attributes@) + seq![Piece::Text(">"@)]
}

/// The end tag of an element, if it has one.
pub open spec fn end_tag_pieces(element: Element) -> Seq<Piece> {
    if element.close {
        seq![Piece::Text("</"@), Piece::Text(escaped(element.name@)), Piece::Text(">"@)]
    } else {
        Seq::empty()
    }
}

/// A sequence of nodes lowers to the pieces of its nodes, in order.
pub open spec fn nodes_pieces(nodes: Seq<Node>) -> Seq<Piece>
    decreases nodes, 0nat,
{
    if nodes.len() == 0 {
        Seq::empty()
    } else {
        nodes_pieces(nodes.drop_last()) + node_pieces(nodes.last())
    }
}

/// What one node lowers to.
pub open spec fn node_pieces(node: Node) -> Seq<Piece>
    decreases node, 1nat,
{
    match node {
        Node::Element(element) => element_pieces(element),
        Node::Text(text) => seq![text_piece(text)],
        Node::If(branches) => if_pieces(branches),
        Node::For(each) => for_pieces(each),
    }
}

/// An element: its start tag, its children, its end tag.
pub open spec fn element_pieces(element: Element) -> Seq<Piece>
    decreases element, 0nat,
{
    start_tag_pieces(element) + nodes_pieces(element.children@) + end_tag_pieces(element)
}

/// Literal text is static text, escaped; computed text goes the way of a term.
pub open spec fn text_piece(text: Text) -> Piece {
    match text {
        Text::String(string) => Piece::Text(escaped(string@)),
        Text::Expr(term) => term_piece(term),
    }
}

/// The tested branches of a chain: the first opens it, each further one
/// continues it, and each wraps the operations of its consequent, lowered in a
/// builder of their own.
pub open spec fn clauses_pieces(clauses: Seq<IfClause>) -> Seq<Piece>
    decreases clauses, 0nat,
{
    if clauses.len() == 0 {
        Seq::empty()
    } else {
        let clause = clauses.last();
        let head = if clauses.len() == 1 {
            OpView::If(clause.test)
        } else {
            OpView::ElseIf(clause.test)
        };
        clauses_pieces(clauses.drop_last()) + seq![
            Piece::Op(head),
            Piece::Op(OpView::Block(lowered(clause.consequent@))),
        ]
    }
}

/// A chain of branches: the tested ones, then the default, if there is one.
pub open spec fn if_pieces(branches: If) -> Seq<Piece>
    decreases branches, 0nat,
{
    clauses_pieces(branches.clauses@) + (match branches.default {
        Some(nodes) => seq![Piece::Op(OpView::Else), Piece::Op(OpView::Block(lowered(nodes@)))],
        None => Seq::empty(),
    })
}

/// A loop: its head, around the operations of its body, lowered in a builder of
/// their own.
pub open spec fn for_pieces(each: For) -> Seq<Piece>
    decreases each, 0nat,
{
    seq![
        Piece::Op(OpView::For(each.pat, each.expr)),
        Piece::Op(OpView::Block(lowered(each.body@))),
    ]
}

/// The operations that a sequence of nodes lowers to in a builder of its own.
pub open spec fn lowered(nodes: Seq<Node>) -> Seq<OpView>
    decreases nodes, 1nat,
{
    gathered(nodes_pieces(nodes))
}

/// A head in front of the block of lowered nodes is clean if the pieces of the
/// nodes are.
proof fn lemma_scoped_clean(head: OpView, nodes: Seq<Node>)
    requires
        !(head is Write),
        !(head is Block),
        clean(nodes_pieces(nodes)),
    ensures
        clean(seq![Piece::Op(head), Piece::Op(OpView::Block(lowered(nodes)))]),
{
    lemma_gathered_clean(nodes_pieces(nodes));
}

proof fn lemma_classes_clean(classes: Seq<syn::Expr>)
    ensures
        clean(classes_pieces(classes)),
    decreases classes.len(),
{
    if classes.len() > 1 {
        lemma_classes_clean(classes.drop_last());
        lemma_clean_concat(
            classes_pieces(classes.drop_last()),
            seq![Piece::Text(" "@), term_piece(classes.last())],
        );
    }
}

proof fn lemma_attributes_clean(attributes: Seq<Attribute>)
    ensures
        clean(attributes_pieces(attributes)),
    decreases attributes.len(),
{
    if attributes.len() > 0 {
        lemma_attributes_clean(attributes.drop_last());
        let attribute = attributes.last();
        if attribute.bool {
            lemma_escaped_space();
            let block = seq![OpView::Write(" "@ + escaped(attribute.name@))];
            assert(deep_tight(block));
        }
        assert(clean(attribute_pieces(attribute)));
        lemma_clean_concat(attributes_pieces(attributes.drop_last()), attribute_pieces(attribute));
    }
}

proof fn lemma_start_tag_clean(element: Element)
    ensures
        clean(start_tag_pieces(element)),
{
    let opening = seq![Piece::Text("<"@), Piece::Text(escaped(element.name@))];
    let id = match element.id {
        Some(id) => seq![Piece::Text(" id=\""@), term_piece(id), Piece::Text("\""@)],
        None => Seq::empty(),
    };
    let classes = if element.classes@.len() == 0 {
        Seq::empty()
    } else {
        seq![Piece::Text(" class=\""@)] + classes_pieces(element.classes@) + seq![
            Piece::Text("\""@),
        ]
    };
    assert(clean(opening));
    assert(clean(id));
    lemma_classes_clean(element.classes@);
    if element.classes@.len() > 0 {
        lemma_clean_concat(seq![Piece::Text(" class=\""@)], classes_pieces(element.classes@));
        lemma_clean_concat(
            seq![Piece::Text(" class=\""@)] + classes_pieces(element.classes@),
            seq![Piece::Text("\""@)],
        );
    }
    lemma_attributes_clean(element.attributes@);
    lemma_clean_concat(opening, id);
    lemma_clean_concat(opening + id, classes);
    lemma_clean_concat(opening + id + classes, attributes_pieces(element.attributes@));
    lemma_clean_concat(
        opening + id + classes + attributes_pieces(element.attributes@),
        seq![Piece::Text(">"@)],
    );
}

/// The pieces that nodes lower to hold no write, and their blocks are tight at
/// every depth.
pub proof fn lemma_nodes_clean(nodes: Seq<Node>)
    ensures
        clean(nodes_pieces(nodes)),
    decreases nodes, 0nat,
{
    if nodes.len() > 0 {
        lemma_nodes_clean(nodes.drop_last());
        lemma_node_clean(nodes.last());
        lemma_clean_concat(nodes_pieces(nodes.drop_last()), node_pieces(nodes.last()));
    }
}

proof fn lemma_node_clean(node: Node)
    ensures
        clean(node_pieces(node)),
    decreases node, 1nat,
{
    match node {
        Node::Element(element) => {
            lemma_start_tag_clean(element);
            lemma_nodes_clean(element.children@);
            lemma_clean_concat(start_tag_pieces(element), nodes_pieces(element.children@));
            assert(clean(end_tag_pieces(element)));
            lemma_clean_concat(
                start_tag_pieces(element) + nodes_pieces(element.children@),
                end_tag_pieces(element),
            );
        },
        Node::Text(text) => {},
        Node::If(branches) => {
            lemma_clauses_clean(branches.clauses@);
            match branches.default {
                Some(nodes) => {
                    lemma_nodes_clean(nodes@);
                    lemma_scoped_clean(OpView::Else, nodes@);
                    lemma_clean_concat(
                        clauses_pieces(branches.clauses@),
                        seq![Piece::Op(OpView::Else), Piece::Op(OpView::Block(lowered(nodes@)))],
                    );
                },
                None => {
                    lemma_clean_concat(clauses_pieces(branches.clauses@), Seq::empty());
                },
            }
        },
        Node::For(each) => {
            lemma_nodes_clean(each.body@);
            lemma_scoped_clean(OpView::For(each.pat, each.expr), each.body@);
        },
    }
}

proof fn lemma_clauses_clean(clauses: Seq<IfClause>)
    ensures
        clean(clauses_pieces(clauses)),
    decreases clauses, 0nat,
{
    if clauses.len() > 0 {
        let clause = clauses.last();
        let head = if clauses.len() == 1 {
            OpView::If(clause.test)
        } else {
            OpView::ElseIf(clause.test)
        };
        lemma_clauses_clean(clauses.drop_last());
        lemma_nodes_clean(clause.consequent@);
        lemma_scoped_clean(head, clause.consequent@);
        lemma_clean_concat(
            clauses_pieces(clauses.drop_last()),
            seq![Piece::Op(head), Piece::Op(OpView::Block(lowered(clause.consequent@)))],
        );
    }
}

/// Lowering writes each maximal run of static text that holds any text with
/// one write, and writes nothing else; the other operations are those of the
/// nodes, in order; no write is empty or stands next to another write, in the
/// body or in any block of it.
pub proof fn lemma_lowered_runs(nodes: Seq<Node>)
    ensures
        written(lowered(nodes)) == runs(nodes_pieces(nodes)),
        dynamic(lowered(nodes)) == operations(nodes_pieces(nodes)),
        lowered(nodes).len() == runs(nodes_pieces(nodes)).len() + operations(
            nodes_pieces(nodes),
        ).len(),
        deep_tight(lowered(nodes)),
{
    lemma_nodes_clean(nodes);
    lemma_gathered_runs(nodes_pieces(nodes));
    lemma_gathered_clean(nodes_pieces(nodes));
}

/// A term that is a plain string literal lowers exactly as the literal text
/// that it stands for: to the same operations, wherever it stands among the
/// nodes.
pub proof fn lemma_literal_folds(
    before: Seq<Node>,
    term: syn::Expr,
    string: String,
    after: Seq<Node>,
)
    requires
        literal_text(term) == Some(string@),
    ensures
        lowered(before + seq![Node::Text(Text::Expr(term))] + after) == lowered(
            before + seq![Node::Text(Text::String(string))] + after,
        ),
{
    let by_term = Node::Text(Text::Expr(term));
    let by_text = Node::Text(Text::String(string));
    assert(node_pieces(by_term) == node_pieces(by_text));
    lemma_nodes_pieces_concat(before, seq![by_term]);
    lemma_nodes_pieces_concat(before, seq![by_text]);
    lemma_nodes_pieces_concat(before + seq![by_term], after);
    lemma_nodes_pieces_concat(before + seq![by_text], after);
    assert(seq![by_term].drop_last() == Seq::<Node>::empty());
    assert(seq![by_text].drop_last() == Seq::<Node>::empty());
}

/// The pieces of nodes are the pieces of the first of them, then those of the
/// rest.
pub proof fn lemma_nodes_pieces_concat(first: Seq<Node>, second: Seq<Node>)
    ensures
        nodes_pieces(first + second) == nodes_pieces(first) + nodes_pieces(second),
    decreases second.len(),
{
    if second.len() == 0 {
        assert(first + second == first);
    } else {
        assert((first + second).drop_last() == first + second.drop_last());
        assert((first + second).last() == second.last());
        lemma_nodes_pieces_concat(first, second.drop_last());
    }
}

/// With no text gathered, a head and then a finished block are the two
/// operations taken in as pieces.
proof fn lemma_head_and_block(state: Pending, done: Seq<Piece>, head: OpView, block: Seq<OpView>)
    ensures
        state.with_pieces(done).with_ops(seq![head]).with_block(block) == state.with_pieces(
            done + seq![Piece::Op(head), Piece::Op(OpView::Block(block))],
        ),
{
    let after_head = state.with_pieces(done).with_ops(seq![head]);
    lemma_with_pieces_push(state, done, Piece::Op(head));
    lemma_with_pieces_push(state, done.push(Piece::Op(head)), Piece::Op(OpView::Block(block)));
    assert(done.push(Piece::Op(head)).push(Piece::Op(OpView::Block(block))) == done + seq![
        Piece::Op(head),
        Piece::Op(OpView::Block(block)),
    ]);
    assert(after_head.with_block(block).ops == after_head.with_ops(
        seq![OpView::Block(block)],
    ).ops);
}

/// A space is its own escaped form.
proof fn lemma_escaped_space()
    ensures
        escaped(" "@) == " "@,
        " "@.len() == 1,
{
    reveal_strlit(" ");
    assert(" "@.drop_last() == Seq::<char>::empty());
    assert(escaped(" "@.drop_last()) == Seq::<char>::empty());
    assert(escaped(" "@) == Seq::<char>::empty() + seq![' ']);
}

/// A sequence of one operation.
fn one(op: Op) -> (ops: Vec<Op>)
    ensures
        views(ops@) == seq![op@],
{
    let ops = vec![op];
    assert(views(ops@) =~= seq![op@]);
    ops
}

/// Lowers a sequence of nodes into `builder`, in declaration order.
pub fn generate(nodes: &Vec<Node>, builder: &mut Builder)
    ensures
        final(builder)@ == old(builder)@.with_pieces(nodes_pieces(nodes@)),
    decreases nodes, 0nat,
{
    let ghost start = builder@;
    let mut i: usize = 0;
    assert(nodes@.take(0) == Seq::<Node>::empty());
    while i < nodes.len()
        invariant
            i <= nodes.len(),
            builder@ == start.with_pieces(nodes_pieces(nodes@.take(i as int))),
        decreases nodes.len() - i,
    {
        nodes[i].generate(builder);
        proof {
            let next = nodes@.take(i + 1);
            assert(next.drop_last() == nodes@.take(i as int));
            assert(next.last() == nodes@[i as int]);
            lemma_with_pieces_concat(
                start,
                nodes_pieces(nodes@.take(i as int)),
                node_pieces(nodes@[i as int]),
            );
        }
        i += 1;
    }
    assert(nodes@.take(nodes.len() as int) == nodes@);
}

impl Node {
    /// Lowers the node by its kind.
    pub fn generate(&self, builder: &mut Builder)
        ensures
            final(builder)@ == old(builder)@.with_pieces(node_pieces(*self)),
        decreases self, 1nat,
    {
        match self {
            Node::Element(element) => element.generate(builder),
            Node::Text(text) => {
                text.generate(builder);
                proof {
                    lemma_with_pieces_push(old(builder)@, Seq::empty(), text_piece(*text));
                }
            },
            Node::If(if_) => if_.generate(builder),
            Node::For(for_) => for_.generate(builder),
        }
    }
}

impl Element {
    /// Lowers the element: its start tag with id, classes and attributes, then
    /// its children, then its end tag if it has one.
    pub fn generate(&self, builder: &mut Builder)
        ensures
            final(builder)@ == old(builder)@.with_pieces(element_pieces(*self)),
        decreases self, 0nat,
    {
        let ghost start = builder@;
        let ghost mut done: Seq<Piece> = Seq::empty();
        builder.raw("<");
        proof {
            lemma_with_pieces_push(start, done, Piece::Text("<"@));
            done = done.push(Piece::Text("<"@));
        }
        builder.str(self.name.as_str());
        proof {
            lemma_with_pieces_push(start, done, Piece::Text(escaped(self.name@)));
            done = done.push(Piece::Text(escaped(self.name@)));
        }
        if let Some(id) = &self.id {
            builder.raw(" id=\"");
            proof {
                lemma_with_pieces_push(start, done, Piece::Text(" id=\""@));
                done = done.push(Piece::Text(" id=\""@));
            }
            builder.expr(id);
            proof {
                lemma_with_pieces_push(start, done, term_piece(*id));
                done = done.push(term_piece(*id));
            }
            builder.raw("\"");
            proof {
                lemma_with_pieces_push(start, done, Piece::Text("\""@));
                done = done.push(Piece::Text("\""@));
            }
        }
        if self.classes.len() > 0 {
            builder.raw(" class=\"");
            proof {
                lemma_with_pieces_push(start, done, Piece::Text(" class=\""@));
                done = done.push(Piece::Text(" class=\""@));
            }
            let ghost before = done;
            let mut first = true;
            let mut i: usize = 0;
            assert(self.classes@.take(0) == Seq::<syn::Expr>::empty());
            while i < self.classes.len()
                invariant
                    i <= self.classes.len(),
                    first == (i == 0),
                    done == before + classes_pieces(self.classes@.take(i as int)),
                    builder@ == start.with_pieces(done),
                decreases self.classes.len() - i,
            {
                let ghost seen = self.classes@.take(i as int);
                let ghost next = self.classes@.take(i + 1);
                let class = &self.classes[i];
                proof {
                    assert(next.drop_last() == seen);
                    assert(next.last() == *class);
                }
                if first {
                    first = false;
                } else {
                    builder.str(" ");
                    proof {
                        lemma_escaped_space();
                        lemma_with_pieces_push(start, done, Piece::Text(" "@));
                        done = done.push(Piece::Text(" "@));
                    }
                }
                builder.expr(class);
                proof {
                    lemma_with_pieces_push(start, done, term_piece(*class));
                    done = done.push(term_piece(*class));
                    assert(done == before + classes_pieces(next));
                }
                i += 1;
            }
            assert(self.classes@.take(self.classes.len() as int) == self.classes@);
            builder.raw("\"");
            proof {
                lemma_with_pieces_push(start, done, Piece::Text("\""@));
                done = done.push(Piece::Text("\""@));
            }
        }
        let ghost before = done;
        let mut i: usize = 0;
        assert(self.attributes@.take(0) == Seq::<Attribute>::empty());
        while i < self.attributes.len()
            invariant
                i <= self.attributes.len(),
                done == before + attributes_pieces(self.attributes@.take(i as int)),
                builder@ == start.with_pieces(done),
            decreases self.attributes.len() - i,
        {
            let ghost seen = self.attributes@.take(i as int);
            let ghost next = self.attributes@.take(i + 1);
            let attribute = &self.attributes[i];
            proof {
                assert(next.drop_last() == seen);
                assert(next.last() == *attribute);
            }
            if attribute.bool {
                builder.extend(one(Op::If(attribute.value.clone())));
                let mut scope = Builder::default();
                scope.str(" ");
                scope.str(attribute.name.as_str());
                proof {
                    lemma_escaped_space();
                    let text = " "@ + escaped(attribute.name@);
                    assert(scope@.text == text);
                    assert(scope@.flushed() == seq![OpView::Write(text)]);
                    lemma_head_and_block(
                        start,
                        done,
                        OpView::If(attribute.value),
                        seq![OpView::Write(text)],
                    );
                }
                builder.paren(scope);
                proof {
                    done = done + attribute_pieces(*attribute);
                }
            } else {
                builder.str(" ");
                proof {
                    lemma_escaped_space();
                    lemma_with_pieces_push(start, done, Piece::Text(" "@));
                    done = done.push(Piece::Text(" "@));
                }
                builder.str(attribute.name.as_str());
                proof {
                    lemma_with_pieces_push(start, done, Piece::Text(escaped(attribute.name@)));
                    done = done.push(Piece::Text(escaped(attribute.name@)));
                }
                builder.raw("=\"");
                proof {
                    lemma_with_pieces_push(start, done, Piece::Text("=\""@));
                    done = done.push(Piece::Text("=\""@));
                }
                builder.expr(&attribute.value);
                proof {
                    lemma_with_pieces_push(start, done, term_piece(attribute.value));
                    done = done.push(term_piece(attribute.value));
                }
                builder.raw("\"");
                proof {
                    lemma_with_pieces_push(start, done, Piece::Text("\""@));
                    done = done.push(Piece::Text("\""@));
                }
            }
            proof {
                assert(done == before + attributes_pieces(next));
            }
            i += 1;
        }
        assert(self.attributes@.take(self.attributes.len() as int) == self.attributes@);
        builder.raw(">");
        proof {
            lemma_with_pieces_push(start, done, Piece::Text(">"@));
            done = done.push(Piece::Text(">"@));
            assert(done == start_tag_pieces(*self));
        }
        generate(&self.children, builder);
        proof {
            lemma_with_pieces_concat(start, done, nodes_pieces(self.children@));
            done = done + nodes_pieces(self.children@);
        }
        if self.close {
            builder.raw("</");
            proof {
                lemma_with_pieces_push(start, done, Piece::Text("</"@));
                done = done.push(Piece::Text("</"@));
            }
            builder.str(self.name.as_str());
            proof {
                lemma_with_pieces_push(start, done, Piece::Text(escaped(self.name@)));
                done = done.push(Piece::Text(escaped(self.name@)));
            }
            builder.raw(">");
            proof {
                lemma_with_pieces_push(start, done, Piece::Text(">"@));
                done = done.push(Piece::Text(">"@));
            }
        }
        assert(done == element_pieces(*self));
    }
}

impl Text {
    /// Lowers literal text as escaped static text, and computed text as a term.
    pub fn generate(&self, builder: &mut Builder)
        ensures
            final(builder)@ == old(builder)@.with_piece(text_piece(*self)),
    {
        match self {
            Text::String(string) => builder.str(string.as_str()),
            Text::Expr(expr) => builder.expr(expr),
        }
    }
}

impl If {
    /// Lowers the chain: `if` for the first clause, `else if` for each further
    /// one, `else` for the default, each in front of the block of its branch.
    pub fn generate(&self, builder: &mut Builder)
        ensures
            final(builder)@ == old(builder)@.with_pieces(if_pieces(*self)),
        decreases self, 0nat,
    {
        let ghost start = builder@;
        let mut first = true;
        let mut i: usize = 0;
        assert(self.clauses@.take(0) == Seq::<IfClause>::empty());
        while i < self.clauses.len()
            invariant
                i <= self.clauses.len(),
                first == (i == 0),
                builder@ == start.with_pieces(clauses_pieces(self.clauses@.take(i as int))),
            decreases self.clauses.len() - i,
        {
            let ghost seen = self.clauses@.take(i as int);
            let ghost next = self.clauses@.take(i + 1);
            let clause = &self.clauses[i];
            proof {
                assert(next.drop_last() == seen);
                assert(next.last() == *clause);
            }
            let ghost head = if first {
                OpView::If(clause.test)
            } else {
                OpView::ElseIf(clause.test)
            };
            if first {
                first = false;
                builder.extend(one(Op::If(clause.test.clone())));
            } else {
                builder.extend(one(Op::ElseIf(clause.test.clone())));
            }
            let mut scope = Builder::default();
            generate(&clause.consequent, &mut scope);
            proof {
                lemma_head_and_block(
                    start,
                    clauses_pieces(seen),
                    head,
                    lowered(clause.consequent@),
                );
            }
            builder.paren(scope);
            i += 1;
        }
        assert(self.clauses@.take(self.clauses.len() as int) == self.clauses@);
        if let Some(default) = &self.default {
            let mut scope = Builder::default();
            builder.extend(one(Op::Else));
            generate(default, &mut scope);
            proof {
                lemma_head_and_block(
                    start,
                    clauses_pieces(self.clauses@),
                    OpView::Else,
                    lowered(default@),
                );
            }
            builder.paren(scope);
        } else {
            assert(clauses_pieces(self.clauses@) + Seq::<Piece>::empty() == clauses_pieces(
                self.clauses@,
            ));
        }
    }
}

impl For {
    /// Lowers the loop: its head in front of the block of its body.
    pub fn generate(&self, builder: &mut Builder)
        ensures
            final(builder)@ == old(builder)@.with_pieces(for_pieces(*self)),
        decreases self, 0nat,
    {
        builder.extend(one(Op::For(self.pat.clone(), self.expr.clone())));
        let mut scope = Builder::default();
        generate(&self.body, &mut scope);
        proof {
            lemma_head_and_block(
                old(builder)@,
                Seq::empty(),
                OpView::For(self.pat, self.expr),
                lowered(self.body@),
            );
            assert(Seq::<Piece>::empty() + for_pieces(*self) == for_pieces(*self));
        }
        builder.paren(scope);
    }
}

} // verus!
