//! What lowered operations write when they run, and what a template says
//! should be written. The two agree.
use crate::ast::{Attribute, Element, For, If, IfClause, Node, Text};
use crate::builder::Pending;
use crate::escape::escaped;
use crate::gather::{lemma_with_pieces_concat, lemma_with_pieces_push, Piece};
use crate::lower::{
    attribute_pieces, attributes_pieces, classes_pieces, clauses_pieces, end_tag_pieces,
    for_pieces, if_pieces, lowered, node_pieces, nodes_pieces, start_tag_pieces, term_piece,
    text_piece,
};
use crate::ops::OpView;
use crate::terms::literal_text;
use vstd::prelude::*;

verus! {

/// The host language, as far as a run depends on it. A scope stands for the
/// bindings that are in force at a point of the run.
pub struct Host {
    /// What rendering a term writes.
    pub shown: spec_fn(int, syn::Expr) -> Seq<char>,
    /// Whether a test holds.
    pub holds: spec_fn(int, syn::Expr) -> bool,
    /// The scope inside the branch that a test guards: the test may bind
    /// names.
    pub within: spec_fn(int, syn::Expr) -> int,
    /// The scopes of the rounds of a loop, one for each item, in order.
    pub rounds: spec_fn(int, syn::Pat, syn::Expr) -> Seq<int>,
}

/// What stands in front of an operation, and decides how a block runs there.
pub enum Lead {
    /// Nothing that matters: a block runs once.
    Plain,
    /// A test. The block runs in `scope` if `go`; `taken` tells whether a
    /// branch of the chain has run once the block is passed.
    Test { go: bool, scope: int, taken: bool },
    /// The block of a branch, with `taken` telling whether a branch of the
    /// chain has run.
    Chain { taken: bool },
    /// The head of a loop with these rounds.
    Each { scopes: Seq<int> },
}

/// Whether a branch of the chain that a lead belongs to has run.
pub open spec fn taken_before(lead: Lead) -> bool {
    lead matches Lead::Chain { taken } && taken
}

/// What an operation leaves in front of the next one.
pub open spec fn lead_after(host: Host, scope: int, lead: Lead, op: OpView) -> Lead {
    match op {
        OpView::Write(_) => Lead::Plain,
        OpView::Render(_) => Lead::Plain,
        OpView::If(test) => Lead::Test {
            go: (host.holds)(scope, test),
            scope: (host.within)(scope, test),
            taken: (host.holds)(scope, test),
        },
        OpView::ElseIf(test) => Lead::Test {
            go: !taken_before(lead) && (host.holds)(scope, test),
            scope: (host.within)(scope, test),
            taken: taken_before(lead) || (host.holds)(scope, test),
        },
        OpView::Else => Lead::Test { go: !taken_before(lead), scope, taken: true },
        OpView::For(pattern, items) => Lead::Each { scopes: (host.rounds)(scope, pattern, items) },
        OpView::Block(_) => match lead {
            Lead::Test { taken, .. } => Lead::Chain { taken },
            _ => Lead::Plain,
        },
    }
}

/// What stands behind a sequence of operations that began at `start`.
pub open spec fn lead_of(host: Host, scope: int, ops: Seq<OpView>, start: Lead) -> Lead
    decreases ops.len(),
{
    if ops.len() == 0 {
        start
    } else {
        lead_after(host, scope, lead_of(host, scope, ops.drop_last(), start), ops.last())
    }
}

/// What a sequence of operations writes to the sink, from left to right.
pub open spec fn output(host: Host, scope: int, ops: Seq<OpView>, start: Lead) -> Seq<char>
    decreases ops, 1nat,
{
    if ops.len() == 0 {
        Seq::empty()
    } else {
        output(host, scope, ops.drop_last(), start) + effect(
            host,
            scope,
            lead_of(host, scope, ops.drop_last(), start),
            ops.last(),
        )
    }
}

/// What one operation writes. A write writes its text, a render what the term
/// shows. A head writes nothing. A block behind a test writes what its
/// operations write if the test lets it run, and nothing otherwise; behind a
/// loop head it writes once for each round; anywhere else, once.
pub open spec fn effect(host: Host, scope: int, lead: Lead, op: OpView) -> Seq<char>
    decreases op, 0nat,
{
    match op {
        OpView::Write(text) => text,
        OpView::Render(term) => (host.shown)(scope, term),
        OpView::Block(body) => match lead {
            Lead::Test { go, scope: inner, .. } => if go {
                output(host, inner, body, Lead::Plain)
            } else {
                Seq::empty()
            },
            Lead::Each { scopes } => output_each(host, scopes, body),
            _ => output(host, scope, body, Lead::Plain),
        },
        _ => Seq::empty(),
    }
}

/// What a block writes over the rounds of a loop.
pub open spec fn output_each(host: Host, scopes: Seq<int>, body: Seq<OpView>) -> Seq<char>
    decreases body, 2 + scopes.len(),
{
    if scopes.len() == 0 {
        Seq::empty()
    } else {
        output_each(host, scopes.drop_last(), body) + output(
            host,
            scopes.last(),
            body,
            Lead::Plain,
        )
    }
}

/// What a term in text position comes to: a plain string literal to its text,
/// escaped; any other term to what it shows.
pub open spec fn term_text(host: Host, scope: int, term: syn::Expr) -> Seq<char> {
    match literal_text(term) {
        Some(text) => escaped(text),
        None => (host.shown)(scope, term),
    }
}

/// The classes of an element, with one space between neighbours.
pub open spec fn classes_text(host: Host, scope: int, classes: Seq<syn::Expr>) -> Seq<char>
    decreases classes.len(),
{
    if classes.len() == 0 {
        Seq::empty()
    } else if classes.len() == 1 {
        term_text(host, scope, classes[0])
    } else {
        classes_text(host, scope, classes.drop_last()) + " "@ + term_text(
            host,
            scope,
            classes.last(),
        )
    }
}

/// An attribute. A boolean one is one space and its name if its value holds,
/// and nothing at all if not; any other is a space, its name, and its value
/// between double quotes.
pub open spec fn attribute_text(host: Host, scope: int, attribute: Attribute) -> Seq<char> {
    if attribute.bool {
        if (host.holds)(scope, attribute.value) {
            " "@ + escaped(attribute.name@)
        } else {
            Seq::empty()
        }
    } else {
        " "@ + escaped(attribute.name@) + "=\""@ + term_text(host, scope, attribute.value) + "\""@
    }
}

/// The attributes of an element, in declaration order.
pub open spec fn attributes_text(host: Host, scope: int, attributes: Seq<Attribute>) -> Seq<char>
    decreases attributes.len(),
{
    if attributes.len() == 0 {
        Seq::empty()
    } else {
        attributes_text(host, scope, attributes.drop_last()) + attribute_text(
            host,
            scope,
            attributes.last(),
        )
    }
}

/// The id of an element, if it has one.
pub open spec fn id_text(host: Host, scope: int, id: Option<syn::Expr>) -> Seq<char> {
    match id {
        Some(id) => " id=\""@ + term_text(host, scope, id) + "\""@,
        None => Seq::empty(),
    }
}

/// The class attribute of an element, if it has any class.
pub open spec fn class_text(host: Host, scope: int, classes: Seq<syn::Expr>) -> Seq<char> {
    if classes.len() == 0 {
        Seq::empty()
    } else {
        " class=\""@ + classes_text(host, scope, classes) + "\""@
    }
}

/// The start tag of an element.
pub open spec fn start_tag_text(host: Host, scope: int, element: Element) -> Seq<char> {
    "<"@ + escaped(element.name@) + id_text(host, scope, element.id) + class_text(
        host,
        scope,
        element.classes@,
    ) + attributes_text(host, scope, element.attributes@) + ">"@
}

/// The end tag of an element, if it has one.
pub open spec fn end_tag_text(element: Element) -> Seq<char> {
    if element.close {
        "</"@ + escaped(element.name@) + ">"@
    } else {
        Seq::empty()
    }
}

/// What a sequence of nodes says should be written: what each node says, in
/// declaration order.
pub open spec fn nodes_text(host: Host, scope: int, nodes: Seq<Node>) -> Seq<char>
    decreases nodes, 0nat,
{
    if nodes.len() == 0 {
        Seq::empty()
    } else {
        nodes_text(host, scope, nodes.drop_last()) + node_text(host, scope, nodes.last())
    }
}

/// What one node says should be written.
pub open spec fn node_text(host: Host, scope: int, node: Node) -> Seq<char>
    decreases node, 1nat,
{
    match node {
        Node::Element(element) => start_tag_text(host, scope, element) + nodes_text(
            host,
            scope,
            element.children@,
        ) + end_tag_text(element),
        Node::Text(Text::String(string)) => escaped(string@),
        Node::Text(Text::Expr(term)) => term_text(host, scope, term),
        Node::If(branches) => chain_text(
            host,
            scope,
            branches.clauses@,
            match branches.default {
                Some(nodes) => nodes_text(host, scope, nodes@),
                None => Seq::empty(),
            },
        ),
        Node::For(each) => each_text(
            host,
            (host.rounds)(scope, each.pat, each.expr),
            each.body@,
        ),
    }
}

/// A chain of branches: the consequent of the first clause whose test holds,
/// and `otherwise` if there is none.
pub open spec fn chain_text(
    host: Host,
    scope: int,
    clauses: Seq<IfClause>,
    otherwise: Seq<char>,
) -> Seq<char>
    decreases clauses, 0nat,
{
    if clauses.len() == 0 {
        otherwise
    } else if (host.holds)(scope, clauses[0].test) {
        nodes_text(host, (host.within)(scope, clauses[0].test), clauses[0].consequent@)
    } else {
        chain_text(host, scope, clauses.drop_first(), otherwise)
    }
}

/// A loop: its body, once for each round, in order.
pub open spec fn each_text(host: Host, scopes: Seq<int>, body: Seq<Node>) -> Seq<char>
    decreases body, 2 + scopes.len(),
{
    if scopes.len() == 0 {
        Seq::empty()
    } else {
        each_text(host, scopes.drop_last(), body) + nodes_text(host, scopes.last(), body)
    }
}

/// Every chain of branches among the nodes, at every depth, has a clause.
pub open spec fn well_formed(nodes: Seq<Node>) -> bool
    decreases nodes, 0nat,
{
    nodes.len() == 0 || (well_formed(nodes.drop_last()) && node_well_formed(nodes.last()))
}

/// Every chain of branches in the node, at every depth, has a clause.
pub open spec fn node_well_formed(node: Node) -> bool
    decreases node, 1nat,
{
    match node {
        Node::Element(element) => well_formed(element.children@),
        Node::Text(_) => true,
        Node::If(branches) => branches.clauses@.len() > 0 && clauses_well_formed(
            branches.clauses@,
        ) && (match branches.default {
            Some(nodes) => well_formed(nodes@),
            None => true,
        }),
        Node::For(each) => well_formed(each.body@),
    }
}

/// The consequents of the clauses are well formed.
pub open spec fn clauses_well_formed(clauses: Seq<IfClause>) -> bool
    decreases clauses, 0nat,
{
    clauses.len() == 0 || (clauses_well_formed(clauses.drop_last()) && well_formed(
        clauses.last().consequent@,
    ))
}

/// What a builder has brought to the sink so far, the text that it still
/// holds counted in.
pub open spec fn shown(host: Host, scope: int, state: Pending) -> Seq<char> {
    output(host, scope, state.ops, Lead::Plain) + state.text
}

/// What stands behind the operations of a builder once its text is flushed.
pub open spec fn lead_behind(host: Host, scope: int, state: Pending) -> Lead {
    lead_of(host, scope, state.flushed(), Lead::Plain)
}

/// One more operation writes behind the others, under the lead that they
/// leave.
pub proof fn lemma_output_push(host: Host, scope: int, ops: Seq<OpView>, op: OpView, start: Lead)
    ensures
        output(host, scope, ops.push(op), start) == output(host, scope, ops, start) + effect(
            host,
            scope,
            lead_of(host, scope, ops, start),
            op,
        ),
        lead_of(host, scope, ops.push(op), start) == lead_after(
            host,
            scope,
            lead_of(host, scope, ops, start),
            op,
        ),
{
    assert(ops.push(op).drop_last() == ops);
}

/// Flushing changes nothing of what is written: the text that was held is
/// written by the write that it becomes.
pub proof fn lemma_flush_keeps_output(host: Host, scope: int, state: Pending)
    ensures
        output(host, scope, state.flushed(), Lead::Plain) == shown(host, scope, state),
{
    if state.text.len() == 0 {
        assert(output(host, scope, state.ops, Lead::Plain) + state.text == output(
            host,
            scope,
            state.ops,
            Lead::Plain,
        ));
    } else {
        lemma_output_push(host, scope, state.ops, OpView::Write(state.text), Lead::Plain);
    }
}

/// An operation that is taken in writes behind all that was taken in before
/// it, text included, and leaves no text held.
proof fn lemma_op_taken_in(host: Host, scope: int, state: Pending, op: OpView)
    ensures
        ({
            let next = state.with_piece(Piece::Op(op));
            &&& next.text.len() == 0
            &&& shown(host, scope, next) == shown(host, scope, state) + effect(
                host,
                scope,
                lead_behind(host, scope, state),
                op,
            )
            &&& lead_behind(host, scope, next) == lead_after(
                host,
                scope,
                lead_behind(host, scope, state),
                op,
            )
        }),
{
    let next = state.with_piece(Piece::Op(op));
    let flushed = state.flushed();
    assert(next.ops == flushed.push(op));
    lemma_flush_keeps_output(host, scope, state);
    lemma_output_push(host, scope, flushed, op, Lead::Plain);
    assert(output(host, scope, next.ops, Lead::Plain) + next.text == output(
        host,
        scope,
        next.ops,
        Lead::Plain,
    ));
}

/// A head and the block behind it write what the block writes under the head.
proof fn lemma_head_and_block_shown(
    host: Host,
    scope: int,
    state: Pending,
    done: Seq<Piece>,
    head: OpView,
    body: Seq<OpView>,
)
    requires
        head is If || head is ElseIf || head is Else || head is For,
    ensures
        ({
            let before = state.with_pieces(done);
            let next = state.with_pieces(
                done + seq![Piece::Op(head), Piece::Op(OpView::Block(body))],
            );
            let lead = lead_after(host, scope, lead_behind(host, scope, before), head);
            &&& next.text.len() == 0
            &&& shown(host, scope, next) == shown(host, scope, before) + effect(
                host,
                scope,
                lead,
                OpView::Block(body),
            )
            &&& lead_behind(host, scope, next) == lead_after(
                host,
                scope,
                lead,
                OpView::Block(body),
            )
        }),
{
    let before = state.with_pieces(done);
    let middle = before.with_piece(Piece::Op(head));
    let block = Piece::Op(OpView::Block(body));
    lemma_with_pieces_push(state, done, Piece::Op(head));
    lemma_with_pieces_push(state, done.push(Piece::Op(head)), block);
    assert(done.push(Piece::Op(head)).push(block) == done + seq![Piece::Op(head), block]);
    lemma_op_taken_in(host, scope, before, head);
    lemma_op_taken_in(host, scope, middle, OpView::Block(body));
    assert(shown(host, scope, before) + Seq::<char>::empty() == shown(host, scope, before));
}

/// Whether a piece is static text or the rendering of a term.
pub open spec fn is_flat(piece: Piece) -> bool {
    piece is Text || piece matches Piece::Op(OpView::Render(_))
}

/// What a flat piece writes.
pub open spec fn piece_text(host: Host, scope: int, piece: Piece) -> Seq<char> {
    match piece {
        Piece::Text(text) => text,
        Piece::Op(OpView::Render(term)) => (host.shown)(scope, term),
        _ => Seq::empty(),
    }
}

/// What flat pieces write, in order.
pub open spec fn flat_text(host: Host, scope: int, pieces: Seq<Piece>) -> Seq<char>
    decreases pieces.len(),
{
    if pieces.len() == 0 {
        Seq::empty()
    } else {
        flat_text(host, scope, pieces.drop_last()) + piece_text(host, scope, pieces.last())
    }
}

/// Whether all the pieces are flat.
pub open spec fn all_flat(pieces: Seq<Piece>) -> bool {
    forall|i: int| 0 <= i < pieces.len() ==> is_flat(#[trigger] pieces[i])
}

/// Flat pieces that are taken in write their texts behind all that was taken
/// in before them.
proof fn lemma_flat_shown(host: Host, scope: int, state: Pending, pieces: Seq<Piece>)
    requires
        all_flat(pieces),
    ensures
        shown(host, scope, state.with_pieces(pieces)) == shown(host, scope, state) + flat_text(
            host,
            scope,
            pieces,
        ),
    decreases pieces.len(),
{
    if pieces.len() == 0 {
        assert(shown(host, scope, state) + Seq::<char>::empty() == shown(host, scope, state));
    } else {
        let init = pieces.drop_last();
        assert forall|i: int| 0 <= i < init.len() implies is_flat(#[trigger] init[i]) by {
            assert(init[i] == pieces[i]);
        }
        lemma_flat_shown(host, scope, state, init);
        let before = state.with_pieces(init);
        assert(is_flat(pieces[pieces.len() - 1]));
        match pieces.last() {
            Piece::Text(text) => {
                assert(shown(host, scope, before.with_text(text)) == shown(host, scope, before)
                    + text);
            },
            Piece::Op(op) => {
                lemma_op_taken_in(host, scope, before, op);
            },
        }
        assert((shown(host, scope, state) + flat_text(host, scope, init)) + piece_text(
            host,
            scope,
            pieces.last(),
        ) == shown(host, scope, state) + flat_text(host, scope, pieces));
    }
}

/// Pieces behind pieces write behind them.
proof fn lemma_then(
    host: Host,
    scope: int,
    state: Pending,
    first: Seq<Piece>,
    second: Seq<Piece>,
    a: Seq<char>,
    b: Seq<char>,
)
    requires
        shown(host, scope, state.with_pieces(first)) == shown(host, scope, state) + a,
        shown(host, scope, state.with_pieces(first).with_pieces(second)) == shown(
            host,
            scope,
            state.with_pieces(first),
        ) + b,
    ensures
        shown(host, scope, state.with_pieces(first + second)) == shown(host, scope, state) + (a
            + b),
{
    lemma_with_pieces_concat(state, first, second);
    assert((shown(host, scope, state) + a) + b == shown(host, scope, state) + (a + b));
}

/// Flat pieces behind flat pieces are flat, and write behind them.
proof fn lemma_flat_concat(host: Host, scope: int, first: Seq<Piece>, second: Seq<Piece>)
    requires
        all_flat(first),
        all_flat(second),
    ensures
        all_flat(first + second),
        flat_text(host, scope, first + second) == flat_text(host, scope, first) + flat_text(
            host,
            scope,
            second,
        ),
    decreases second.len(),
{
    let all = first + second;
    assert forall|i: int| 0 <= i < all.len() implies is_flat(#[trigger] all[i]) by {
        if i < first.len() {
            assert(all[i] == first[i]);
        } else {
            assert(all[i] == second[i - first.len()]);
        }
    }
    if second.len() == 0 {
        assert(all == first);
        assert(flat_text(host, scope, first) + Seq::<char>::empty() == flat_text(
            host,
            scope,
            first,
        ));
    } else {
        let init = second.drop_last();
        assert forall|i: int| 0 <= i < init.len() implies is_flat(#[trigger] init[i]) by {
            assert(init[i] == second[i]);
        }
        assert(all.drop_last() == first + init);
        assert(all.last() == second.last());
        lemma_flat_concat(host, scope, first, init);
        assert((flat_text(host, scope, first) + flat_text(host, scope, init)) + piece_text(
            host,
            scope,
            second.last(),
        ) == flat_text(host, scope, first) + flat_text(host, scope, second));
    }
}

/// A term in text position is flat and writes what the term comes to.
proof fn lemma_term_flat(host: Host, scope: int, term: syn::Expr)
    ensures
        is_flat(term_piece(term)),
        piece_text(host, scope, term_piece(term)) == term_text(host, scope, term),
{
}

/// The classes of an element are flat and write what they come to.
proof fn lemma_classes_flat(host: Host, scope: int, classes: Seq<syn::Expr>)
    ensures
        all_flat(classes_pieces(classes)),
        flat_text(host, scope, classes_pieces(classes)) == classes_text(host, scope, classes),
    decreases classes.len(),
{
    reveal_with_fuel(flat_text, 3);
    if classes.len() == 1 {
        lemma_term_flat(host, scope, classes[0]);
        assert(Seq::<char>::empty() + term_text(host, scope, classes[0]) == term_text(
            host,
            scope,
            classes[0],
        ));
    } else if classes.len() > 1 {
        let step = seq![Piece::Text(" "@), term_piece(classes.last())];
        lemma_classes_flat(host, scope, classes.drop_last());
        lemma_term_flat(host, scope, classes.last());
        assert(all_flat(step));
        lemma_flat_concat(host, scope, classes_pieces(classes.drop_last()), step);
        assert(flat_text(host, scope, step) == " "@ + term_text(host, scope, classes.last()));
        assert(classes_text(host, scope, classes.drop_last()) + (" "@ + term_text(
            host,
            scope,
            classes.last(),
        )) == classes_text(host, scope, classes));
    }
}

/// An attribute that is taken in writes what it comes to.
proof fn lemma_attribute_shown(host: Host, scope: int, state: Pending, attribute: Attribute)
    ensures
        shown(host, scope, state.with_pieces(attribute_pieces(attribute))) == shown(
            host,
            scope,
            state,
        ) + attribute_text(host, scope, attribute),
{
    let pieces = attribute_pieces(attribute);
    if attribute.bool {
        let text = " "@ + escaped(attribute.name@);
        let body = seq![OpView::Write(text)];
        lemma_head_and_block_shown(
            host,
            scope,
            state,
            Seq::empty(),
            OpView::If(attribute.value),
            body,
        );
        assert(Seq::<Piece>::empty() + pieces == pieces);
        let inner = (host.within)(scope, attribute.value);
        assert(output(host, inner, body, Lead::Plain) == text) by {
            lemma_output_push(host, inner, Seq::empty(), OpView::Write(text), Lead::Plain);
            assert(Seq::<OpView>::empty().push(OpView::Write(text)) == body);
            assert(Seq::<char>::empty() + text == text);
        }
        assert(shown(host, scope, state) + Seq::<char>::empty() == shown(host, scope, state));
    } else {
        reveal_with_fuel(flat_text, 6);
        lemma_term_flat(host, scope, attribute.value);
        assert(all_flat(pieces));
        lemma_flat_shown(host, scope, state, pieces);
        assert(flat_text(host, scope, pieces) == attribute_text(host, scope, attribute));
    }
}

/// The attributes of an element that are taken in write what they come to.
proof fn lemma_attributes_shown(
    host: Host,
    scope: int,
    state: Pending,
    attributes: Seq<Attribute>,
)
    ensures
        shown(host, scope, state.with_pieces(attributes_pieces(attributes))) == shown(
            host,
            scope,
            state,
        ) + attributes_text(host, scope, attributes),
    decreases attributes.len(),
{
    if attributes.len() == 0 {
        assert(shown(host, scope, state) + Seq::<char>::empty() == shown(host, scope, state));
    } else {
        let init = attributes_pieces(attributes.drop_last());
        lemma_attributes_shown(host, scope, state, attributes.drop_last());
        lemma_attribute_shown(host, scope, state.with_pieces(init), attributes.last());
        lemma_then(
            host,
            scope,
            state,
            init,
            attribute_pieces(attributes.last()),
            attributes_text(host, scope, attributes.drop_last()),
            attribute_text(host, scope, attributes.last()),
        );
    }
}

/// The start tag of an element up to its attributes: the name, the id and the
/// classes.
spec fn opening_pieces(element: Element) -> Seq<Piece> {
    seq![Piece::Text("<"@), Piece::Text(escaped(element.name@))] + (match element.id {
        Some(id) => seq![Piece::Text(" id=\""@), term_piece(id), Piece::Text("\""@)],
        None => Seq::empty(),
    }) + (if element.classes@.len() == 0 {
        Seq::empty()
    } else {
        seq![Piece::Text(" class=\""@)] + classes_pieces(element.classes@) + seq![
            Piece::Text("\""@),
        ]
    })
}

/// The start of a start tag is flat and writes the name, the id and the
/// classes.
proof fn lemma_opening_flat(host: Host, scope: int, element: Element)
    ensures
        all_flat(opening_pieces(element)),
        flat_text(host, scope, opening_pieces(element)) == "<"@ + escaped(element.name@)
            + id_text(host, scope, element.id) + class_text(host, scope, element.classes@),
{
    reveal_with_fuel(flat_text, 4);
    let name = seq![Piece::Text("<"@), Piece::Text(escaped(element.name@))];
    let id = match element.id {
        Some(id) => seq![Piece::Text(" id=\""@), term_piece(id), Piece::Text("\""@)],
        None => Seq::empty(),
    };
    let classes = if element.classes@.len() == 0 {
        Seq::empty()
    } else {
        seq![Piece::Text(" class=\""@)] + classes_pieces(element.classes@) + seq![
            Piece::Text("\""@),
        ]
    };
    assert(all_flat(name));
    assert(flat_text(host, scope, name) == "<"@ + escaped(element.name@));
    assert(all_flat(id) && flat_text(host, scope, id) == id_text(host, scope, element.id)) by {
        if let Some(term) = element.id {
            lemma_term_flat(host, scope, term);
        }
    }
    assert(all_flat(classes) && flat_text(host, scope, classes) == class_text(
        host,
        scope,
        element.classes@,
    )) by {
        if element.classes@.len() > 0 {
            let open = seq![Piece::Text(" class=\""@)];
            let close = seq![Piece::Text("\""@)];
            lemma_classes_flat(host, scope, element.classes@);
            assert(all_flat(open));
            assert(all_flat(close));
            lemma_flat_concat(host, scope, open, classes_pieces(element.classes@));
            lemma_flat_concat(host, scope, open + classes_pieces(element.classes@), close);
            assert(flat_text(host, scope, open) == " class=\""@);
            assert(flat_text(host, scope, close) == "\""@);
        }
    }
    lemma_flat_concat(host, scope, name, id);
    lemma_flat_concat(host, scope, name + id, classes);
}

/// The start tag of an element that is taken in writes what it comes to.
proof fn lemma_start_tag_shown(host: Host, scope: int, state: Pending, element: Element)
    ensures
        shown(host, scope, state.with_pieces(start_tag_pieces(element))) == shown(
            host,
            scope,
            state,
        ) + start_tag_text(host, scope, element),
{
    reveal_with_fuel(flat_text, 2);
    let opening = opening_pieces(element);
    let attributes = attributes_pieces(element.attributes@);
    let close = seq![Piece::Text(">"@)];
    let opening_text = "<"@ + escaped(element.name@) + id_text(host, scope, element.id)
        + class_text(host, scope, element.classes@);
    lemma_opening_flat(host, scope, element);
    lemma_flat_shown(host, scope, state, opening);
    lemma_attributes_shown(host, scope, state.with_pieces(opening), element.attributes@);
    lemma_then(
        host,
        scope,
        state,
        opening,
        attributes,
        opening_text,
        attributes_text(host, scope, element.attributes@),
    );
    assert(all_flat(close));
    assert(flat_text(host, scope, close) == ">"@);
    lemma_flat_shown(host, scope, state.with_pieces(opening + attributes), close);
    lemma_then(
        host,
        scope,
        state,
        opening + attributes,
        close,
        opening_text + attributes_text(host, scope, element.attributes@),
        ">"@,
    );
    assert(start_tag_pieces(element) == opening + attributes + close);
}

/// The end tag of an element that is taken in writes what it comes to.
proof fn lemma_end_tag_shown(host: Host, scope: int, state: Pending, element: Element)
    ensures
        shown(host, scope, state.with_pieces(end_tag_pieces(element))) == shown(
            host,
            scope,
            state,
        ) + end_tag_text(element),
{
    reveal_with_fuel(flat_text, 4);
    assert(all_flat(end_tag_pieces(element)));
    lemma_flat_shown(host, scope, state, end_tag_pieces(element));
    assert(flat_text(host, scope, end_tag_pieces(element)) == end_tag_text(element));
}

/// Whether the test of any of the clauses holds.
pub open spec fn any_holds(host: Host, scope: int, clauses: Seq<IfClause>) -> bool
    decreases clauses.len(),
{
    clauses.len() > 0 && (any_holds(host, scope, clauses.drop_last()) || (host.holds)(
        scope,
        clauses.last().test,
    ))
}

/// A clause at the end of a chain decides what the chain falls back on.
proof fn lemma_chain_text_push(
    host: Host,
    scope: int,
    clauses: Seq<IfClause>,
    clause: IfClause,
    otherwise: Seq<char>,
)
    ensures
        chain_text(host, scope, clauses.push(clause), otherwise) == chain_text(
            host,
            scope,
            clauses,
            if (host.holds)(scope, clause.test) {
                nodes_text(host, (host.within)(scope, clause.test), clause.consequent@)
            } else {
                otherwise
            },
        ),
    decreases clauses.len(),
{
    let more = clauses.push(clause);
    if clauses.len() == 0 {
        assert(more.drop_first() == clauses);
        assert(more[0] == clause);
    } else {
        assert(more[0] == clauses[0]);
        assert(more.drop_first() == clauses.drop_first().push(clause));
        lemma_chain_text_push(host, scope, clauses.drop_first(), clause, otherwise);
    }
}

/// A chain falls back on `otherwise` exactly if none of its tests holds.
proof fn lemma_chain_decided(
    host: Host,
    scope: int,
    clauses: Seq<IfClause>,
    otherwise: Seq<char>,
)
    ensures
        chain_text(host, scope, clauses, otherwise) == if any_holds(host, scope, clauses) {
            chain_text(host, scope, clauses, Seq::empty())
        } else {
            otherwise
        },
    decreases clauses.len(),
{
    if clauses.len() > 0 {
        let init = clauses.drop_last();
        let last = clauses.last();
        let body = nodes_text(host, (host.within)(scope, last.test), last.consequent@);
        assert(init.push(last) == clauses);
        lemma_chain_text_push(host, scope, init, last, otherwise);
        lemma_chain_text_push(host, scope, init, last, Seq::empty());
        if (host.holds)(scope, last.test) {
            lemma_chain_decided(host, scope, init, body);
        } else {
            lemma_chain_decided(host, scope, init, otherwise);
            lemma_chain_decided(host, scope, init, Seq::empty());
        }
    }
}

/// Nodes that are taken in write what they say, behind all that was taken in
/// before them.
proof fn lemma_nodes_shown(host: Host, scope: int, state: Pending, nodes: Seq<Node>)
    requires
        well_formed(nodes),
    ensures
        shown(host, scope, state.with_pieces(nodes_pieces(nodes))) == shown(host, scope, state)
            + nodes_text(host, scope, nodes),
    decreases nodes, 0nat,
{
    if nodes.len() == 0 {
        assert(shown(host, scope, state) + Seq::<char>::empty() == shown(host, scope, state));
    } else {
        let init = nodes_pieces(nodes.drop_last());
        lemma_nodes_shown(host, scope, state, nodes.drop_last());
        lemma_node_shown(host, scope, state.with_pieces(init), nodes.last());
        lemma_then(
            host,
            scope,
            state,
            init,
            node_pieces(nodes.last()),
            nodes_text(host, scope, nodes.drop_last()),
            node_text(host, scope, nodes.last()),
        );
    }
}

proof fn lemma_node_shown(host: Host, scope: int, state: Pending, node: Node)
    requires
        node_well_formed(node),
    ensures
        shown(host, scope, state.with_pieces(node_pieces(node))) == shown(host, scope, state)
            + node_text(host, scope, node),
    decreases node, 1nat,
{
    match node {
        Node::Element(element) => {
            let start = start_tag_pieces(element);
            let children = nodes_pieces(element.children@);
            lemma_start_tag_shown(host, scope, state, element);
            lemma_nodes_shown(host, scope, state.with_pieces(start), element.children@);
            lemma_then(
                host,
                scope,
                state,
                start,
                children,
                start_tag_text(host, scope, element),
                nodes_text(host, scope, element.children@),
            );
            lemma_end_tag_shown(host, scope, state.with_pieces(start + children), element);
            lemma_then(
                host,
                scope,
                state,
                start + children,
                end_tag_pieces(element),
                start_tag_text(host, scope, element) + nodes_text(
                    host,
                    scope,
                    element.children@,
                ),
                end_tag_text(element),
            );
        },
        Node::Text(text) => {
            reveal_with_fuel(flat_text, 2);
            let pieces = seq![text_piece(text)];
            if let Text::Expr(term) = text {
                lemma_term_flat(host, scope, term);
            }
            assert(all_flat(pieces));
            lemma_flat_shown(host, scope, state, pieces);
            assert(flat_text(host, scope, pieces) == node_text(host, scope, node));
        },
        Node::If(branches) => {
            lemma_if_shown(host, scope, state, branches);
        },
        Node::For(each) => {
            let scopes = (host.rounds)(scope, each.pat, each.expr);
            lemma_head_and_block_shown(
                host,
                scope,
                state,
                Seq::empty(),
                OpView::For(each.pat, each.expr),
                lowered(each.body@),
            );
            assert(Seq::<Piece>::empty() + for_pieces(each) == for_pieces(each));
            lemma_each_shown(host, scopes, each.body@);
        },
    }
}

proof fn lemma_if_shown(host: Host, scope: int, state: Pending, branches: If)
    requires
        node_well_formed(Node::If(branches)),
    ensures
        shown(host, scope, state.with_pieces(if_pieces(branches))) == shown(host, scope, state)
            + node_text(host, scope, Node::If(branches)),
    decreases branches, 0nat,
{
    let clauses = branches.clauses@;
    let tested = clauses_pieces(clauses);
    let before = state.with_pieces(tested);
    let so_far = shown(host, scope, state);
    lemma_clauses_shown(host, scope, state, clauses);
    lemma_chain_decided(host, scope, clauses, Seq::empty());
    match branches.default {
        Some(nodes) => {
            let otherwise = nodes_text(host, scope, nodes@);
            lemma_head_and_block_shown(
                host,
                scope,
                state,
                tested,
                OpView::Else,
                lowered(nodes@),
            );
            lemma_lowered_output(host, scope, nodes@);
            lemma_chain_decided(host, scope, clauses, otherwise);
            if any_holds(host, scope, clauses) {
                assert(shown(host, scope, before) + Seq::<char>::empty() == shown(
                    host,
                    scope,
                    before,
                ));
            } else {
                assert((so_far + Seq::<char>::empty()) + otherwise == so_far + otherwise);
            }
        },
        None => {
            assert(tested + Seq::<Piece>::empty() == tested);
        },
    }
}

proof fn lemma_clauses_shown(host: Host, scope: int, state: Pending, clauses: Seq<IfClause>)
    requires
        clauses_well_formed(clauses),
    ensures
        ({
            let next = state.with_pieces(clauses_pieces(clauses));
            &&& shown(host, scope, next) == shown(host, scope, state) + chain_text(
                host,
                scope,
                clauses,
                Seq::empty(),
            )
            &&& clauses.len() > 0 ==> next.text.len() == 0 && lead_behind(host, scope, next)
                == (Lead::Chain { taken: any_holds(host, scope, clauses) })
        }),
    decreases clauses, 0nat,
{
    let so_far = shown(host, scope, state);
    if clauses.len() == 0 {
        assert(so_far + Seq::<char>::empty() == so_far);
    } else {
        let init = clauses.drop_last();
        let clause = clauses.last();
        let head = if clauses.len() == 1 {
            OpView::If(clause.test)
        } else {
            OpView::ElseIf(clause.test)
        };
        let inner = (host.within)(scope, clause.test);
        let body = nodes_text(host, inner, clause.consequent@);
        let empty = Seq::<char>::empty();
        assert(init.push(clause) == clauses);
        lemma_clauses_shown(host, scope, state, init);
        lemma_lowered_output(host, inner, clause.consequent@);
        lemma_head_and_block_shown(
            host,
            scope,
            state,
            clauses_pieces(init),
            head,
            lowered(clause.consequent@),
        );
        lemma_chain_text_push(host, scope, init, clause, empty);
        lemma_chain_decided(host, scope, init, body);
        lemma_chain_decided(host, scope, init, empty);
        let before = shown(host, scope, state.with_pieces(clauses_pieces(init)));
        if any_holds(host, scope, init) || !(host.holds)(scope, clause.test) {
            assert(before + empty == before);
        } else {
            assert((so_far + empty) + body == so_far + body);
        }
    }
}

/// Lowering is faithful: run against any host, in any scope, the operations
/// that well-formed nodes lower to write exactly what the nodes say should be
/// written. Gathering static text into writes, and folding literals into it,
/// changes nothing of the output.
pub proof fn lemma_lowered_output(host: Host, scope: int, nodes: Seq<Node>)
    requires
        well_formed(nodes),
    ensures
        output(host, scope, lowered(nodes), Lead::Plain) == nodes_text(host, scope, nodes),
    decreases nodes, 1nat,
{
    let state = Pending::empty().with_pieces(nodes_pieces(nodes));
    lemma_nodes_shown(host, scope, Pending::empty(), nodes);
    lemma_flush_keeps_output(host, scope, state);
    assert(shown(host, scope, Pending::empty()) == Seq::<char>::empty());
    assert(Seq::<char>::empty() + nodes_text(host, scope, nodes) == nodes_text(
        host,
        scope,
        nodes,
    ));
}

proof fn lemma_each_shown(host: Host, scopes: Seq<int>, body: Seq<Node>)
    requires
        well_formed(body),
    ensures
        output_each(host, scopes, lowered(body)) == each_text(host, scopes, body),
    decreases body, 2 + scopes.len(),
{
    if scopes.len() > 0 {
        lemma_each_shown(host, scopes.drop_last(), body);
        lemma_lowered_output(host, scopes.last(), body);
    }
}

/// What nodes say is what they say one after the other, and nodes are well
/// formed together if they are apart.
pub proof fn lemma_nodes_text_concat(host: Host, scope: int, first: Seq<Node>, second: Seq<Node>)
    ensures
        nodes_text(host, scope, first + second) == nodes_text(host, scope, first) + nodes_text(
            host,
            scope,
            second,
        ),
        well_formed(first + second) == (well_formed(first) && well_formed(second)),
    decreases second.len(),
{
    if second.len() == 0 {
        assert(first + second == first);
        assert(nodes_text(host, scope, first) + Seq::<char>::empty() == nodes_text(
            host,
            scope,
            first,
        ));
    } else {
        assert((first + second).drop_last() == first + second.drop_last());
        assert((first + second).last() == second.last());
        lemma_nodes_text_concat(host, scope, first, second.drop_last());
        assert((nodes_text(host, scope, first) + nodes_text(host, scope, second.drop_last()))
            + node_text(host, scope, second.last()) == nodes_text(host, scope, first)
            + nodes_text(host, scope, second));
    }
}

/// One node says what it says.
proof fn lemma_single_node(host: Host, scope: int, node: Node)
    ensures
        nodes_text(host, scope, seq![node]) == node_text(host, scope, node),
        well_formed(seq![node]) == node_well_formed(node),
{
    let nodes = seq![node];
    assert(nodes.drop_last() == Seq::<Node>::empty());
    assert(nodes.last() == node);
    assert(nodes_text(host, scope, nodes.drop_last()) == Seq::<char>::empty());
    assert(well_formed(nodes.drop_last()));
    assert(Seq::<char>::empty() + node_text(host, scope, node) == node_text(host, scope, node));
}

/// A chain whose clause `first` is the first with a test that holds comes to
/// the consequent of that clause.
proof fn lemma_chain_first(
    host: Host,
    scope: int,
    clauses: Seq<IfClause>,
    otherwise: Seq<char>,
    first: int,
)
    requires
        0 <= first < clauses.len(),
        (host.holds)(scope, clauses[first].test),
        forall|j: int| 0 <= j < first ==> !(host.holds)(scope, (#[trigger] clauses[j]).test),
    ensures
        chain_text(host, scope, clauses, otherwise) == nodes_text(
            host,
            (host.within)(scope, clauses[first].test),
            clauses[first].consequent@,
        ),
    decreases clauses.len(),
{
    if first > 0 {
        let rest = clauses.drop_first();
        assert(!(host.holds)(scope, clauses[0].test));
        assert(rest[first - 1] == clauses[first]);
        assert forall|j: int| 0 <= j < first - 1 implies !(host.holds)(
            scope,
            (#[trigger] rest[j]).test,
        ) by {
            assert(rest[j] == clauses[j + 1]);
        }
        lemma_chain_first(host, scope, rest, otherwise, first - 1);
    }
}

/// A chain none of whose tests holds comes to what it falls back on.
proof fn lemma_chain_none(host: Host, scope: int, clauses: Seq<IfClause>, otherwise: Seq<char>)
    requires
        forall|j: int|
            0 <= j < clauses.len() ==> !(host.holds)(scope, (#[trigger] clauses[j]).test),
    ensures
        chain_text(host, scope, clauses, otherwise) == otherwise,
    decreases clauses.len(),
{
    if clauses.len() > 0 {
        let rest = clauses.drop_first();
        assert(!(host.holds)(scope, clauses[0].test));
        assert forall|j: int| 0 <= j < rest.len() implies !(host.holds)(
            scope,
            (#[trigger] rest[j]).test,
        ) by {
            assert(rest[j] == clauses[j + 1]);
        }
        lemma_chain_none(host, scope, rest, otherwise);
    }
}

/// The consequent of every clause of well-formed clauses is well formed.
proof fn lemma_clause_well_formed(clauses: Seq<IfClause>, i: int)
    requires
        clauses_well_formed(clauses),
        0 <= i < clauses.len(),
    ensures
        well_formed(clauses[i].consequent@),
    decreases clauses.len(),
{
    if i < clauses.len() - 1 {
        assert(clauses.drop_last()[i] == clauses[i]);
        lemma_clause_well_formed(clauses.drop_last(), i);
    }
}

/// Of a chain of branches, the first clause whose test holds is the one that
/// runs, and no other branch does: the operations of the chain write what the
/// operations of that consequent write, in the scope that the test opens.
pub proof fn lemma_first_true_clause_runs(host: Host, scope: int, branches: If, first: int)
    requires
        node_well_formed(Node::If(branches)),
        0 <= first < branches.clauses@.len(),
        (host.holds)(scope, branches.clauses@[first].test),
        forall|j: int|
            0 <= j < first ==> !(host.holds)(scope, (#[trigger] branches.clauses@[j]).test),
    ensures
        output(host, scope, lowered(seq![Node::If(branches)]), Lead::Plain) == output(
            host,
            (host.within)(scope, branches.clauses@[first].test),
            lowered(branches.clauses@[first].consequent@),
            Lead::Plain,
        ),
{
    let node = Node::If(branches);
    let clause = branches.clauses@[first];
    let otherwise = match branches.default {
        Some(nodes) => nodes_text(host, scope, nodes@),
        None => Seq::empty(),
    };
    lemma_single_node(host, scope, node);
    lemma_lowered_output(host, scope, seq![node]);
    lemma_chain_first(host, scope, branches.clauses@, otherwise, first);
    lemma_clause_well_formed(branches.clauses@, first);
    lemma_lowered_output(host, (host.within)(scope, clause.test), clause.consequent@);
}

/// Of a chain of branches none of whose tests holds, the default runs if
/// there is one, and nothing runs if there is none.
pub proof fn lemma_default_runs(host: Host, scope: int, branches: If)
    requires
        node_well_formed(Node::If(branches)),
        forall|j: int|
            0 <= j < branches.clauses@.len() ==> !(host.holds)(
                scope,
                (#[trigger] branches.clauses@[j]).test,
            ),
    ensures
        output(host, scope, lowered(seq![Node::If(branches)]), Lead::Plain) == (
        match branches.default {
            Some(nodes) => output(host, scope, lowered(nodes@), Lead::Plain),
            None => Seq::empty(),
        }),
{
    let node = Node::If(branches);
    let otherwise = match branches.default {
        Some(nodes) => nodes_text(host, scope, nodes@),
        None => Seq::empty(),
    };
    lemma_single_node(host, scope, node);
    lemma_lowered_output(host, scope, seq![node]);
    lemma_chain_none(host, scope, branches.clauses@, otherwise);
    if let Some(nodes) = branches.default {
        lemma_lowered_output(host, scope, nodes@);
    }
}

/// An element with one boolean attribute and nothing else writes the
/// attribute as one space and its name, without `=`, if the value holds; if
/// not, neither the name nor a space.
pub proof fn lemma_boolean_attribute(host: Host, scope: int, element: Element)
    requires
        element.id is None,
        element.classes@.len() == 0,
        element.attributes@.len() == 1,
        element.attributes@[0].bool,
        element.children@.len() == 0,
    ensures
        output(host, scope, lowered(seq![Node::Element(element)]), Lead::Plain) == "<"@ + escaped(
            element.name@,
        ) + (if (host.holds)(scope, element.attributes@[0].value) {
            " "@ + escaped(element.attributes@[0].name@)
        } else {
            Seq::empty()
        }) + ">"@ + end_tag_text(element),
{
    let node = Node::Element(element);
    let attribute = element.attributes@[0];
    let name = "<"@ + escaped(element.name@);
    let written = attribute_text(host, scope, attribute);
    lemma_single_node(host, scope, node);
    lemma_lowered_output(host, scope, seq![node]);
    assert(element.attributes@.drop_last() == Seq::<Attribute>::empty());
    assert(attributes_text(host, scope, element.attributes@) == written) by {
        assert(attributes_text(host, scope, element.attributes@.drop_last()) == Seq::<
            char,
        >::empty());
        assert(Seq::<char>::empty() + written == written);
    }
    assert(start_tag_text(host, scope, element) == name + written + ">"@) by {
        let empty = Seq::<char>::empty();
        assert(name + empty + empty == name);
    }
    assert(name + written + ">"@ + Seq::<char>::empty() == name + written + ">"@);
}

/// A loop over no items writes nothing: with it or without it among their
/// nodes, templates write the same.
pub proof fn lemma_empty_loop(
    host: Host,
    scope: int,
    before: Seq<Node>,
    each: For,
    after: Seq<Node>,
)
    requires
        well_formed(before),
        well_formed(each.body@),
        well_formed(after),
        (host.rounds)(scope, each.pat, each.expr).len() == 0,
    ensures
        output(
            host,
            scope,
            lowered(before + seq![Node::For(each)] + after),
            Lead::Plain,
        ) == output(host, scope, lowered(before + after), Lead::Plain),
{
    let node = Node::For(each);
    let so_far = nodes_text(host, scope, before);
    lemma_single_node(host, scope, node);
    lemma_nodes_text_concat(host, scope, before, seq![node]);
    lemma_nodes_text_concat(host, scope, before + seq![node], after);
    lemma_nodes_text_concat(host, scope, before, after);
    lemma_lowered_output(host, scope, before + seq![node] + after);
    lemma_lowered_output(host, scope, before + after);
    assert(so_far + Seq::<char>::empty() == so_far);
}

/// A term that is a plain string literal and the literal text that it stands
/// for write the same, wherever they stand among the nodes.
pub proof fn lemma_literal_writes_as_text(
    host: Host,
    scope: int,
    before: Seq<Node>,
    term: syn::Expr,
    string: String,
    after: Seq<Node>,
)
    requires
        well_formed(before),
        well_formed(after),
        literal_text(term) == Some(string@),
    ensures
        output(
            host,
            scope,
            lowered(before + seq![Node::Text(Text::Expr(term))] + after),
            Lead::Plain,
        ) == output(
            host,
            scope,
            lowered(before + seq![Node::Text(Text::String(string))] + after),
            Lead::Plain,
        ),
{
    let by_term = Node::Text(Text::Expr(term));
    let by_text = Node::Text(Text::String(string));
    lemma_single_node(host, scope, by_term);
    lemma_single_node(host, scope, by_text);
    lemma_nodes_text_concat(host, scope, before, seq![by_term]);
    lemma_nodes_text_concat(host, scope, before + seq![by_term], after);
    lemma_nodes_text_concat(host, scope, before, seq![by_text]);
    lemma_nodes_text_concat(host, scope, before + seq![by_text], after);
    lemma_lowered_output(host, scope, before + seq![by_term] + after);
    lemma_lowered_output(host, scope, before + seq![by_text] + after);
}

} // verus!
