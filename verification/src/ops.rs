//! The operations that lowering produces.
use vstd::prelude::*;

verus! {

/// One operation of a render body. A sequence of operations runs from left to
/// right against the sink.
#[derive(Debug, PartialEq)]
pub enum Op {
    /// Write this text to the sink, as it stands.
    Write(String),
    /// Render the value of this term into the sink.
    Render(syn::Expr),
    /// Run the following block if this test holds.
    If(syn::Expr),
    /// Run the following block if no earlier branch of the chain ran and this
    /// test holds.
    ElseIf(syn::Expr),
    /// Run the following block if no earlier branch of the chain ran.
    Else,
    /// Run the following block once for each item of the term, bound to the
    /// pattern.
    For(syn::Pat, syn::Expr),
    /// A group of operations with a scope of their own.
    Block(Vec<Op>),
}

/// The mathematical value of an operation.
pub enum OpView {
    Write(Seq<char>),
    Render(syn::Expr),
    If(syn::Expr),
    ElseIf(syn::Expr),
    Else,
    For(syn::Pat, syn::Expr),
    Block(Seq<OpView>),
}

impl View for Op {
    type V = OpView;

    open spec fn view(&self) -> OpView
        decreases self,
    {
        match self {
            Op::Write(text) => OpView::Write(text@),
            Op::Render(term) => OpView::Render(*term),
            Op::If(test) => OpView::If(*test),
            Op::ElseIf(test) => OpView::ElseIf(*test),
            Op::Else => OpView::Else,
            Op::For(pattern, items) => OpView::For(*pattern, *items),
            Op::Block(ops) => OpView::Block(
                Seq::new(
                    ops@.len(),
                    |i: int|
                        if 0 <= i < ops@.len() {
                            ops@[i].view()
                        } else {
                            OpView::Else
                        },
                ),
            ),
        }
    }
}

/// The values of a sequence of operations, in order.
pub open spec fn views(ops: Seq<Op>) -> Seq<OpView> {
    Seq::new(ops.len(), |i: int| ops[i]@)
}

} // verus!
