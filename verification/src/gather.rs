//! How a sequence of static texts and operations is gathered into operations:
//! neighbouring texts become one write, and the operations keep their order.
use crate::builder::Pending;
use crate::ops::OpView;
use vstd::prelude::*;

verus! {

/// One piece of what a node lowers to, before static text is gathered into
/// writes: some static text, or an operation.
pub enum Piece {
    Text(Seq<char>),
    Op(OpView),
}

impl Pending {
    /// A piece of static text joins the gathered text; an operation is emitted
    /// behind the flushed text.
    pub open spec fn with_piece(self, piece: Piece) -> Pending {
        match piece {
            Piece::Text(text) => self.with_text(text),
            Piece::Op(op) => self.with_ops(seq![op]),
        }
    }

    /// The pieces are taken in one after the other.
    pub open spec fn with_pieces(self, pieces: Seq<Piece>) -> Pending
        decreases pieces.len(),
    {
        if pieces.len() == 0 {
            self
        } else {
            self.with_pieces(pieces.drop_last()).with_piece(pieces.last())
        }
    }
}

/// The operations that a sequence of pieces comes to in a builder of its own.
pub open spec fn gathered(pieces: Seq<Piece>) -> Seq<OpView> {
    Pending::empty().with_pieces(pieces).flushed()
}

/// Taking in two sequences of pieces one after the other is taking in the
/// joined sequence.
pub proof fn lemma_with_pieces_concat(state: Pending, first: Seq<Piece>, second: Seq<Piece>)
    ensures
        state.with_pieces(first + second) == state.with_pieces(first).with_pieces(second),
    decreases second.len(),
{
    if second.len() == 0 {
        assert(first + second == first);
    } else {
        assert((first + second).drop_last() == first + second.drop_last());
        assert((first + second).last() == second.last());
        lemma_with_pieces_concat(state, first, second.drop_last());
    }
}

/// Taking in one more piece is taking it in last.
pub proof fn lemma_with_pieces_push(state: Pending, pieces: Seq<Piece>, piece: Piece)
    ensures
        state.with_pieces(pieces.push(piece)) == state.with_pieces(pieces).with_piece(piece),
{
    assert(pieces.push(piece).drop_last() == pieces);
}

/// The static text behind the last operation among the pieces: the run that is
/// still open.
pub open spec fn trailing(pieces: Seq<Piece>) -> Seq<char>
    decreases pieces.len(),
{
    if pieces.len() == 0 {
        Seq::empty()
    } else {
        match pieces.last() {
            Piece::Text(text) => trailing(pieces.drop_last()) + text,
            Piece::Op(_) => Seq::empty(),
        }
    }
}

/// A run of static text counts if it holds any text.
pub open spec fn run_of(text: Seq<char>) -> Seq<Seq<char>> {
    if text.len() == 0 {
        Seq::empty()
    } else {
        seq![text]
    }
}

/// The runs of static text that an operation closes, in order: each is the
/// text of all the neighbouring text pieces in front of that operation.
pub open spec fn closed_runs(pieces: Seq<Piece>) -> Seq<Seq<char>>
    decreases pieces.len(),
{
    if pieces.len() == 0 {
        Seq::empty()
    } else {
        match pieces.last() {
            Piece::Text(_) => closed_runs(pieces.drop_last()),
            Piece::Op(_) => closed_runs(pieces.drop_last()) + run_of(
                trailing(pieces.drop_last()),
            ),
        }
    }
}

/// The maximal runs of neighbouring static text among the pieces, in order,
/// but for those that hold no text.
pub open spec fn runs(pieces: Seq<Piece>) -> Seq<Seq<char>> {
    closed_runs(pieces) + run_of(trailing(pieces))
}

/// The operations among the pieces, in order.
pub open spec fn operations(pieces: Seq<Piece>) -> Seq<OpView>
    decreases pieces.len(),
{
    if pieces.len() == 0 {
        Seq::empty()
    } else {
        match pieces.last() {
            Piece::Text(_) => operations(pieces.drop_last()),
            Piece::Op(op) => operations(pieces.drop_last()).push(op),
        }
    }
}

/// The texts of the writes among the operations, in order.
pub open spec fn written(ops: Seq<OpView>) -> Seq<Seq<char>>
    decreases ops.len(),
{
    if ops.len() == 0 {
        Seq::empty()
    } else {
        match ops.last() {
            OpView::Write(text) => written(ops.drop_last()).push(text),
            _ => written(ops.drop_last()),
        }
    }
}

/// The operations that are no writes, in order.
pub open spec fn dynamic(ops: Seq<OpView>) -> Seq<OpView>
    decreases ops.len(),
{
    if ops.len() == 0 {
        Seq::empty()
    } else {
        match ops.last() {
            OpView::Write(_) => dynamic(ops.drop_last()),
            op => dynamic(ops.drop_last()).push(op),
        }
    }
}

/// No write is empty, and no write stands next to another.
pub open spec fn tight(ops: Seq<OpView>) -> bool {
    &&& forall|i: int|
        0 <= i < ops.len() ==> (#[trigger] ops[i] matches OpView::Write(text) ==> text.len() > 0)
    &&& forall|i: int, j: int|
        0 <= i && j == i + 1 && j < ops.len() ==> !(#[trigger] ops[i] is Write
            && #[trigger] ops[j] is Write)
}

/// The operations are tight, and so are those of every block among them, at
/// every depth.
pub open spec fn deep_tight(ops: Seq<OpView>) -> bool
    decreases ops,
{
    tight(ops) && forall|i: int|
        0 <= i < ops.len() ==> (#[trigger] ops[i] matches OpView::Block(inner) ==> deep_tight(
            inner,
        ))
}

/// None of the pieces is a write: static text comes as text pieces.
pub open spec fn no_write_among(pieces: Seq<Piece>) -> bool {
    forall|i: int|
        0 <= i < pieces.len() ==> !(#[trigger] pieces[i] matches Piece::Op(op) && op is Write)
}

/// None of the pieces is a write, and the blocks among them are tight at every
/// depth.
pub open spec fn clean(pieces: Seq<Piece>) -> bool {
    no_write_among(pieces) && forall|i: int|
        0 <= i < pieces.len() ==> (#[trigger] pieces[i] matches Piece::Op(OpView::Block(inner))
            ==> deep_tight(inner))
}

/// Whether an operation can stand behind tight operations and leave them
/// tight.
pub open spec fn fits_behind(ops: Seq<OpView>, op: OpView) -> bool {
    op matches OpView::Write(text) ==> text.len() > 0 && (ops.len() > 0 ==> !(ops.last() is Write))
}

proof fn lemma_tight_push(ops: Seq<OpView>, op: OpView)
    requires
        tight(ops),
        fits_behind(ops, op),
    ensures
        tight(ops.push(op)),
{
    let more = ops.push(op);
    assert forall|i: int| 0 <= i < more.len() implies (#[trigger] more[i] matches OpView::Write(
        text,
    ) ==> text.len() > 0) by {
        if i < ops.len() {
            assert(more[i] == ops[i]);
        }
    }
    assert forall|i: int, j: int| 0 <= i && j == i + 1 && j < more.len() implies !(
        #[trigger] more[i] is Write && #[trigger] more[j] is Write
    ) by {
        assert(more[i] == ops[i]);
        if j < ops.len() {
            assert(more[j] == ops[j]);
        }
    }
}

proof fn lemma_deep_tight_push(ops: Seq<OpView>, op: OpView)
    requires
        deep_tight(ops),
        fits_behind(ops, op),
        op matches OpView::Block(inner) ==> deep_tight(inner),
    ensures
        deep_tight(ops.push(op)),
{
    lemma_tight_push(ops, op);
    let more = ops.push(op);
    assert forall|i: int| 0 <= i < more.len() implies (#[trigger] more[i] matches OpView::Block(
        inner,
    ) ==> deep_tight(inner)) by {
        if i < ops.len() {
            assert(more[i] == ops[i]);
        }
    }
}

proof fn lemma_clean_drop_last(pieces: Seq<Piece>)
    requires
        pieces.len() > 0,
    ensures
        no_write_among(pieces) ==> no_write_among(pieces.drop_last()),
        clean(pieces) ==> clean(pieces.drop_last()),
{
    let init = pieces.drop_last();
    if no_write_among(pieces) {
        assert forall|i: int| 0 <= i < init.len() implies !(#[trigger] init[i] matches Piece::Op(
            op,
        ) && op is Write) by {
            assert(init[i] == pieces[i]);
        }
    }
    if clean(pieces) {
        assert forall|i: int| 0 <= i < init.len() implies (#[trigger] init[i] matches Piece::Op(
            OpView::Block(inner),
        ) ==> deep_tight(inner)) by {
            assert(init[i] == pieces[i]);
        }
    }
}

/// What holds of the text and the writes of a builder that has taken in pieces
/// from empty.
proof fn lemma_taken_in(pieces: Seq<Piece>)
    requires
        no_write_among(pieces),
    ensures
        ({
            let state = Pending::empty().with_pieces(pieces);
            &&& state.text == trailing(pieces)
            &&& written(state.ops) == closed_runs(pieces)
            &&& dynamic(state.ops) == operations(pieces)
            &&& tight(state.ops)
            &&& state.ops.len() > 0 ==> !(state.ops.last() is Write)
        }),
    decreases pieces.len(),
{
    if pieces.len() > 0 {
        let init = pieces.drop_last();
        let before = Pending::empty().with_pieces(init);
        let state = Pending::empty().with_pieces(pieces);
        lemma_clean_drop_last(pieces);
        lemma_taken_in(init);
        match pieces.last() {
            Piece::Text(text) => {},
            Piece::Op(op) => {
                assert(pieces[pieces.len() - 1] == Piece::Op(op));
                let flushed = before.flushed();
                assert(state.ops == flushed.push(op));
                assert(flushed.push(op).drop_last() == flushed);
                if before.text.len() > 0 {
                    assert(flushed.drop_last() == before.ops);
                    lemma_tight_push(before.ops, OpView::Write(before.text));
                    assert(written(flushed) == closed_runs(init).push(before.text));
                    assert(closed_runs(init).push(before.text) == closed_runs(init) + run_of(
                        before.text,
                    ));
                    assert(dynamic(flushed) == dynamic(before.ops));
                } else {
                    assert(closed_runs(init) + run_of(before.text) == closed_runs(init));
                }
                lemma_tight_push(flushed, op);
                assert(written(state.ops) == written(flushed));
                assert(dynamic(state.ops) == dynamic(flushed).push(op));
            },
        }
    }
}

/// The blocks of a builder that has taken in clean pieces from empty are tight
/// at every depth.
proof fn lemma_taken_in_clean(pieces: Seq<Piece>)
    requires
        clean(pieces),
    ensures
        deep_tight(Pending::empty().with_pieces(pieces).ops),
    decreases pieces.len(),
{
    lemma_taken_in(pieces);
    if pieces.len() > 0 {
        let init = pieces.drop_last();
        let before = Pending::empty().with_pieces(init);
        let state = Pending::empty().with_pieces(pieces);
        lemma_clean_drop_last(pieces);
        lemma_taken_in(init);
        lemma_taken_in_clean(init);
        match pieces.last() {
            Piece::Text(text) => {},
            Piece::Op(op) => {
                assert(pieces[pieces.len() - 1] == Piece::Op(op));
                let flushed = before.flushed();
                assert(state.ops == flushed.push(op));
                if before.text.len() > 0 {
                    lemma_deep_tight_push(before.ops, OpView::Write(before.text));
                }
                lemma_deep_tight_push(flushed, op);
            },
        }
    }
}

/// Gathering makes one write of each maximal run of static text that holds any
/// text, and of nothing else; the operations among the pieces come out
/// unchanged and in order; no write comes out empty or next to another write.
pub proof fn lemma_gathered_runs(pieces: Seq<Piece>)
    requires
        no_write_among(pieces),
    ensures
        written(gathered(pieces)) == runs(pieces),
        dynamic(gathered(pieces)) == operations(pieces),
        tight(gathered(pieces)),
        gathered(pieces).len() == runs(pieces).len() + operations(pieces).len(),
{
    lemma_taken_in(pieces);
    let state = Pending::empty().with_pieces(pieces);
    if state.text.len() > 0 {
        assert(state.flushed().drop_last() == state.ops);
        lemma_tight_push(state.ops, OpView::Write(state.text));
    }
    lemma_written_and_dynamic(gathered(pieces));
}

/// Gathering clean pieces gives operations that are tight at every depth.
pub proof fn lemma_gathered_clean(pieces: Seq<Piece>)
    requires
        clean(pieces),
    ensures
        deep_tight(gathered(pieces)),
{
    lemma_taken_in(pieces);
    lemma_taken_in_clean(pieces);
    let state = Pending::empty().with_pieces(pieces);
    if state.text.len() > 0 {
        lemma_deep_tight_push(state.ops, OpView::Write(state.text));
    }
}

/// Clean pieces behind clean pieces are clean.
pub proof fn lemma_clean_concat(first: Seq<Piece>, second: Seq<Piece>)
    requires
        clean(first),
        clean(second),
    ensures
        clean(first + second),
{
    let all = first + second;
    assert forall|i: int| 0 <= i < all.len() implies !(#[trigger] all[i] matches Piece::Op(op)
        && op is Write) by {
        if i < first.len() {
            assert(all[i] == first[i]);
        } else {
            assert(all[i] == second[i - first.len()]);
        }
    }
    assert forall|i: int| 0 <= i < all.len() implies (#[trigger] all[i] matches Piece::Op(
        OpView::Block(inner),
    ) ==> deep_tight(inner)) by {
        if i < first.len() {
            assert(all[i] == first[i]);
        } else {
            assert(all[i] == second[i - first.len()]);
        }
    }
}

/// The writes and the other operations are all the operations there are.
pub proof fn lemma_written_and_dynamic(ops: Seq<OpView>)
    ensures
        written(ops).len() + dynamic(ops).len() == ops.len(),
    decreases ops.len(),
{
    if ops.len() > 0 {
        lemma_written_and_dynamic(ops.drop_last());
    }
}

} // verus!
