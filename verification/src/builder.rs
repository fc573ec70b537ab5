//! The buffer that gathers static text and decides where it is flushed.
use crate::escape::escaped;
use crate::ops::{views, Op, OpView};
use crate::terms::{literal_text, string_literal};
use vstd::prelude::*;

verus! {

/// What a builder holds: the operations emitted so far, and the static text
/// gathered since the last of them, which no operation carries yet.
pub struct Pending {
    pub ops: Seq<OpView>,
    pub text: Seq<char>,
}

impl Pending {
    /// Nothing emitted, nothing gathered.
    pub open spec fn empty() -> Pending {
        Pending { ops: Seq::empty(), text: Seq::empty() }
    }

    /// The operations once the gathered text is flushed: it becomes one write,
    /// unless there is none.
    pub open spec fn flushed(self) -> Seq<OpView> {
        if self.text.len() == 0 {
            self.ops
        } else {
            self.ops.push(OpView::Write(self.text))
        }
    }

    /// Static text joins the gathered text; no operation is emitted.
    pub open spec fn with_text(self, text: Seq<char>) -> Pending {
        Pending { ops: self.ops, text: self.text + text }
    }

    /// Operations are emitted behind the flushed text, verbatim.
    pub open spec fn with_ops(self, ops: Seq<OpView>) -> Pending {
        Pending { ops: self.flushed() + ops, text: Seq::empty() }
    }

    /// A finished block is emitted as one operation. The gathered text is
    /// neither flushed nor changed.
    pub open spec fn with_block(self, block: Seq<OpView>) -> Pending {
        Pending { ops: self.ops.push(OpView::Block(block)), text: self.text }
    }

    /// A term that is a plain string literal is folded into the static text,
    /// escaped; any other term is rendered at run time.
    pub open spec fn with_term(self, term: syn::Expr) -> Pending {
        match literal_text(term) {
            Some(text) => self.with_text(escaped(text)),
            None => self.with_ops(seq![OpView::Render(term)]),
        }
    }
}

/// Gathers the static text of a render body and emits its operations.
pub struct Builder {
    ops: Vec<Op>,
    buffer: String,
}

impl View for Builder {
    type V = Pending;

    closed spec fn view(&self) -> Pending {
        Pending { ops: views(self.ops@), text: self.buffer@ }
    }
}

pub assume_specification[ std::string::String::push ](
    buffer: &mut std::string::String,
    ch: char,
)
    ensures
        final(buffer)@ == old(buffer)@.push(ch),
;

/// The value of a block is the block of the values of its operations.
pub proof fn lemma_block_view(ops: Vec<Op>)
    ensures
        Op::Block(ops)@ == OpView::Block(views(ops@)),
{
    assert(Op::Block(ops)@->Block_0 =~= views(ops@));
}

impl Default for Builder {
    fn default() -> (builder: Builder)
        ensures
            builder@ == Pending::empty(),
    {
        let builder = Builder { ops: Vec::new(), buffer: String::new() };
        assert(builder@.ops =~= Seq::empty());
        builder
    }
}

impl Builder {
    /// Appends text to the static buffer as it stands.
    pub fn raw(&mut self, text: &str)
        ensures
            final(self)@ == old(self)@.with_text(text@),
    {
        self.buffer.append(text);
    }

    /// Appends text to the static buffer, escaped character by character.
    pub fn str(&mut self, text: &str)
        ensures
            final(self)@ == old(self)@.with_text(escaped(text@)),
    {
        let ghost start = self.buffer@;
        proof {
            assert(text@.take(0) == Seq::<char>::empty());
        }
        for ch in it: text.chars()
            invariant
                it.seq() == text@,
                self.ops == old(self).ops,
                self.buffer@ == start + escaped(text@.take(it.index())),
        {
            proof {
                let n = it.index();
                reveal_strlit("&amp;");
                reveal_strlit("&lt;");
                reveal_strlit("&gt;");
                reveal_strlit("&quot;");
                assert(text@.take(n + 1).drop_last() == text@.take(n));
                assert(text@.take(n + 1).last() == ch);
            }
            match ch {
                '&' => self.buffer.append("&amp;"),
                '<' => self.buffer.append("&lt;"),
                '>' => self.buffer.append("&gt;"),
                '"' => self.buffer.append("&quot;"),
                _ => self.buffer.push(ch),
            }
        }
        proof {
            assert(text@.take(text@.len() as int) == text@);
        }
    }

    /// Takes in a term: a plain string literal is folded into the static
    /// buffer, escaped; for any other term the buffer is flushed and the
    /// operation that renders the term is emitted.
    pub fn expr(&mut self, expr: &syn::Expr)
        ensures
            final(self)@ == old(self)@.with_term(*expr),
    {
        self.folded(string_literal(expr), expr)
    }

    /// Takes in a term of which `literal` was read: the text to fold into the
    /// static buffer, escaped, or `None` if the term is to be rendered at run
    /// time.
    pub fn folded(&mut self, literal: Option<String>, expr: &syn::Expr)
        ensures
            final(self)@ == (match literal {
                Some(text) => old(self)@.with_text(escaped(text@)),
                None => old(self)@.with_ops(seq![OpView::Render(*expr)]),
            }),
    {
        match literal {
            Some(text) => self.str(text.as_str()),
            None => {
                let ops = vec![Op::Render(expr.clone())];
                assert(views(ops@) =~= seq![OpView::Render(*expr)]);
                self.extend(ops)
            },
        }
    }

    /// Flushes the static buffer, as one write if it holds any text, and then
    /// appends the given operations verbatim.
    pub fn extend(&mut self, ops: Vec<Op>)
        ensures
            final(self)@ == old(self)@.with_ops(views(ops@)),
    {
        let ghost added = views(ops@);
        let mut ops = ops;
        if !self.buffer.as_str().is_empty() {
            let mut text = String::new();
            std::mem::swap(&mut text, &mut self.buffer);
            self.ops.push(Op::Write(text));
        }
        assert(views(self.ops@) =~= old(self)@.flushed());
        self.ops.append(&mut ops);
        assert(views(self.ops@) =~= old(self)@.flushed() + added);
        assert(self.buffer@ =~= Seq::empty());
    }

    /// Finishes a builder of its own and appends what it built as one block.
    /// The static buffer of `self` is left as it is.
    pub fn paren(&mut self, scope: Builder)
        ensures
            final(self)@ == old(self)@.with_block(scope@.flushed()),
    {
        let block = scope.finish();
        proof {
            lemma_block_view(block);
        }
        self.ops.push(Op::Block(block));
        assert(views(self.ops@) =~= views(old(self).ops@).push(OpView::Block(scope@.flushed())));
    }

    /// Flushes what is left in the static buffer and hands out the operations.
    pub fn finish(self) -> (ops: Vec<Op>)
        ensures
            views(ops@) == self@.flushed(),
    {
        let mut builder = self;
        builder.extend(Vec::new());
        assert(self@.flushed() + views(Seq::<Op>::empty()) =~= self@.flushed());
        builder.ops
    }
}

} // verus!
