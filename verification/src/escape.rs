//! Escaping of the four reserved markup characters.
use vstd::prelude::*;

verus! {

/// Whether a character is one of the four that markup reserves.
pub open spec fn is_reserved(ch: char) -> bool {
    ch == '&' || ch == '<' || ch == '>' || ch == '"'
}

/// What one character of static text becomes in the output: the four reserved
/// characters turn into their entities, every other character stays itself.
pub open spec fn escaped_char(ch: char) -> Seq<char> {
    if ch == '&' {
        seq!['&', 'a', 'm', 'p', ';']
    } else if ch == '<' {
        seq!['&', 'l', 't', ';']
    } else if ch == '>' {
        seq!['&', 'g', 't', ';']
    } else if ch == '"' {
        seq!['&', 'q', 'u', 'o', 't', ';']
    } else {
        seq![ch]
    }
}

/// The escaped form of a text: the escaped forms of its characters, in order.
pub open spec fn escaped(text: Seq<char>) -> Seq<char>
    decreases text.len(),
{
    if text.len() == 0 {
        Seq::empty()
    } else {
        escaped(text.drop_last()) + escaped_char(text.last())
    }
}

/// Escaping two texts one after the other is escaping them joined: nothing is
/// escaped across the seam, and nothing twice.
pub proof fn lemma_escaped_concat(first: Seq<char>, second: Seq<char>)
    ensures
        escaped(first + second) == escaped(first) + escaped(second),
    decreases second.len(),
{
    if second.len() == 0 {
        assert(first + second == first);
    } else {
        assert((first + second).drop_last() == first + second.drop_last());
        assert((first + second).last() == second.last());
        lemma_escaped_concat(first, second.drop_last());
    }
}

/// Every character of a text is replaced exactly once, where it stands: the
/// escaped text is the escaped text before the character, then what the
/// character becomes, then the escaped text behind it.
pub proof fn lemma_escaped_at(text: Seq<char>, i: int)
    requires
        0 <= i < text.len(),
    ensures
        escaped(text) == escaped(text.take(i)) + escaped_char(text[i]) + escaped(
            text.skip(i + 1),
        ),
{
    let head = text.take(i + 1);
    assert(text == head + text.skip(i + 1));
    assert(head.drop_last() == text.take(i));
    assert(head.last() == text[i]);
    lemma_escaped_concat(head, text.skip(i + 1));
}

/// A text without reserved characters is its own escaped form.
pub proof fn lemma_escaped_plain(text: Seq<char>)
    requires
        forall|i: int| 0 <= i < text.len() ==> !is_reserved(#[trigger] text[i]),
    ensures
        escaped(text) == text,
    decreases text.len(),
{
    if text.len() > 0 {
        lemma_escaped_plain(text.drop_last());
        assert(!is_reserved(text[text.len() - 1]));
        assert(text == text.drop_last() + seq![text.last()]);
    }
}

/// Escaped text holds none of `<`, `>` and `"`.
pub proof fn lemma_escaped_safe(text: Seq<char>)
    ensures
        forall|i: int|
            0 <= i < escaped(text).len() ==> {
                let ch = #[trigger] escaped(text)[i];
                ch != '<' && ch != '>' && ch != '"'
            },
    decreases text.len(),
{
    if text.len() > 0 {
        lemma_escaped_safe(text.drop_last());
        let head = escaped(text.drop_last());
        let tail = escaped_char(text.last());
        assert forall|i: int| 0 <= i < escaped(text).len() implies {
            let ch = #[trigger] escaped(text)[i];
            ch != '<' && ch != '>' && ch != '"'
        } by {
            if i < head.len() {
                assert(escaped(text)[i] == head[i]);
            } else {
                assert(escaped(text)[i] == tail[i - head.len()]);
            }
        }
    }
}

} // verus!
