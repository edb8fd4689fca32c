//! Texts built from pieces.
use vstd::prelude::*;

verus! {

/// The pieces written one after the other.
pub open spec fn concat(pieces: Seq<Seq<char>>) -> Seq<char>
    decreases pieces.len(),
{
    if pieces.len() == 0 {
        Seq::empty()
    } else {
        concat(pieces.drop_last()) + pieces.last()
    }
}

/// The pieces written one after the other, each followed by a newline.
pub open spec fn lines_text(pieces: Seq<Seq<char>>) -> Seq<char>
    decreases pieces.len(),
{
    if pieces.len() == 0 {
        Seq::empty()
    } else {
        lines_text(pieces.drop_last()) + pieces.last() + seq!['\n']
    }
}

/// Adding a piece at the end adds it at the end of the text.
pub proof fn lemma_concat_push(pieces: Seq<Seq<char>>, p: Seq<char>)
    ensures
        concat(pieces.push(p)) == concat(pieces) + p,
        lines_text(pieces.push(p)) == lines_text(pieces) + p + seq!['\n'],
{
    assert(pieces.push(p).drop_last() =~= pieces);
}

/// Writing two lists of pieces one after the other writes the text of the
/// first, then the text of the second.
pub proof fn lemma_concat_append(a: Seq<Seq<char>>, b: Seq<Seq<char>>)
    ensures
        concat(a + b) == concat(a) + concat(b),
    decreases b.len(),
{
    if b.len() == 0 {
        assert(a + b =~= a);
        assert(concat(a) + concat(b) =~= concat(a));
    } else {
        lemma_concat_append(a, b.drop_last());
        assert((a + b).drop_last() =~= a + b.drop_last());
        assert((a + b).last() == b.last());
        assert(concat(a) + concat(b) =~= concat(a) + concat(b.drop_last()) + b.last());
    }
}

} // verus!
