use crate::item_iterator::{ProcessedItem, path_names};
use crate::tokens::{Token, tokens_text, tokens_to_string};
use std::cmp::Ordering;
use vstd::prelude::*;

verus! {

/// A public item of an analyzed crate, i.e. an item that forms part of the
/// public API of a crate.
#[derive(PartialEq, Eq, Hash)]
pub struct PublicItem {
    /// The "your_crate::mod_a::mod_b" part of an item, split by "::".
    pub path: Vec<String>,
    /// The rendered item as a stream of tokens.
    pub tokens: Vec<Token>,
    /// The children of this item (which themselves are public items).
    pub children: Vec<PublicItem>,
    /// The `impl`s for this item (which themselves are public items).
    pub impls: Vec<PublicItem>,
}

/// The text an item is displayed as: the text of its tokens.
pub open spec fn item_text(item: PublicItem) -> Seq<char> {
    tokens_text(item.tokens@)
}

/// The token streams that are present, in order.
pub open spec fn present_streams(rendered: Seq<Option<Vec<Token>>>) -> Seq<Seq<Token>>
    decreases rendered.len(),
{
    if rendered.len() == 0 {
        Seq::empty()
    } else {
        let rest = present_streams(rendered.drop_last());
        match rendered.last() {
            Some(ts) => rest.push(ts@),
            None => rest,
        }
    }
}

/// Whether `item` is an impl entry with this token stream: no path, no
/// children and no impls of its own.
pub open spec fn is_bare_item(item: PublicItem, tokens: Seq<Token>) -> bool {
    &&& item.path@.len() == 0
    &&& item.tokens@ == tokens
    &&& item.children@.len() == 0
    &&& item.impls@.len() == 0
}

/// Lexicographic order on texts, by code point.
pub open spec fn text_lt(a: Seq<char>, b: Seq<char>) -> bool
    decreases a.len(),
{
    if a.len() == 0 {
        b.len() > 0
    } else if b.len() == 0 {
        false
    } else if a[0] != b[0] {
        (a[0] as int) < (b[0] as int)
    } else {
        text_lt(a.drop_first(), b.drop_first())
    }
}

fn char_lt(a: char, b: char) -> (res: bool)
    ensures
        res == ((a as int) < (b as int)),
{
    (a as u32) < (b as u32)
}

impl PublicItem {
    /// Builds the public item of an item whose path and token stream are
    /// given; `impl_renderings` holds, for each impl of the item, its token
    /// stream when the impl could be rendered. Every rendered impl becomes an
    /// impl entry of the item.
    pub fn from_intermediate_public_item(
        path: Vec<String>,
        tokens: Vec<Token>,
        impl_renderings: Vec<Option<Vec<Token>>>,
    ) -> (res: PublicItem)
        ensures
            res.path@ == path@,
            res.tokens@ == tokens@,
            res.children@.len() == 0,
            res.impls@.len() == present_streams(impl_renderings@).len(),
            forall|i: int|
                0 <= i < res.impls@.len() ==> is_bare_item(
                    #[trigger] res.impls@[i],
                    present_streams(impl_renderings@)[i],
                ),
    {
        let mut impls: Vec<PublicItem> = Vec::new();
        let ghost all = impl_renderings@;
        let mut rendered = impl_renderings;
        let mut remaining: Vec<Option<Vec<Token>>> = Vec::new();
        // Take the renderings from the back and keep them in their order.
        while rendered.len() > 0
            invariant
                all == rendered@ + remaining@.reverse(),
            decreases rendered.len(),
        {
            let r = rendered.pop().unwrap();
            remaining.push(r);
            assert(all =~= rendered@ + remaining@.reverse());
        }
        assert(remaining@.reverse() =~= all);
        let ghost done: Seq<Option<Vec<Token>>> = Seq::empty();
        while remaining.len() > 0
            invariant
                all == done + remaining@.reverse(),
                impls@.len() == present_streams(done).len(),
                forall|i: int|
                    0 <= i < impls@.len() ==> is_bare_item(#[trigger] impls@[i], present_streams(done)[i]),
            decreases remaining.len(),
        {
            let r = remaining.pop().unwrap();
            proof {
                assert(done.push(r).drop_last() =~= done);
            }
            match r {
                Some(impl_tokens) => {
                    impls.push(
                        PublicItem { path: Vec::new(), tokens: impl_tokens, children: Vec::new(), impls: Vec::new() },
                    );
                },
                None => {},
            }
            proof {
                done = done.push(r);
            }
            assert(all =~= done + remaining@.reverse());
        }
        assert(done =~= all);
        PublicItem { path, tokens, children: Vec::new(), impls }
    }

    /// The public item of an item that the walk reached, given the token
    /// stream its path renders to: its path is the names along the item's
    /// path.
    pub fn from_processed_item(item: &ProcessedItem, tokens: Vec<Token>) -> (res: PublicItem)
        ensures
            res.path@.map_values(|s: String| s@) == path_names(item@),
            res.tokens@ == tokens@,
            res.children@.len() == 0,
            res.impls@.len() == 0,
    {
        PublicItem { path: item.path_vec(), tokens, children: Vec::new(), impls: Vec::new() }
    }

    /// The rendered item as a stream of tokens.
    pub fn tokens(&self) -> (res: &[Token])
        ensures
            res@ == self.tokens@,
    {
        self.tokens.as_slice()
    }

    /// The text the item is displayed as: the text of its tokens in order.
    pub fn to_string(&self) -> (res: String)
        ensures
            res@ == item_text(*self),
    {
        tokens_to_string(self.tokens.as_slice())
    }

    /// Orders items by the text they are displayed as.
    pub fn cmp(&self, other: &PublicItem) -> (res: Ordering)
        ensures
            (res == Ordering::Less) == text_lt(item_text(*self), item_text(*other)),
            (res == Ordering::Equal) == (item_text(*self) == item_text(*other)),
            (res == Ordering::Greater) == text_lt(item_text(*other), item_text(*self)),
    {
        let a = self.to_string();
        let b = other.to_string();
        compare_texts(a.as_str(), b.as_str())
    }

    /// Orders items by the text they are displayed as; any two items are
    /// comparable.
    pub fn partial_cmp(&self, other: &PublicItem) -> (res: Option<Ordering>)
        ensures
            res is Some,
            (res == Some(Ordering::Less)) == text_lt(item_text(*self), item_text(*other)),
            (res == Some(Ordering::Equal)) == (item_text(*self) == item_text(*other)),
            (res == Some(Ordering::Greater)) == text_lt(item_text(*other), item_text(*self)),
    {
        Some(self.cmp(other))
    }
}

/// Compares two texts lexicographically by code point: -1 when `a` comes
/// first, 0 when they are equal, 1 when `b` comes first.
pub fn text_order(a: &str, b: &str) -> (res: i8)
    ensures
        (res == -1) == text_lt(a@, b@),
        (res == 0) == (a@ == b@),
        (res == 1) == text_lt(b@, a@),
        -1 <= res <= 1,
{
    let a_len = a.unicode_len();
    let b_len = b.unicode_len();
    let mut i: usize = 0;
    while i < a_len && i < b_len
        invariant
            a_len == a@.len(),
            b_len == b@.len(),
            i <= a_len,
            i <= b_len,
            a@.subrange(0, i as int) == b@.subrange(0, i as int),
        decreases a_len - i,
    {
        let ca = a.get_char(i);
        let cb = b.get_char(i);
        if ca != cb {
            proof {
                lemma_text_lt_after_common_prefix(a@, b@, i as int);
                lemma_text_lt_after_common_prefix(b@, a@, i as int);
            }
            if char_lt(ca, cb) {
                return -1;
            } else {
                return 1;
            }
        }
        assert(a@.subrange(0, i + 1) =~= a@.subrange(0, i as int).push(ca));
        assert(b@.subrange(0, i + 1) =~= b@.subrange(0, i as int).push(cb));
        i = i + 1;
    }
    proof {
        lemma_text_lt_after_common_prefix(a@, b@, i as int);
        lemma_text_lt_after_common_prefix(b@, a@, i as int);
        if a_len == b_len {
            assert(a@ =~= a@.subrange(0, i as int));
            assert(b@ =~= b@.subrange(0, i as int));
        }
    }
    if a_len < b_len {
        -1
    } else if a_len == b_len {
        0
    } else {
        1
    }
}

/// Compares two texts lexicographically by code point.
pub fn compare_texts(a: &str, b: &str) -> (res: Ordering)
    ensures
        (res == Ordering::Less) == text_lt(a@, b@),
        (res == Ordering::Equal) == (a@ == b@),
        (res == Ordering::Greater) == text_lt(b@, a@),
{
    let o = text_order(a, b);
    if o < 0 {
        Ordering::Less
    } else if o == 0 {
        Ordering::Equal
    } else {
        Ordering::Greater
    }
}

/// Comparing two texts that share a prefix of length `i` is comparing what
/// follows that prefix.
proof fn lemma_text_lt_after_common_prefix(a: Seq<char>, b: Seq<char>, i: int)
    requires
        0 <= i <= a.len(),
        i <= b.len(),
        a.subrange(0, i) == b.subrange(0, i),
    ensures
        text_lt(a, b) == text_lt(a.subrange(i, a.len() as int), b.subrange(i, b.len() as int)),
    decreases i,
{
    if i > 0 {
        assert(a[0] == a.subrange(0, i)[0]);
        assert(b[0] == b.subrange(0, i)[0]);
        assert(a.drop_first().subrange(0, i - 1) =~= a.subrange(0, i).drop_first());
        assert(b.drop_first().subrange(0, i - 1) =~= b.subrange(0, i).drop_first());
        lemma_text_lt_after_common_prefix(a.drop_first(), b.drop_first(), i - 1);
        assert(a.drop_first().subrange(i - 1, a.len() - 1) =~= a.subrange(i, a.len() as int));
        assert(b.drop_first().subrange(i - 1, b.len() - 1) =~= b.subrange(i, b.len() as int));
    } else {
        assert(a.subrange(0, a.len() as int) =~= a);
        assert(b.subrange(0, b.len() as int) =~= b);
    }
}


proof fn lemma_text_lt_irreflexive(a: Seq<char>)
    ensures
        !text_lt(a, a),
    decreases a.len(),
{
    if a.len() > 0 {
        lemma_text_lt_irreflexive(a.drop_first());
    }
}

proof fn lemma_text_lt_asymmetric(a: Seq<char>, b: Seq<char>)
    ensures
        text_lt(a, b) ==> !text_lt(b, a),
    decreases a.len(),
{
    if a.len() > 0 && b.len() > 0 && a[0] == b[0] {
        lemma_text_lt_asymmetric(a.drop_first(), b.drop_first());
    }
}

proof fn lemma_text_lt_transitive(a: Seq<char>, b: Seq<char>, c: Seq<char>)
    ensures
        text_lt(a, b) && text_lt(b, c) ==> text_lt(a, c),
    decreases a.len(),
{
    if a.len() > 0 && b.len() > 0 && c.len() > 0 && a[0] == b[0] && b[0] == c[0] {
        lemma_text_lt_transitive(a.drop_first(), b.drop_first(), c.drop_first());
    }
}

proof fn lemma_text_lt_total(a: Seq<char>, b: Seq<char>)
    ensures
        a == b || text_lt(a, b) || text_lt(b, a),
    decreases a.len(),
{
    if a.len() > 0 && b.len() > 0 {
        if a[0] == b[0] {
            lemma_text_lt_total(a.drop_first(), b.drop_first());
            if a.drop_first() == b.drop_first() {
                assert(a =~= seq![a[0]] + a.drop_first());
                assert(b =~= seq![b[0]] + b.drop_first());
            }
        } else {
            assert((a[0] as int) != (b[0] as int));
        }
    } else if a.len() == 0 && b.len() == 0 {
        assert(a =~= b);
    }
}

/// The order on texts is lexicographic by code point: a text comes before
/// every longer text it begins, and otherwise the first position where two
/// texts differ decides, whatever their lengths.
pub proof fn lemma_text_order_is_lexicographic(a: Seq<char>, b: Seq<char>, c: Seq<char>, k: int)
    ensures
        c.len() > 0 ==> text_lt(a, a + c),
        0 <= k < a.len() && k < b.len() && a.subrange(0, k) == b.subrange(0, k) && (a[k] as int) < (b[k] as int)
            ==> text_lt(a, b),
{
    if c.len() > 0 {
        lemma_text_lt_prefix(a, c);
    }
    if 0 <= k < a.len() && k < b.len() && a.subrange(0, k) == b.subrange(0, k) && (a[k] as int) < (b[k] as int) {
        lemma_text_lt_after_common_prefix(a, b, k);
        assert(a.subrange(k, a.len() as int)[0] == a[k]);
        assert(b.subrange(k, b.len() as int)[0] == b[k]);
    }
}

proof fn lemma_text_lt_prefix(a: Seq<char>, c: Seq<char>)
    requires
        c.len() > 0,
    ensures
        text_lt(a, a + c),
    decreases a.len(),
{
    if a.len() > 0 {
        assert((a + c)[0] == a[0]);
        assert((a + c).drop_first() =~= a.drop_first() + c);
        lemma_text_lt_prefix(a.drop_first(), c);
    }
}

/// Public items are totally ordered by the text they are displayed as: the
/// order is irreflexive, asymmetric and transitive, and any two items with
/// different texts are ordered one way or the other.
pub proof fn lemma_item_order_is_total(a: PublicItem, b: PublicItem, c: PublicItem)
    ensures
        !text_lt(item_text(a), item_text(a)),
        text_lt(item_text(a), item_text(b)) ==> !text_lt(item_text(b), item_text(a)),
        text_lt(item_text(a), item_text(b)) && text_lt(item_text(b), item_text(c)) ==> text_lt(
            item_text(a),
            item_text(c),
        ),
        item_text(a) == item_text(b) || text_lt(item_text(a), item_text(b)) || text_lt(
            item_text(b),
            item_text(a),
        ),
{
    lemma_text_lt_irreflexive(item_text(a));
    lemma_text_lt_asymmetric(item_text(a), item_text(b));
    lemma_text_lt_transitive(item_text(a), item_text(b), item_text(c));
    lemma_text_lt_total(item_text(a), item_text(b));
}

} // verus!
