//! Block storage of a layer set: a `SmallVec` of 64-bit words with one word
//! held inline, so that sets of the first 64 layers never allocate.
use core::cmp::Ordering;
use smallvec::SmallVec;
use vstd::prelude::*;

verus! {

/// A vector of 64-bit blocks backed by `SmallVec<[u64; 1]>`.
#[verifier::external_body]
#[derive(Debug, PartialEq, Eq, PartialOrd, Ord)]
pub struct BlockVec {
    inner: SmallVec<[u64; 1]>,
}

/// The words held by a block vector, first to last.
pub uninterp spec fn block_words(v: BlockVec) -> Seq<u64>;

/// Relies on `SmallVec::from_const`: an inline vector holding exactly the given array.
#[verifier::external_body]
pub(crate) fn blocks_from_word(w: u64) -> (r: BlockVec)
    ensures
        block_words(r) == seq![w],
{
    BlockVec { inner: SmallVec::from_const([w]) }
}

/// Relies on `SmallVec::new`: an empty vector.
#[verifier::external_body]
pub(crate) fn blocks_new() -> (r: BlockVec)
    ensures
        block_words(r) == Seq::<u64>::empty(),
{
    BlockVec { inner: SmallVec::new() }
}

/// Relies on `SmallVec::len`: the number of words held.
#[verifier::external_body]
pub(crate) fn blocks_len(v: &BlockVec) -> (r: usize)
    ensures
        r as int == block_words(*v).len(),
{
    v.inner.len()
}

/// Relies on `SmallVec`'s `Index<usize>`: the word at index `i`, which must be in bounds.
#[verifier::external_body]
pub(crate) fn blocks_get(v: &BlockVec, i: usize) -> (r: u64)
    requires
        (i as int) < block_words(*v).len(),
    ensures
        r == block_words(*v)[i as int],
{
    v.inner[i]
}

/// Relies on `SmallVec`'s `IndexMut<usize>`: overwrites the word at index `i`, which must be in bounds.
#[verifier::external_body]
pub(crate) fn blocks_set(v: &mut BlockVec, i: usize, w: u64)
    requires
        (i as int) < block_words(*old(v)).len(),
    ensures
        block_words(*final(v)) == block_words(*old(v)).update(i as int, w),
{
    v.inner[i] = w;
}

/// Relies on `SmallVec::push`: appends one word.
#[verifier::external_body]
pub(crate) fn blocks_push(v: &mut BlockVec, w: u64)
    ensures
        block_words(*final(v)) == block_words(*old(v)).push(w),
{
    v.inner.push(w);
}

/// Relies on `SmallVec::pop`: removes and returns the last word, `None` when empty.
#[verifier::external_body]
pub(crate) fn blocks_pop(v: &mut BlockVec) -> (r: Option<u64>)
    ensures
        block_words(*old(v)).len() == 0 ==> r is None && block_words(*final(v)) == block_words(
            *old(v),
        ),
        block_words(*old(v)).len() > 0 ==> r == Some(block_words(*old(v)).last())
            && block_words(*final(v)) == block_words(*old(v)).drop_last(),
{
    v.inner.pop()
}

/// Relies on `SmallVec::resize`: truncates to `len` words, or appends copies of `w` up to `len`.
#[verifier::external_body]
pub(crate) fn blocks_resize(v: &mut BlockVec, len: usize, w: u64)
    ensures
        block_words(*final(v)).len() == len,
        forall|i: int|
            0 <= i < len ==> #[trigger] block_words(*final(v))[i] == if i < block_words(
                *old(v),
            ).len() {
                block_words(*old(v))[i]
            } else {
                w
            },
{
    v.inner.resize(len, w);
}

/// Relies on `SmallVec::shrink_to_fit`: releases spare capacity, moving the words back inline
/// when they fit; the words themselves are kept.
#[verifier::external_body]
pub(crate) fn blocks_shrink_to_fit(v: &mut BlockVec)
    ensures
        block_words(*final(v)) == block_words(*old(v)),
{
    v.inner.shrink_to_fit();
}

/// Relies on `SmallVec`'s `Clone`: a vector holding the same words.
#[verifier::external_body]
pub(crate) fn blocks_clone(v: &BlockVec) -> (r: BlockVec)
    ensures
        block_words(r) == block_words(*v),
{
    BlockVec { inner: v.inner.clone() }
}

/// Relies on `SmallVec::as_slice`: a view of all words, first to last.
#[verifier::external_body]
pub(crate) fn blocks_as_slice(v: &BlockVec) -> (r: &[u64])
    ensures
        r@ == block_words(*v),
{
    v.inner.as_slice()
}

/// Relies on `SmallVec`'s `PartialEq`: equal exactly when the words are equal.
#[verifier::external_body]
pub(crate) fn blocks_eq(a: &BlockVec, b: &BlockVec) -> (r: bool)
    ensures
        r == (block_words(*a) == block_words(*b)),
{
    a.inner == b.inner
}

/// Lexicographic order of word sequences: the first differing word decides,
/// and a proper prefix comes first.
pub open spec fn lex_order(a: Seq<u64>, b: Seq<u64>) -> Ordering
    decreases a.len(),
{
    if a.len() == 0 {
        if b.len() == 0 {
            Ordering::Equal
        } else {
            Ordering::Less
        }
    } else if b.len() == 0 {
        Ordering::Greater
    } else if a[0] < b[0] {
        Ordering::Less
    } else if a[0] > b[0] {
        Ordering::Greater
    } else {
        lex_order(a.drop_first(), b.drop_first())
    }
}

/// Relies on `SmallVec`'s `Ord`, which compares the word slices, and so
/// lexicographically.
#[verifier::external_body]
pub(crate) fn blocks_cmp(a: &BlockVec, b: &BlockVec) -> (r: Ordering)
    ensures
        r == lex_order(block_words(*a), block_words(*b)),
{
    a.inner.cmp(&b.inner)
}

} // verus!
