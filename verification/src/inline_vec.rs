use vstd::prelude::*;
use smallvec::SmallVec;

verus! {

/// A `smallvec::SmallVec<[u64; 16]>` of words, held opaquely; what it holds is `words_of`.
#[verifier::external_body]
pub struct WordVec {
    inner: SmallVec<[u64; 16]>,
}

/// The sequence of words held by a `WordVec`.
pub uninterp spec fn words_of(v: WordVec) -> Seq<u64>;

/// Calls `SmallVec::from_elem(elem, n)`: `n` copies of `elem`.
#[verifier::external_body]
pub(crate) fn words_from_elem(elem: u64, n: usize) -> (r: WordVec)
    ensures
        words_of(r) == Seq::new(n as nat, |i: int| elem),
{
    WordVec { inner: SmallVec::from_elem(elem, n) }
}

/// Calls `SmallVec::len`.
#[verifier::external_body]
pub(crate) fn words_len(v: &WordVec) -> (r: usize)
    ensures
        r == words_of(*v).len(),
{
    v.inner.len()
}

/// Calls `SmallVec::new`: an empty vector.
#[verifier::external_body]
pub(crate) fn words_new() -> (r: WordVec)
    ensures
        words_of(r) == Seq::<u64>::empty(),
{
    WordVec { inner: SmallVec::new() }
}

/// Calls `SmallVec::push`: appends `w`.
#[verifier::external_body]
pub(crate) fn words_push(v: &mut WordVec, w: u64)
    ensures
        words_of(*final(v)) == words_of(*old(v)).push(w),
{
    v.inner.push(w)
}

/// Reads entry `i` through `SmallVec`'s `Index`.
#[verifier::external_body]
pub(crate) fn words_get(v: &WordVec, i: usize) -> (r: u64)
    requires
        i < words_of(*v).len(),
    ensures
        r == words_of(*v)[i as int],
{
    v.inner[i]
}

/// Writes entry `i` through `SmallVec`'s `IndexMut`.
#[verifier::external_body]
pub(crate) fn words_set(v: &mut WordVec, i: usize, w: u64)
    requires
        i < words_of(*old(v)).len(),
    ensures
        words_of(*final(v)) == words_of(*old(v)).update(i as int, w),
{
    v.inner[i] = w
}

/// Calls `SmallVec::clone`: a copy holding the same words.
#[verifier::external_body]
pub(crate) fn words_clone(v: &WordVec) -> (r: WordVec)
    ensures
        words_of(r) == words_of(*v),
{
    WordVec { inner: v.inner.clone() }
}

/// Calls `SmallVec::as_slice`: the words as a slice.
#[verifier::external_body]
pub(crate) fn words_as_slice(v: &WordVec) -> (r: &[u64])
    ensures
        r@ == words_of(*v),
{
    v.inner.as_slice()
}

} // verus!

verus! {

/// A `smallvec::SmallVec<[usize; 8]>` neighbour list, held opaquely; what it holds is
/// `neighbor_list_of`.
#[verifier::external_body]
pub struct NeighborList {
    inner: SmallVec<[usize; 8]>,
}

/// The sequence of tiles held by a `NeighborList`.
pub uninterp spec fn neighbor_list_of(l: NeighborList) -> Seq<usize>;

/// Calls `SmallVec::from_slice`: a list holding a copy of `s`.
#[verifier::external_body]
pub(crate) fn neighbor_list_from_slice(s: &[usize]) -> (r: NeighborList)
    ensures
        neighbor_list_of(r) == s@,
{
    NeighborList { inner: SmallVec::from_slice(s) }
}

/// Calls `SmallVec::to_vec`: a `Vec` holding a copy of the list.
#[verifier::external_body]
pub(crate) fn neighbor_list_to_vec(l: &NeighborList) -> (r: Vec<usize>)
    ensures
        r@ == neighbor_list_of(*l),
{
    l.inner.to_vec()
}

/// Calls `SmallVec::clone`: a copy holding the same tiles.
#[verifier::external_body]
pub(crate) fn neighbor_list_clone(l: &NeighborList) -> (r: NeighborList)
    ensures
        neighbor_list_of(r) == neighbor_list_of(*l),
{
    NeighborList { inner: l.inner.clone() }
}

} // verus!
