use vstd::prelude::*;
use vstd::std_specs::iter::IteratorSpec;

verus! {

/// `Iterator::next` of the standard library, on the iterator over a hash map:
/// it hands out the first of the entries that are left and leaves the others, or
/// `None` where none is left. What is left is what vstd's model of iterators
/// calls `remaining`.
#[verifier::external_body]
pub(crate) fn next_hash_entry<'a, K, V>(it: &mut std::collections::hash_map::Iter<'a, K, V>) -> (r:
    Option<(&'a K, &'a V)>)
    ensures
        (*old(it)).remaining().len() > 0 ==> r == Some((*old(it)).remaining()[0]) && (*final(it)).remaining() == (*old(it)).remaining().drop_first(),
        (*old(it)).remaining().len() == 0 ==> r is None && (*final(it)).remaining() == (*old(it)).remaining(),
{
    it.next()
}

/// `Iterator::next` of the standard library, on the iterator over a hash set:
/// it hands out the first of the items that are left and leaves the others, or
/// `None` where none is left.
#[verifier::external_body]
pub(crate) fn next_hash_item<'a, K>(it: &mut std::collections::hash_set::Iter<'a, K>) -> (r: Option<
    &'a K,
>)
    ensures
        (*old(it)).remaining().len() > 0 ==> r == Some((*old(it)).remaining()[0]) && (*final(it)).remaining() == (*old(it)).remaining().drop_first(),
        (*old(it)).remaining().len() == 0 ==> r is None && (*final(it)).remaining() == (*old(it)).remaining(),
{
    it.next()
}

/// `Iterator::next` of the standard library, on the iterator over a tree map:
/// it hands out the first of the entries that are left and leaves the others, or
/// `None` where none is left.
#[verifier::external_body]
pub(crate) fn next_tree_entry<'a, K, V>(it: &mut std::collections::btree_map::Iter<'a, K, V>) -> (r:
    Option<(&'a K, &'a V)>)
    ensures
        (*old(it)).remaining().len() > 0 ==> r == Some((*old(it)).remaining()[0]) && (*final(it)).remaining() == (*old(it)).remaining().drop_first(),
        (*old(it)).remaining().len() == 0 ==> r is None && (*final(it)).remaining() == (*old(it)).remaining(),
{
    it.next()
}

/// `Iterator::next` of the standard library, on the iterator over a tree set:
/// it hands out the first of the items that are left and leaves the others, or
/// `None` where none is left.
#[verifier::external_body]
pub(crate) fn next_tree_item<'a, K>(it: &mut std::collections::btree_set::Iter<'a, K>) -> (r: Option<
    &'a K,
>)
    ensures
        (*old(it)).remaining().len() > 0 ==> r == Some((*old(it)).remaining()[0]) && (*final(it)).remaining() == (*old(it)).remaining().drop_first(),
        (*old(it)).remaining().len() == 0 ==> r is None && (*final(it)).remaining() == (*old(it)).remaining(),
{
    it.next()
}

} // verus!
