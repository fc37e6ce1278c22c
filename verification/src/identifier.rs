//! Identifiers address a node by the child indices on the way from the roots to it.

use vstd::prelude::*;

verus! {

/// An owned identifier. The empty identifier addresses no node and stands for "no selection".
pub type TreeIdentifierVec = Vec<usize>;

/// A borrowed identifier.
pub type TreeIdentifier<'a> = &'a [usize];

/// The identifier of the child at `index` below `parent`.
pub fn child_identifier(parent: &[usize], index: usize) -> (child: Vec<usize>)
    ensures
        child@ == parent@.push(index),
{
    let mut child: Vec<usize> = Vec::new();
    let mut i: usize = 0;
    while i < parent.len()
        invariant
            i <= parent.len(),
            child@ == parent@.take(i as int),
        decreases parent.len() - i,
    {
        child.push(parent[i]);
        i += 1;
    }
    child.push(index);
    child
}

/// Splits an identifier into the identifier of the parent and the index below that parent.
///
/// The empty identifier has neither: the parent returned for it is empty as well.
pub fn get_without_leaf(identifier: &[usize]) -> (parts: (Vec<usize>, Option<usize>))
    ensures
        identifier@.len() == 0 ==> parts.0@.len() == 0 && parts.1.is_none(),
        identifier@.len() > 0 ==> parts.0@ == identifier@.drop_last() && parts.1 == Some(
            identifier@.last(),
        ),
{
    if identifier.len() == 0 {
        return (Vec::new(), None);
    }
    let last: usize = identifier.len() - 1;
    let mut head: Vec<usize> = Vec::new();
    let mut i: usize = 0;
    while i < last
        invariant
            last == identifier.len() - 1,
            i <= last,
            head@ == identifier@.take(i as int),
        decreases last - i,
    {
        head.push(identifier[i]);
        i += 1;
    }
    (head, Some(identifier[last]))
}

} // verus!
