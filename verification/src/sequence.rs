//! Taking the items of a vector out one by one, first to last.

use vstd::prelude::*;

verus! {

/// Whether `rest` holds the items of `all` from index `from` on, last to
/// first: popping `rest` yields them in the order of `all`.
pub open spec fn holds_rest<T>(rest: Seq<T>, all: Seq<T>, from: int) -> bool {
    &&& 0 <= from <= all.len()
    &&& rest.len() == all.len() - from
    &&& forall|j: int| 0 <= j < rest.len() ==> (#[trigger] rest[j]) == all[all.len() - 1 - j]
}

/// The items of `items`, last to first.
pub(crate) fn reversed<T>(items: Vec<T>) -> (rest: Vec<T>)
    ensures
        holds_rest(rest@, items@, 0),
{
    let ghost all = items@;
    let mut queue = items;
    let mut rest: Vec<T> = Vec::new();
    while queue.len() > 0
        invariant
            rest.len() + queue.len() == all.len(),
            queue@ == all.take(queue.len() as int),
            forall|j: int| 0 <= j < rest.len() ==> (#[trigger] rest[j]) == all[all.len() - 1 - j],
        decreases queue.len(),
    {
        let item = queue.pop().unwrap();
        assert(queue@ =~= all.take(queue.len() as int));
        rest.push(item);
    }
    rest
}

/// Takes the next item: the one at index `from` of `all`.
pub(crate) fn take_next<T>(
    rest: &mut Vec<T>,
    Ghost(all): Ghost<Seq<T>>,
    Ghost(from): Ghost<int>,
) -> (item: T)
    requires
        holds_rest(old(rest)@, all, from),
        from < all.len(),
    ensures
        item == all[from],
        holds_rest(final(rest)@, all, from + 1),
{
    rest.pop().unwrap()
}

} // verus!
