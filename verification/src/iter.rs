use vstd::prelude::*;
use vstd::std_specs::iter::IteratorSpec;

verus! {

/// The next item of an iterator that keeps to the iterator laws: the head of
/// what it has left, or `None` where nothing is left.
pub(crate) fn next_of<I: Iterator>(iter: &mut I) -> (item: Option<I::Item>)
    requires
        <I as IteratorSpec>::obeys_prophetic_iter_laws(old(iter)),
    ensures
        <I as IteratorSpec>::obeys_prophetic_iter_laws(final(iter)),
        match item {
            Some(head) => {
                &&& <I as IteratorSpec>::remaining(old(iter)).len() > 0
                &&& head == <I as IteratorSpec>::remaining(old(iter))[0]
                &&& <I as IteratorSpec>::remaining(final(iter)) == <I as IteratorSpec>::remaining(
                    old(iter),
                ).skip(1)
            },
            None => {
                &&& <I as IteratorSpec>::remaining(old(iter)).len() == 0
                &&& <I as IteratorSpec>::remaining(final(iter)) == <I as IteratorSpec>::remaining(
                    old(iter),
                )
            },
        },
{
    let item = iter.next();
    assert(<I as IteratorSpec>::remaining(old(iter)).drop_first()
        =~= <I as IteratorSpec>::remaining(old(iter)).skip(1));
    item
}

} // verus!
