//! What holds between reading and writing, proved of the models that the
//! contracts of the two speak of.

use vstd::prelude::*;
use crate::de::allocated;
use crate::de::discover;
use crate::de::fault_depth_run;
use crate::de::gathered;
use crate::de::gathered_first;
use crate::de::gathered_run;
use crate::de::validate;
use crate::de::validate_run;
use crate::error::Error;
use crate::nested::bounded;
use crate::nested::has_first_scalar;
use crate::nested::Nested;
use crate::nested::Tree;
use crate::ser::nest;
use crate::ser::written;
use crate::shape::product;

verus! {

/// A fault among the first items of a run is the fault of every longer run.
pub proof fn lemma_validate_run_fails<T>(
    items: Seq<Tree<T>>,
    start: nat,
    mid: nat,
    end: nat,
    dims: Seq<usize>,
    depth: nat,
)
    requires
        mid <= end <= items.len(),
        validate_run(items, start, mid, dims, depth) is Err,
    ensures
        validate_run(items, start, end, dims, depth) == validate_run(items, start, mid, dims, depth),
    decreases end,
{
    if mid < end {
        lemma_validate_run_fails(items, start, mid, (end - 1) as nat, dims, depth);
    }
}

/// What is gathered from a run with a fault among its first items is what
/// is gathered from those first items: nothing is read behind a fault.
pub proof fn lemma_gathered_run_fails<T>(
    items: Seq<Tree<T>>,
    start: nat,
    mid: nat,
    end: nat,
    dims: Seq<usize>,
    depth: nat,
)
    requires
        mid <= end <= items.len(),
        validate_run(items, start, mid, dims, depth) is Err,
    ensures
        gathered_run(items, start, end, dims, depth) == gathered_run(items, start, mid, dims, depth),
    decreases end,
{
    if mid < end {
        lemma_gathered_run_fails(items, start, mid, (end - 1) as nat, dims, depth);
        lemma_validate_run_fails(items, start, mid, (end - 1) as nat, dims, depth);
    }
}

/// From a run that holds, all its numbers are gathered.
pub proof fn lemma_gathered_run_holds<T>(
    items: Seq<Tree<T>>,
    start: nat,
    end: nat,
    dims: Seq<usize>,
    depth: nat,
)
    requires
        validate_run(items, start, end, dims, depth) is Ok,
    ensures
        gathered_run(items, start, end, dims, depth) == validate_run(
            items,
            start,
            end,
            dims,
            depth,
        )->Ok_0,
    decreases items, end,
{
    if !(end <= start || end > items.len()) {
        lemma_gathered_run_holds(items, start, (end - 1) as nat, dims, depth);
        lemma_gathered_holds(items[end - 1], dims, depth);
    }
}

/// From a value that holds to a shape, all its numbers are gathered.
pub proof fn lemma_gathered_holds<T>(tree: Tree<T>, dims: Seq<usize>, depth: nat)
    requires
        validate(tree, dims, depth) is Ok,
    ensures
        gathered(tree, dims, depth) == validate(tree, dims, depth)->Ok_0,
    decreases tree, 0nat,
{
    match tree {
        Tree::Sequence(items) => {
            lemma_gathered_run_holds(items, 0, items.len(), dims.skip(1), depth + 1);
        },
        _ => {},
    }
}

/// From a value whose shape is inferred without a fault, all its numbers
/// are gathered.
pub proof fn lemma_gathered_first_holds<T>(
    tree: Tree<T>,
    depth: nat,
    min_dims: usize,
    max_dims: usize,
)
    requires
        has_first_scalar(tree, depth, max_dims),
        discover(tree, depth, min_dims, max_dims) is Ok,
    ensures
        gathered_first(tree, depth, min_dims, max_dims) == discover(
            tree,
            depth,
            min_dims,
            max_dims,
        )->Ok_0.1,
    decreases tree,
{
    match tree {
        Tree::Sequence(items) => {
            let inner = discover(items[0], depth + 1, min_dims, max_dims)->Ok_0.0;
            lemma_gathered_run_holds(items, 1, items.len(), inner, depth + 1);
        },
        _ => {},
    }
}

/// The traversal of a run with a fault among its first items stops where
/// the traversal of those first items stops.
pub proof fn lemma_fault_depth_run_fails<T>(
    items: Seq<Tree<T>>,
    start: nat,
    mid: nat,
    end: nat,
    dims: Seq<usize>,
    depth: nat,
)
    requires
        mid <= end <= items.len(),
        validate_run(items, start, mid, dims, depth) is Err,
    ensures
        fault_depth_run(items, start, end, dims, depth) == fault_depth_run(
            items,
            start,
            mid,
            dims,
            depth,
        ),
    decreases end,
{
    if mid < end {
        lemma_fault_depth_run_fails(items, start, mid, (end - 1) as nat, dims, depth);
        lemma_validate_run_fails(items, start, mid, (end - 1) as nat, dims, depth);
    }
}

/// Where the shape of a value is inferred without a fault, the lengths that
/// the traversal leaves are the lengths inferred.
pub proof fn lemma_allocated_holds<T>(tree: Tree<T>, depth: nat, min_dims: usize, max_dims: usize)
    requires
        has_first_scalar(tree, depth, max_dims),
        discover(tree, depth, min_dims, max_dims) is Ok,
    ensures
        allocated(tree, depth, min_dims, max_dims) == Some(
            discover(tree, depth, min_dims, max_dims)->Ok_0.0,
        ),
    decreases tree,
{
    match tree {
        Tree::Sequence(items) => {
            lemma_allocated_holds(items[0], depth + 1, min_dims, max_dims);
        },
        _ => {},
    }
}

/// The numbers of a run that holds are as many as its items ask for.
pub proof fn lemma_validate_run_len<T>(
    items: Seq<Tree<T>>,
    start: nat,
    end: nat,
    dims: Seq<usize>,
    depth: nat,
)
    requires
        start <= end <= items.len(),
        validate_run(items, start, end, dims, depth) is Ok,
    ensures
        validate_run(items, start, end, dims, depth)->Ok_0.len() == (end - start) * product(dims),
    decreases items, end,
{
    if start < end {
        let before = (end - 1) as nat;
        lemma_validate_run_len(items, start, before, dims, depth);
        lemma_validate_len(items[end - 1], dims, depth);
        let head = validate_run(items, start, before, dims, depth)->Ok_0;
        let tail = validate(items[end - 1], dims, depth)->Ok_0;
        assert(validate_run(items, start, end, dims, depth)->Ok_0 == head + tail);
        assert((head + tail).len() == head.len() + tail.len());
        assert((before - start) * product(dims) + product(dims) == (end - start) * product(dims))
            by (nonlinear_arith)
            requires
                before == end - 1,
        ;
    } else {
        assert((end - start) * product(dims) == 0) by (nonlinear_arith)
            requires
                end == start,
        ;
    }
}

/// The numbers of a value that holds to a shape are as many as the product
/// of the shape's lengths.
pub proof fn lemma_validate_len<T>(tree: Tree<T>, dims: Seq<usize>, depth: nat)
    requires
        validate(tree, dims, depth) is Ok,
    ensures
        validate(tree, dims, depth)->Ok_0.len() == product(dims),
    decreases tree, 0nat,
{
    match tree {
        Tree::Sequence(items) => {
            lemma_validate_run_len(items, 0, items.len(), dims.skip(1), depth + 1);
        },
        _ => {
            assert(product(dims) == 1);
        },
    }
}

/// The numbers read from a value are as many as the product of the lengths
/// inferred from it.
pub proof fn lemma_discover_len<T>(tree: Tree<T>, depth: nat, min_dims: usize, max_dims: usize)
    requires
        bounded(tree),
        has_first_scalar(tree, depth, max_dims),
        discover(tree, depth, min_dims, max_dims) is Ok,
    ensures
        ({
            let (dims, data) = discover(tree, depth, min_dims, max_dims)->Ok_0;
            data.len() == product(dims)
        }),
    decreases tree,
{
    match tree {
        Tree::Sequence(items) => {
            lemma_discover_len(items[0], depth + 1, min_dims, max_dims);
            let (inner, first) = discover(items[0], depth + 1, min_dims, max_dims)->Ok_0;
            lemma_validate_run_len(items, 1, items.len(), inner, depth + 1);
            let rest = validate_run(items, 1, items.len(), inner, depth + 1)->Ok_0;
            let dims = seq![items.len() as usize] + inner;
            assert(dims.skip(1) =~= inner);
            assert(discover(tree, depth, min_dims, max_dims)->Ok_0 == (dims, first + rest));
            assert(product(inner) + (items.len() - 1) * product(inner) == items.len() * product(
                inner,
            )) by (nonlinear_arith);
        },
        _ => {
            assert(product(Seq::<usize>::empty()) == 1);
        },
    }
}

/// Each item of a run that holds has its own numbers, which stand in the
/// numbers of the run at the item's place.
pub proof fn lemma_validate_run_parts<T>(
    items: Seq<Tree<T>>,
    start: nat,
    end: nat,
    dims: Seq<usize>,
    depth: nat,
    k: nat,
)
    requires
        start <= k < end <= items.len(),
        validate_run(items, start, end, dims, depth) is Ok,
    ensures
        validate(items[k as int], dims, depth) is Ok,
        validate_run(items, start, end, dims, depth)->Ok_0.subrange(
            (k - start) * product(dims),
            (k - start + 1) * product(dims),
        ) == validate(items[k as int], dims, depth)->Ok_0,
    decreases end,
{
    let share = product(dims);
    let before = (end - 1) as nat;
    let all = validate_run(items, start, end, dims, depth)->Ok_0;
    let head = validate_run(items, start, before, dims, depth)->Ok_0;
    let tail = validate(items[end - 1], dims, depth)->Ok_0;
    assert(all == head + tail);
    lemma_validate_run_len(items, start, before, dims, depth);
    lemma_validate_len(items[end - 1], dims, depth);
    assert((k - start + 1) * share == (k - start) * share + share && 0 <= (k - start) * share)
        by (nonlinear_arith)
        requires
            start <= k,
            share >= 0,
    ;
    if k == before {
        assert(all.subrange((k - start) * share, (k - start + 1) * share) =~= tail);
    } else {
        lemma_validate_run_parts(items, start, before, dims, depth, k);
        assert((k - start + 1) * share <= (before - start) * share) by (nonlinear_arith)
            requires
                start <= k < before,
                share >= 0,
        ;
        assert(all.subrange((k - start) * share, (k - start + 1) * share) =~= head.subrange(
            (k - start) * share,
            (k - start + 1) * share,
        ));
    }
}

/// A value that holds to a shape is the nested value of that shape and of
/// the numbers that were read from it.
pub proof fn lemma_validate_nest<T>(tree: Tree<T>, dims: Seq<usize>, depth: nat)
    requires
        validate(tree, dims, depth) is Ok,
    ensures
        nest(dims, validate(tree, dims, depth)->Ok_0) == tree,
    decreases tree,
{
    match tree {
        Tree::Sequence(items) => {
            let rest = dims.skip(1);
            let share = product(rest);
            let data = validate(tree, dims, depth)->Ok_0;
            assert(items.len() == dims[0]);
            assert(data == validate_run(items, 0, items.len(), rest, depth + 1)->Ok_0);
            let written = nest(dims, data)->Sequence_0;
            assert forall|k: int| 0 <= k < items.len() implies #[trigger] written[k] == items[k] by {
                lemma_validate_run_parts(items, 0, items.len(), rest, depth + 1, k as nat);
                lemma_validate_nest(items[k], rest, depth + 1);
            }
            assert(written =~= items);
        },
        _ => {},
    }
}

/// Reading, then writing, gives the value back: a value from which a shape
/// and numbers were read is the nested value of that shape and those
/// numbers.
pub proof fn lemma_discover_nest<T>(tree: Tree<T>, depth: nat, min_dims: usize, max_dims: usize)
    requires
        bounded(tree),
        has_first_scalar(tree, depth, max_dims),
        discover(tree, depth, min_dims, max_dims) is Ok,
    ensures
        ({
            let (dims, data) = discover(tree, depth, min_dims, max_dims)->Ok_0;
            nest(dims, data) == tree
        }),
    decreases tree,
{
    match tree {
        Tree::Sequence(items) => {
            let (inner, first) = discover(items[0], depth + 1, min_dims, max_dims)->Ok_0;
            let others = validate_run(items, 1, items.len(), inner, depth + 1)->Ok_0;
            let dims = seq![items.len() as usize] + inner;
            let data = first + others;
            let share = product(inner);
            assert(discover(tree, depth, min_dims, max_dims)->Ok_0 == (dims, data));
            assert(dims.skip(1) =~= inner);
            lemma_discover_nest(items[0], depth + 1, min_dims, max_dims);
            lemma_discover_len(items[0], depth + 1, min_dims, max_dims);
            let written = nest(dims, data)->Sequence_0;
            assert forall|k: int| 0 <= k < items.len() implies #[trigger] written[k] == items[k] by {
                assert((k + 1) * share == k * share + share && 0 <= k * share) by (nonlinear_arith)
                    requires
                        0 <= k,
                        share >= 0,
                ;
                if k == 0 {
                    assert(data.subrange(0, share as int) =~= first);
                } else {
                    lemma_validate_run_parts(items, 1, items.len(), inner, depth + 1, k as nat);
                    lemma_validate_run_len(items, 1, items.len(), inner, depth + 1);
                    assert(k * share == (k - 1) * share + share && (k + 1) * share <= items.len()
                        * share && share + (items.len() - 1) * share == items.len() * share)
                        by (nonlinear_arith)
                        requires
                            1 <= k < items.len(),
                            share >= 0,
                    ;
                    assert(data.subrange(k * share, (k + 1) * share) =~= others.subrange(
                        (k - 1) * share,
                        (k - 1 + 1) * share,
                    ));
                    lemma_validate_nest(items[k], inner, depth + 1);
                }
            }
            assert(written =~= items);
        },
        _ => {},
    }
}

/// The lengths of the sequences on the first path of a value, outermost
/// first.
pub open spec fn first_path_dims<T>(tree: Tree<T>) -> Seq<usize>
    decreases tree,
{
    match tree {
        Tree::Sequence(items) => if items.len() == 0 {
            seq![0usize]
        } else {
            seq![items.len() as usize] + first_path_dims(items[0])
        },
        _ => Seq::empty(),
    }
}

/// The shape that is read from a value is the shape of its first path: no
/// other branch adds to it or changes a length of it.
pub proof fn lemma_shape_is_first_path<T>(
    tree: Tree<T>,
    depth: nat,
    min_dims: usize,
    max_dims: usize,
)
    requires
        has_first_scalar(tree, depth, max_dims),
        discover(tree, depth, min_dims, max_dims) is Ok,
    ensures
        discover(tree, depth, min_dims, max_dims)->Ok_0.0 == first_path_dims(tree),
    decreases tree,
{
    match tree {
        Tree::Sequence(items) => {
            lemma_shape_is_first_path(items[0], depth + 1, min_dims, max_dims);
        },
        _ => {},
    }
}

/// No length that is read from a value is 0, and the count of the lengths
/// lies within the bounds of the holder.
pub proof fn lemma_discover_dims<T>(tree: Tree<T>, depth: nat, min_dims: usize, max_dims: usize)
    requires
        depth <= max_dims,
        bounded(tree),
        has_first_scalar(tree, depth, max_dims),
        discover(tree, depth, min_dims, max_dims) is Ok,
    ensures
        ({
            let dims = discover(tree, depth, min_dims, max_dims)->Ok_0.0;
            &&& min_dims <= depth + dims.len() <= max_dims
            &&& forall|i: int| 0 <= i < dims.len() ==> dims[i] > 0
        }),
    decreases tree,
{
    match tree {
        Tree::Sequence(items) => {
            lemma_discover_dims(items[0], depth + 1, min_dims, max_dims);
            let inner = discover(items[0], depth + 1, min_dims, max_dims)->Ok_0.0;
            let dims = discover(tree, depth, min_dims, max_dims)->Ok_0.0;
            assert(dims == seq![items.len() as usize] + inner);
            assert forall|i: int| 0 <= i < dims.len() implies dims[i] > 0 by {
                if i > 0 {
                    assert(dims[i] == inner[i - 1]);
                }
            }
        },
        _ => {},
    }
}

/// The items `start..end` of the nested value of an array hold to the
/// dimension lengths below the first, and their numbers are the elements at
/// their places.
pub proof fn lemma_nest_validate_run<T>(
    dims: Seq<usize>,
    data: Seq<T>,
    start: nat,
    end: nat,
    depth: nat,
)
    requires
        dims.len() > 0,
        data.len() == product(dims),
        start <= end <= dims[0],
    ensures
        validate_run(nest(dims, data)->Sequence_0, start, end, dims.skip(1), depth) == Ok::<
            Seq<T>,
            Error,
        >(
            data.subrange(
                (start * product(dims.skip(1))) as int,
                (end * product(dims.skip(1))) as int,
            ),
        ),
    decreases dims.len(), end,
{
    let rest = dims.skip(1);
    let share = product(rest);
    let items = nest(dims, data)->Sequence_0;
    assert(0 <= start * share <= end * share <= dims[0] * share) by (nonlinear_arith)
        requires
            0 <= start <= end <= dims[0],
            share >= 0,
    ;
    if start < end {
        let before = (end - 1) as nat;
        assert(before * share + share == end * share && start * share <= before * share)
            by (nonlinear_arith)
            requires
                before == end - 1,
                start <= before,
                share >= 0,
        ;
        lemma_nest_validate_run(dims, data, start, before, depth);
        let part = data.subrange((before * share) as int, ((before + 1) * share) as int);
        lemma_nest_validate(rest, part, depth);
        assert(items[before as int] == nest(rest, part));
        assert(data.subrange((start * share) as int, (before * share) as int) + part
            =~= data.subrange((start * share) as int, (end * share) as int));
    } else {
        assert(data.subrange((start * share) as int, (end * share) as int) =~= Seq::<T>::empty());
    }
}

/// The nested value of an array holds to the array's shape, and its numbers
/// are the array's elements.
pub proof fn lemma_nest_validate<T>(dims: Seq<usize>, data: Seq<T>, depth: nat)
    requires
        data.len() == product(dims),
    ensures
        validate(nest(dims, data), dims, depth) == Ok::<Seq<T>, Error>(data),
    decreases dims.len(),
        (if dims.len() > 0 {
            dims[0] + 1
        } else {
            0
        }),
{
    if dims.len() == 0 {
        assert(seq![data[0]] =~= data);
    } else {
        let share = product(dims.skip(1));
        lemma_nest_validate_run(dims, data, 0, dims[0] as nat, depth + 1);
        assert(0 * share == 0 && dims[0] * share == data.len()) by (nonlinear_arith)
            requires
                data.len() == dims[0] * share,
        ;
        assert(data.subrange(0, data.len() as int) =~= data);
    }
}

/// Writing, then reading, gives the array back: from the nested value of an
/// array without an empty dimension, whose count of dimensions the holder
/// takes, the array's shape and elements are read.
pub proof fn lemma_nest_discover<T>(
    dims: Seq<usize>,
    data: Seq<T>,
    depth: nat,
    min_dims: usize,
    max_dims: usize,
)
    requires
        data.len() == product(dims),
        forall|i: int| 0 <= i < dims.len() ==> dims[i] > 0,
        min_dims <= depth + dims.len() <= max_dims,
    ensures
        has_first_scalar(nest(dims, data), depth, max_dims),
        discover(nest(dims, data), depth, min_dims, max_dims) == Ok::<(Seq<usize>, Seq<T>), Error>(
            (dims, data),
        ),
    decreases dims.len(),
{
    if dims.len() == 0 {
        assert(seq![data[0]] =~= data);
        assert(dims =~= Seq::<usize>::empty());
    } else {
        let rest = dims.skip(1);
        let share = product(rest);
        let items = nest(dims, data)->Sequence_0;
        assert(share <= dims[0] * share && 0 * share == 0 && 1 * share == share && dims[0] * share
            == data.len()) by (nonlinear_arith)
            requires
                dims[0] > 0,
                share >= 0,
                data.len() == dims[0] * share,
        ;
        let first = data.subrange(0, share as int);
        assert(items[0] == nest(rest, data.subrange(0int * share, (0int + 1) * share)));
        lemma_nest_discover(rest, first, depth + 1, min_dims, max_dims);
        lemma_nest_validate_run(dims, data, 1, dims[0] as nat, depth + 1);
        let others = data.subrange((1 * share) as int, (dims[0] * share) as int);
        assert(first + others =~= data);
        assert(seq![items.len() as usize] + rest =~= dims);
    }
}

/// Whether a tree is the nested value of an array that a holder with the
/// given bounds takes and that has no empty dimension.
pub open spec fn is_array<T>(tree: Tree<T>, min_dims: usize, max_dims: usize) -> bool {
    exists|dims: Seq<usize>, data: Seq<T>|
        {
            &&& min_dims <= dims.len() <= max_dims
            &&& forall|i: int| 0 <= i < dims.len() ==> dims[i] > 0
            &&& data.len() == product(dims)
            &&& tree == #[trigger] nest(dims, data)
        }
}

/// The values that are read are the nested values of arrays, and no others:
/// a value that is ragged in its lengths or in its depths, or that holds a
/// scalar that is no number, is refused.
pub proof fn lemma_reads_arrays_only<T>(tree: Tree<T>, min_dims: usize, max_dims: usize)
    requires
        bounded(tree),
        has_first_scalar(tree, 0, max_dims),
    ensures
        discover(tree, 0, min_dims, max_dims) is Ok <==> is_array(tree, min_dims, max_dims),
{
    if discover(tree, 0, min_dims, max_dims) is Ok {
        let (dims, data) = discover(tree, 0, min_dims, max_dims)->Ok_0;
        lemma_discover_nest(tree, 0, min_dims, max_dims);
        lemma_discover_len(tree, 0, min_dims, max_dims);
        lemma_discover_dims(tree, 0, min_dims, max_dims);
        assert(tree == nest(dims, data));
    }
    if is_array(tree, min_dims, max_dims) {
        let (dims, data) = choose|dims: Seq<usize>, data: Seq<T>|
            {
                &&& min_dims <= dims.len() <= max_dims
                &&& forall|i: int| 0 <= i < dims.len() ==> dims[i] > 0
                &&& data.len() == product(dims)
                &&& tree == #[trigger] nest(dims, data)
            };
        lemma_nest_discover(dims, data, 0, min_dims, max_dims);
    }
}

/// Two ways of writing that both give what is owed for the same array give
/// the same: the same nested value, or both the same error.
pub proof fn lemma_written_once<T>(
    dims: Seq<usize>,
    data: Seq<T>,
    one: Result<Nested<T>, Error>,
    other: Result<Nested<T>, Error>,
)
    requires
        written(dims, data, one),
        written(dims, data, other),
    ensures
        one is Ok <==> other is Ok,
        one is Ok ==> one->Ok_0@ == other->Ok_0@,
        one is Err ==> one->Err_0 == other->Err_0,
{
}

} // verus!
