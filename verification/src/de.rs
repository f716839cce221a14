use vstd::prelude::*;
use vstd::std_specs::iter::IteratorSpec;
use crate::iter::next_of;
use crate::laws::lemma_allocated_holds;
use crate::laws::lemma_discover_len;
use crate::laws::lemma_fault_depth_run_fails;
use crate::laws::lemma_gathered_run_fails;
use crate::laws::lemma_gathered_run_holds;
use crate::laws::lemma_validate_run_fails;
use crate::error::Error;
use crate::nested::has_first_scalar;
use crate::nested::lemma_view_bounded;
use crate::nested::lemma_view_sequence;
use crate::nested::Nested;
use crate::nested::Tree;
use crate::nested::views;
use crate::shape::product;
use crate::shape::zeroed;
use crate::shape::Shape;

verus! {

/// Holds the items `start..end` of a sequence, which stand `depth` sequences
/// deep, to the dimension lengths `dims` one after the other. Gives their
/// numbers in row-major order, or the first fault met on the way.
pub open spec fn validate_run<T>(
    items: Seq<Tree<T>>,
    start: nat,
    end: nat,
    dims: Seq<usize>,
    depth: nat,
) -> Result<Seq<T>, Error>
    decreases items, end,
{
    if end <= start || end > items.len() {
        Ok(Seq::empty())
    } else {
        match validate_run(items, start, (end - 1) as nat, dims, depth) {
            Err(error) => Err(error),
            Ok(head) => match validate(items[end - 1], dims, depth) {
                Err(error) => Err(error),
                Ok(tail) => Ok(head + tail),
            },
        }
    }
}

/// Holds a value that stands `depth` sequences deep to the dimension lengths
/// `dims` that are left below that depth. Gives the numbers of the value in
/// row-major order, or the first fault met on the way through it.
///
/// A sequence is held to the first length: as many of its items as that
/// length asks for are looked into, one after the other; then the sequence
/// must neither have ended early nor go on.
pub open spec fn validate<T>(tree: Tree<T>, dims: Seq<usize>, depth: nat) -> Result<Seq<T>, Error>
    decreases tree, 0nat,
{
    match tree {
        Tree::Number(number) => if dims.len() == 0 {
            Ok(seq![number])
        } else {
            Err(Error::UnexpectedScalar { depth: depth as usize, number: true })
        },
        Tree::Other => if dims.len() == 0 {
            Err(Error::InvalidLeafType { depth: depth as usize })
        } else {
            Err(Error::UnexpectedScalar { depth: depth as usize, number: false })
        },
        Tree::Sequence(items) => if dims.len() == 0 {
            Err(Error::UnexpectedSequence { depth: depth as usize })
        } else {
            let expected = dims[0];
            let taken = if items.len() < expected {
                items.len()
            } else {
                expected as nat
            };
            match validate_run(items, 0, taken, dims.skip(1), depth + 1) {
                Err(error) => Err(error),
                Ok(data) => if items.len() < expected {
                    Err(
                        Error::TooFewElements {
                            depth: depth as usize,
                            expected,
                            found: items.len() as usize,
                        },
                    )
                } else if items.len() > expected {
                    Err(Error::TrailingElements { depth: depth as usize, expected })
                } else {
                    Ok(data)
                },
            }
        },
    }
}

/// Infers the shape of a value that stands `depth` sequences deep from its
/// first path, and holds the rest of it to that shape. Gives the dimension
/// lengths below `depth` and the numbers in row-major order, or the first
/// fault met on the way through the value.
///
/// The first scalar fixes the count of dimensions. Each sequence on the
/// first path then gives its dimension the count of its items, after the
/// items behind the first were held to what the first one gave.
/// Where the first path ends in an empty sequence, nothing is said.
pub open spec fn discover<T>(tree: Tree<T>, depth: nat, min_dims: usize, max_dims: usize) -> Result<
    (Seq<usize>, Seq<T>),
    Error,
>
    decreases tree, 0nat,
{
    match tree {
        Tree::Number(number) => if depth < min_dims {
            Err(Error::MinDimsNotReached { min_dims, found: depth as usize })
        } else {
            Ok((Seq::empty(), seq![number]))
        },
        Tree::Other => if depth < min_dims {
            Err(Error::MinDimsNotReached { min_dims, found: depth as usize })
        } else {
            Err(Error::InvalidLeafType { depth: depth as usize })
        },
        Tree::Sequence(items) => if depth >= max_dims {
            Err(Error::MaxDimsExceeded { max_dims })
        } else if items.len() == 0 {
            arbitrary()
        } else {
            match discover(items[0], depth + 1, min_dims, max_dims) {
                Err(error) => Err(error),
                Ok((inner, first)) => match validate_run(items, 1, items.len(), inner, depth + 1) {
                    Err(error) => Err(error),
                    Ok(rest) => Ok((seq![items.len() as usize] + inner, first + rest)),
                },
            }
        },
    }
}

/// The numbers that are gathered from the items `start..end` of a sequence
/// while they are held to the dimension lengths `dims`: the numbers of every
/// item before the first one with a fault, and of that one what was
/// gathered from it before its fault.
pub open spec fn gathered_run<T>(
    items: Seq<Tree<T>>,
    start: nat,
    end: nat,
    dims: Seq<usize>,
    depth: nat,
) -> Seq<T>
    decreases items, end,
{
    if end <= start || end > items.len() {
        Seq::empty()
    } else {
        let before = gathered_run(items, start, (end - 1) as nat, dims, depth);
        if validate_run(items, start, (end - 1) as nat, dims, depth) is Err {
            before
        } else {
            before + gathered(items[end - 1], dims, depth)
        }
    }
}

/// The numbers that are gathered from a value while it is held to the
/// dimension lengths `dims`, whether it holds to them or not: all its
/// numbers where it holds, and else those that come before its first fault.
pub open spec fn gathered<T>(tree: Tree<T>, dims: Seq<usize>, depth: nat) -> Seq<T>
    decreases tree, 0nat,
{
    match tree {
        Tree::Number(number) => if dims.len() == 0 {
            seq![number]
        } else {
            Seq::empty()
        },
        Tree::Other => Seq::empty(),
        Tree::Sequence(items) => if dims.len() == 0 {
            Seq::empty()
        } else {
            let expected = dims[0];
            let taken = if items.len() < expected {
                items.len()
            } else {
                expected as nat
            };
            gathered_run(items, 0, taken, dims.skip(1), depth + 1)
        },
    }
}

/// The numbers that are gathered from a value while its shape is inferred,
/// whether that ends well or not: all its numbers where it ends well, and
/// else those that come before the first fault.
pub open spec fn gathered_first<T>(
    tree: Tree<T>,
    depth: nat,
    min_dims: usize,
    max_dims: usize,
) -> Seq<T>
    decreases tree,
{
    match tree {
        Tree::Number(number) => if depth < min_dims {
            Seq::empty()
        } else {
            seq![number]
        },
        Tree::Other => Seq::empty(),
        Tree::Sequence(items) => if depth >= max_dims || items.len() == 0 {
            Seq::empty()
        } else {
            match discover(items[0], depth + 1, min_dims, max_dims) {
                Err(_) => gathered_first(items[0], depth + 1, min_dims, max_dims),
                Ok((inner, first)) => first + gathered_run(
                    items,
                    1,
                    items.len(),
                    inner,
                    depth + 1,
                ),
            }
        },
    }
}

/// The count of sequences that are open when the traversal of the items
/// `start..end` of a sequence stops at the first fault among them.
pub open spec fn fault_depth_run<T>(
    items: Seq<Tree<T>>,
    start: nat,
    end: nat,
    dims: Seq<usize>,
    depth: nat,
) -> nat
    decreases items, end,
{
    if end <= start || end > items.len() {
        depth
    } else if validate_run(items, start, (end - 1) as nat, dims, depth) is Err {
        fault_depth_run(items, start, (end - 1) as nat, dims, depth)
    } else {
        fault_depth(items[end - 1], dims, depth)
    }
}

/// The count of sequences that are open when the traversal of a value that
/// does not hold to the dimension lengths `dims` stops at its first fault:
/// a sequence that was entered is not left again.
pub open spec fn fault_depth<T>(tree: Tree<T>, dims: Seq<usize>, depth: nat) -> nat
    decreases tree, 0nat,
{
    match tree {
        Tree::Sequence(items) => if dims.len() == 0 {
            depth
        } else {
            let expected = dims[0];
            let taken = if items.len() < expected {
                items.len()
            } else {
                expected as nat
            };
            if validate_run(items, 0, taken, dims.skip(1), depth + 1) is Err {
                fault_depth_run(items, 0, taken, dims.skip(1), depth + 1)
            } else {
                depth + 1
            }
        },
        _ => depth,
    }
}

/// The count of sequences that are open when the traversal of a value whose
/// shape cannot be inferred without a fault stops at the first fault.
pub open spec fn fault_depth_first<T>(
    tree: Tree<T>,
    depth: nat,
    min_dims: usize,
    max_dims: usize,
) -> nat
    decreases tree,
{
    match tree {
        Tree::Sequence(items) => if depth >= max_dims || items.len() == 0 {
            depth
        } else {
            match discover(items[0], depth + 1, min_dims, max_dims) {
                Err(_) => fault_depth_first(items[0], depth + 1, min_dims, max_dims),
                Ok((inner, _)) => fault_depth_run(items, 1, items.len(), inner, depth + 1),
            }
        },
        _ => depth,
    }
}

/// The dimension lengths below `depth` as the traversal of a value on the
/// first path leaves them, whether it ends well or not; `None` where it ends
/// before the first scalar has allocated them.
///
/// A sequence gives its dimension the count of its items only where it is
/// gone through without a fault: else its length stays the placeholder.
pub open spec fn allocated<T>(
    tree: Tree<T>,
    depth: nat,
    min_dims: usize,
    max_dims: usize,
) -> Option<Seq<usize>>
    decreases tree,
{
    match tree {
        Tree::Sequence(items) => if depth >= max_dims || items.len() == 0 {
            None
        } else {
            match allocated(items[0], depth + 1, min_dims, max_dims) {
                None => None,
                Some(inner) => if discover(tree, depth, min_dims, max_dims) is Ok {
                    Some(seq![items.len() as usize] + inner)
                } else {
                    Some(seq![0usize] + inner)
                },
            }
        },
        _ => if depth < min_dims {
            None
        } else {
            Some(Seq::empty())
        },
    }
}

/// The state of one traversal: the numbers collected so far, the shape once
/// the first number has fixed the count of dimensions, and the count of
/// sequences that are open.
struct Context<T, S> {
    data: Vec<T>,
    shape: Option<S>,
    current_dim: usize,
}

impl<T, S: Shape> Context<T, S> {
    /// Whether the state is one that a traversal can be in: before the first
    /// number no more sequences are open than the holder takes, and after it
    /// none beyond the depth of the numbers.
    spec fn wf(&self) -> bool {
        match self.shape {
            None => self.current_dim <= S::MAX_DIMS,
            Some(shape) => self.current_dim <= shape.dims().len() <= S::MAX_DIMS,
        }
    }

    /// The dimension lengths below the open sequences, once there is a shape.
    spec fn dims_below(&self) -> Seq<usize> {
        self.shape->Some_0.dims().skip(self.current_dim as int)
    }

    /// Takes note that a number stands at the current depth. The first one
    /// fixes the count of dimensions and allocates the shape, with every
    /// length still a placeholder; a later one must stand at that same depth.
    /// An established shape is never changed here, nor the buffer or the
    /// depth.
    fn got_number(&mut self) -> (result: Result<(), Error>)
        requires
            old(self).wf(),
        ensures
            final(self).data == old(self).data,
            final(self).current_dim == old(self).current_dim,
            old(self).shape is Some ==> final(self).shape == old(self).shape,
            match old(self).shape {
                Some(shape) => if old(self).current_dim < shape.dims().len() {
                    result == Err::<(), Error>(
                        Error::UnexpectedScalar { depth: old(self).current_dim, number: true },
                    )
                } else {
                    result is Ok
                },
                None => if old(self).current_dim < S::MIN_DIMS {
                    &&& result == Err::<(), Error>(
                        Error::MinDimsNotReached {
                            min_dims: S::MIN_DIMS,
                            found: old(self).current_dim,
                        },
                    )
                    &&& final(self).shape is None
                } else {
                    &&& result is Ok
                    &&& final(self).shape matches Some(shape)
                    &&& shape.dims() == zeroed(old(self).current_dim as nat)
                },
            },
    {
        match &self.shape {
            Some(shape) => {
                if shape.dim_len(self.current_dim).is_some() {
                    // A sequence stood at this depth on the first path.
                    return Err(Error::UnexpectedScalar { depth: self.current_dim, number: true });
                }
            },
            None => {
                // The first scalar: the numbers stand at this depth.
                if self.current_dim < S::MIN_DIMS {
                    return Err(
                        Error::MinDimsNotReached {
                            min_dims: S::MIN_DIMS,
                            found: self.current_dim,
                        },
                    );
                }
                self.shape = Some(S::new_zeroed(self.current_dim));
            },
        }
        Ok(())
    }

    /// Takes a scalar at the current depth: `Some` with the number it was
    /// read as, `None` where it is no number. Its place is judged first, then
    /// its kind.
    ///
    /// Only a number in its place is appended: a scalar that is refused, for
    /// its place or for its kind, leaves the buffer as it was. The first
    /// scalar allocates the shape once its place is found good, also where
    /// it is then refused for its kind.
    fn deserialize_num_from(&mut self, number: Option<T>) -> (result: Result<(), Error>)
        requires
            old(self).wf(),
        ensures
            ({
                let tree = match number {
                    Some(value) => Tree::Number(value),
                    None => Tree::Other,
                };
                Self::outcome(*old(self), tree, *final(self), result)
            }),
            final(self).current_dim == old(self).current_dim,
            result is Err ==> final(self).data@ == old(self).data@,
            match old(self).shape {
                Some(_) => final(self).shape == old(self).shape,
                None => if old(self).current_dim < S::MIN_DIMS {
                    final(self).shape is None
                } else {
                    final(self).shape matches Some(shape) && shape.dims() == zeroed(
                        old(self).current_dim as nat,
                    )
                },
            },
    {
        match self.got_number() {
            Err(Error::UnexpectedScalar { depth, number: _ }) => {
                assert(self.data@ =~= old(self).data@ + Seq::<T>::empty());
                return Err(Error::UnexpectedScalar { depth, number: number.is_some() });
            },
            Err(error) => {
                assert(self.data@ =~= old(self).data@ + Seq::<T>::empty());
                return Err(error);
            },
            Ok(()) => {},
        }
        match number {
            Some(value) => {
                self.data.push(value);
                proof {
                    assert(zeroed(self.current_dim as nat) + Seq::<usize>::empty() =~= zeroed(
                        self.current_dim as nat,
                    ));
                    assert(self.data@ =~= old(self).data@ + seq![value]);
                    if old(self).shape is Some {
                        assert(old(self).dims_below().len() == 0);
                    }
                }
                Ok(())
            },
            None => {
                assert(self.data@ =~= old(self).data@ + Seq::<T>::empty());
                Err(Error::InvalidLeafType { depth: self.current_dim })
            },
        }
    }

    /// Goes through a sequence that stands at the current depth.
    ///
    /// Before the first number the sequence lies on the first path: its
    /// items are counted, and the count becomes the length of its dimension.
    /// After it the sequence is held to the length that its dimension has:
    /// exactly that many items, each gone through in turn.
    fn visit_seq(&mut self, seq: Vec<Nested<T>>) -> (result: Result<(), Error>)
        requires
            old(self).wf(),
            old(self).shape is None ==> has_first_scalar(
                Tree::Sequence(views(seq@)),
                old(self).current_dim as nat,
                S::MAX_DIMS,
            ),
        ensures
            Self::outcome(*old(self), Tree::Sequence(views(seq@)), *final(self), result),
        decreases seq, 0nat,
    {
        let depth = self.current_dim;
        let found = seq.len();
        let ghost items = seq@;
        let ghost trees = views(seq@);
        let known: Option<Option<usize>> = match &self.shape {
            Some(shape) => Some(shape.dim_len(depth)),
            None => None,
        };
        match known {
            Some(None) => {
                // The numbers stand at this depth: no sequence may.
                assert(self.data@ =~= old(self).data@ + Seq::<T>::empty());
                Err(Error::UnexpectedSequence { depth })
            },
            Some(Some(expected)) => {
                let ghost rest = old(self).dims_below().skip(1);
                self.current_dim = depth + 1;
                let mut iter = seq.into_iter();
                let mut taken: usize = 0;
                let ghost mut data: Seq<T> = Seq::empty();
                assert(self.dims_below() =~= rest);
                while taken < expected
                    invariant
                        taken <= expected,
                        taken <= items.len(),
                        found == items.len(),
                        trees == views(items),
                        items == seq@,
                        iter.remaining() == items.skip(taken as int),
                        self.shape == old(self).shape,
                        self.shape is Some,
                        old(self).current_dim == depth,
                        self.current_dim == depth + 1,
                        depth < self.shape->Some_0.dims().len() <= S::MAX_DIMS,
                        expected == self.shape->Some_0.dims()[depth as int],
                        rest == old(self).dims_below().skip(1),
                        self.dims_below() == rest,
                        validate_run(trees, 0, taken as nat, rest, (depth + 1) as nat) == Ok::<
                            Seq<T>,
                            Error,
                        >(data),
                        self.data@ == old(self).data@ + data,
                    decreases expected - taken,
                {
                    let item = match next_of(&mut iter) {
                        Some(item) => item,
                        None => {
                            assert(old(self).dims_below()[0] == expected);
                            proof {
                                lemma_gathered_run_holds(
                                    trees,
                                    0,
                                    taken as nat,
                                    rest,
                                    (depth + 1) as nat,
                                );
                            }
                            return Err(Error::TooFewElements { depth, expected, found });
                        },
                    };
                    assert(item == items[taken as int]);
                    assert(item@ == trees[taken as int]);
                    let ghost before = self.data@;
                    match self.deserialize(item) {
                        Err(error) => {
                            proof {
                                assert(old(self).dims_below()[0] == expected);
                                let upto = if items.len() < expected {
                                    items.len()
                                } else {
                                    expected as nat
                                };
                                assert(validate_run(
                                    trees,
                                    0,
                                    (taken + 1) as nat,
                                    rest,
                                    (depth + 1) as nat,
                                ) == Err::<Seq<T>, Error>(error));
                                lemma_validate_run_fails(
                                    trees,
                                    0,
                                    (taken + 1) as nat,
                                    upto,
                                    rest,
                                    (depth + 1) as nat,
                                );
                                lemma_gathered_run_holds(
                                    trees,
                                    0,
                                    taken as nat,
                                    rest,
                                    (depth + 1) as nat,
                                );
                                lemma_gathered_run_fails(
                                    trees,
                                    0,
                                    (taken + 1) as nat,
                                    upto,
                                    rest,
                                    (depth + 1) as nat,
                                );
                                lemma_fault_depth_run_fails(
                                    trees,
                                    0,
                                    (taken + 1) as nat,
                                    upto,
                                    rest,
                                    (depth + 1) as nat,
                                );
                                let last = gathered(trees[taken as int], rest, (depth + 1) as nat);
                                assert(gathered_run(
                                    trees,
                                    0,
                                    (taken + 1) as nat,
                                    rest,
                                    (depth + 1) as nat,
                                ) == data + last);
                                assert(before + last =~= old(self).data@ + (data + last));
                            }
                            return Err(error);
                        },
                        Ok(()) => {},
                    }
                    proof {
                        let more = validate(trees[taken as int], rest, (depth + 1) as nat)->Ok_0;
                        assert(self.data@ == before + more);
                        assert(before + more =~= old(self).data@ + (data + more));
                        data = data + more;
                    }
                    taken += 1;
                }
                assert(old(self).dims_below()[0] == expected);
                if next_of(&mut iter).is_some() {
                    proof {
                        lemma_gathered_run_holds(trees, 0, taken as nat, rest, (depth + 1) as nat);
                    }
                    return Err(Error::TrailingElements { depth, expected });
                }
                self.current_dim = depth;
                Ok(())
            },
            None => {
                // Still on the first path: the shape is not known yet.
                if depth >= S::MAX_DIMS {
                    assert(self.data@ =~= old(self).data@ + Seq::<T>::empty());
                    return Err(Error::MaxDimsExceeded { max_dims: S::MAX_DIMS });
                }
                self.current_dim = depth + 1;
                let mut iter = seq.into_iter();
                let mut len: usize = 0;
                let ghost mut inner: Seq<usize> = Seq::empty();
                let ghost mut data: Seq<T> = Seq::empty();
                loop
                    invariant
                        len <= items.len(),
                        found == items.len(),
                        found > 0,
                        trees == views(items),
                        items == seq@,
                        iter.remaining() == items.skip(len as int),
                        old(self).shape is None,
                        depth < S::MAX_DIMS,
                        depth == old(self).current_dim,
                        self.current_dim == depth + 1,
                        has_first_scalar(trees[0], (depth + 1) as nat, S::MAX_DIMS),
                        len == 0 ==> self.shape is None && self.data@ == old(self).data@,
                        len > 0 ==> {
                            &&& self.shape matches Some(shape)
                            &&& shape.dims() == zeroed((depth + 1) as nat) + inner
                            &&& shape.dims().len() <= S::MAX_DIMS
                            &&& discover(trees[0], (depth + 1) as nat, S::MIN_DIMS, S::MAX_DIMS)
                                matches Ok((dims, first))
                            &&& dims == inner
                            &&& validate_run(trees, 1, len as nat, inner, (depth + 1) as nat)
                                matches Ok(rest)
                            &&& data == first + rest
                            &&& self.data@ == old(self).data@ + data
                        },
                    ensures
                        len == items.len(),
                        len > 0,
                        self.current_dim == depth + 1,
                        self.shape matches Some(shape) && shape.dims() == zeroed(
                            (depth + 1) as nat,
                        ) + inner && shape.dims().len() <= S::MAX_DIMS,
                        discover(
                            Tree::Sequence(trees),
                            depth as nat,
                            S::MIN_DIMS,
                            S::MAX_DIMS,
                        ) matches Ok((dims, all)) && dims == seq![len] + inner && self.data@
                            == old(self).data@ + all,
                    decreases items.len() - len,
                {
                    let item = match next_of(&mut iter) {
                        Some(item) => item,
                        None => {
                            break ;
                        },
                    };
                    assert(item == items[len as int]);
                    assert(item@ == trees[len as int]);
                    let ghost before = self.data@;
                    assert(len > 0 ==> self.dims_below() =~= inner);
                    match self.deserialize(item) {
                        Err(error) => {
                            proof {
                                if len == 0 {
                                    match allocated(
                                        trees[0],
                                        (depth + 1) as nat,
                                        S::MIN_DIMS,
                                        S::MAX_DIMS,
                                    ) {
                                        Some(lens) => {
                                            assert(zeroed(depth as nat) + (seq![0usize] + lens)
                                                =~= zeroed((depth + 1) as nat) + lens);
                                        },
                                        None => {},
                                    }
                                }
                                if len > 0 {
                                    lemma_fault_depth_run_fails(
                                        trees,
                                        1,
                                        (len + 1) as nat,
                                        trees.len(),
                                        inner,
                                        (depth + 1) as nat,
                                    );
                                    lemma_allocated_holds(
                                        trees[0],
                                        (depth + 1) as nat,
                                        S::MIN_DIMS,
                                        S::MAX_DIMS,
                                    );
                                    assert(zeroed(depth as nat) + (seq![0usize] + inner)
                                        =~= zeroed((depth + 1) as nat) + inner);
                                    assert(validate_run(
                                        trees,
                                        1,
                                        (len + 1) as nat,
                                        inner,
                                        (depth + 1) as nat,
                                    ) == Err::<Seq<T>, Error>(error));
                                    lemma_validate_run_fails(
                                        trees,
                                        1,
                                        (len + 1) as nat,
                                        trees.len(),
                                        inner,
                                        (depth + 1) as nat,
                                    );
                                    lemma_gathered_run_holds(
                                        trees,
                                        1,
                                        len as nat,
                                        inner,
                                        (depth + 1) as nat,
                                    );
                                    lemma_gathered_run_fails(
                                        trees,
                                        1,
                                        (len + 1) as nat,
                                        trees.len(),
                                        inner,
                                        (depth + 1) as nat,
                                    );
                                    let first = discover(
                                        trees[0],
                                        (depth + 1) as nat,
                                        S::MIN_DIMS,
                                        S::MAX_DIMS,
                                    )->Ok_0.1;
                                    let held = validate_run(
                                        trees,
                                        1,
                                        len as nat,
                                        inner,
                                        (depth + 1) as nat,
                                    )->Ok_0;
                                    let last = gathered(
                                        trees[len as int],
                                        inner,
                                        (depth + 1) as nat,
                                    );
                                    assert(gathered_run(
                                        trees,
                                        1,
                                        (len + 1) as nat,
                                        inner,
                                        (depth + 1) as nat,
                                    ) == held + last);
                                    assert(before + last =~= old(self).data@ + (first + (held
                                        + last)));
                                }
                            }
                            return Err(error);
                        },
                        Ok(()) => {},
                    }
                    proof {
                        if len == 0 {
                            let found_first = discover(
                                trees[0],
                                (depth + 1) as nat,
                                S::MIN_DIMS,
                                S::MAX_DIMS,
                            )->Ok_0;
                            inner = found_first.0;
                            data = found_first.1;
                            assert(data =~= data + Seq::<T>::empty());
                        } else {
                            let more = validate(trees[len as int], inner, (depth + 1) as nat)->Ok_0;
                            assert(before + more =~= old(self).data@ + (data + more));
                            data = data + more;
                        }
                    }
                    len += 1;
                }
                self.current_dim = depth;
                match &mut self.shape {
                    Some(shape) => {
                        shape.set_dim_len(depth, len);
                    },
                    None => {},
                }
                proof {
                    let shape = self.shape->Some_0;
                    assert(shape.dims() =~= zeroed(depth as nat) + (seq![len] + inner));
                }
                Ok(())
            },
        }
    }

    /// Goes through a value that stands at the current depth: a scalar is
    /// taken as a number or refused, a sequence is gone through item by item.
    fn deserialize(&mut self, value: Nested<T>) -> (result: Result<(), Error>)
        requires
            old(self).wf(),
            old(self).shape is None ==> has_first_scalar(
                value@,
                old(self).current_dim as nat,
                S::MAX_DIMS,
            ),
        ensures
            Self::outcome(*old(self), value@, *final(self), result),
        decreases value, 1nat,
    {
        match value {
            Nested::Number(number) => self.deserialize_num_from(Some(number)),
            Nested::Other => self.deserialize_num_from(None),
            Nested::Sequence(items) => {
                proof {
                    lemma_view_sequence(items);
                }
                self.visit_seq(items)
            },
        }
    }

    /// What holds of a state `after` and a result that the traversal of
    /// `tree` led to from the state `before`.
    ///
    /// Before the first number the value is one on the first path: the
    /// shape is inferred from it, and the lengths above it are left as
    /// placeholders. After the first number the value is held to the shape,
    /// and the shape stays as it is, whatever the result.
    ///
    /// The buffer only grows: where the traversal ends in a fault, the buffer
    /// is the old one followed by the numbers gathered before the fault. The
    /// depth is then the one at which the fault was met, and a shape that the
    /// first scalar has allocated holds the lengths of the sequences that were
    /// gone through whole. So a value that is refused as it stands, with none
    /// of its items looked at, leaves the state as it was, unless it is the
    /// first scalar, which allocates the shape even where it is no number.
    spec fn outcome(before: Self, tree: Tree<T>, after: Self, result: Result<(), Error>) -> bool {
        let depth = before.current_dim;
        match before.shape {
            None => match discover(tree, depth as nat, S::MIN_DIMS, S::MAX_DIMS) {
                Ok((dims, data)) => {
                    &&& result is Ok
                    &&& after.current_dim == depth
                    &&& after.data@ == before.data@ + data
                    &&& after.shape matches Some(shape)
                    &&& shape.dims() == zeroed(depth as nat) + dims
                    &&& shape.dims().len() <= S::MAX_DIMS
                },
                Err(error) => {
                    &&& result == Err::<(), Error>(error)
                    &&& after.data@ == before.data@ + gathered_first(
                        tree,
                        depth as nat,
                        S::MIN_DIMS,
                        S::MAX_DIMS,
                    )
                    &&& after.current_dim == fault_depth_first(
                        tree,
                        depth as nat,
                        S::MIN_DIMS,
                        S::MAX_DIMS,
                    )
                    &&& match allocated(tree, depth as nat, S::MIN_DIMS, S::MAX_DIMS) {
                        None => after.shape is None,
                        Some(lens) => after.shape matches Some(shape) && shape.dims() == zeroed(
                            depth as nat,
                        ) + lens,
                    }
                },
            },
            Some(shape) => {
                &&& after.shape == before.shape
                &&& match validate(tree, before.dims_below(), depth as nat) {
                    Ok(data) => {
                        &&& result is Ok
                        &&& after.current_dim == depth
                        &&& after.data@ == before.data@ + data
                    },
                    Err(error) => {
                        &&& result == Err::<(), Error>(error)
                        &&& after.data@ == before.data@ + gathered(
                            tree,
                            before.dims_below(),
                            depth as nat,
                        )
                        &&& after.current_dim == fault_depth(
                            tree,
                            before.dims_below(),
                            depth as nat,
                        )
                    },
                }
            },
        }
    }
}

/// An array that can be made from a shape and its elements in row-major
/// order.
pub trait MakeNDim: Sized {
    /// The holder of the dimension lengths.
    type Shape: Shape;

    /// The element type.
    type Item;

    /// The array of the given shape that holds `data`, which has as many
    /// elements as the shape asks for.
    fn from_shape_and_data(shape: Self::Shape, data: Vec<Self::Item>) -> (array: Self)
        requires
            data@.len() == product(shape.dims()),
    ;
}

/// Reads a nested value as its shape and its numbers in row-major order.
///
/// The count of dimensions and their lengths are inferred from the first
/// path to a scalar; every other branch is held to them. The first fault
/// met ends the reading.
///
/// No shape can be inferred from a value whose first path ends in an empty
/// sequence: [`Nested::leads_to_scalar`] tells whether a value is such a one.
pub fn parse<T, S: Shape>(input: Nested<T>) -> (result: Result<(S, Vec<T>), Error>)
    requires
        has_first_scalar(input@, 0, S::MAX_DIMS),
    ensures
        match discover(input@, 0, S::MIN_DIMS, S::MAX_DIMS) {
            Ok((dims, data)) => {
                &&& result matches Ok((shape, flat))
                &&& shape.dims() == dims
                &&& flat@ == data
            },
            Err(error) => result matches Err(found) && found == error,
        },
{
    let mut context: Context<T, S> = Context { data: Vec::new(), shape: None, current_dim: 0 };
    match context.deserialize(input) {
        Err(error) => Err(error),
        Ok(()) => {
            proof {
                let found = discover(input@, 0, S::MIN_DIMS, S::MAX_DIMS)->Ok_0;
                assert(zeroed(0) + found.0 =~= found.0);
                assert(Seq::<T>::empty() + found.1 =~= found.1);
            }
            let Context { data, shape, current_dim: _ } = context;
            Ok((shape.unwrap(), data))
        },
    }
}

/// Whether `array` is what [`MakeNDim::from_shape_and_data`] handed back for
/// a shape of the lengths `dims` and a buffer that holds `data`.
pub open spec fn made_of<A: MakeNDim>(array: A, dims: Seq<usize>, data: Seq<A::Item>) -> bool {
    exists|shape: A::Shape, flat: Vec<A::Item>|
        shape.dims() == dims && flat@ == data && #[trigger] call_ensures(
            A::from_shape_and_data,
            (shape, flat),
            array,
        )
}

/// Reads a nested value as an array.
///
/// The value is read as [`parse`] reads it, and the array is made from
/// the shape and the numbers by [`MakeNDim::from_shape_and_data`], which is
/// handed as many numbers as the shape asks for.
pub fn deserialize<A: MakeNDim>(input: Nested<A::Item>) -> (result: Result<A, Error>)
    requires
        has_first_scalar(input@, 0, <A::Shape as Shape>::MAX_DIMS),
    ensures
        match discover(
            input@,
            0,
            <A::Shape as Shape>::MIN_DIMS,
            <A::Shape as Shape>::MAX_DIMS,
        ) {
            Ok((dims, data)) => result matches Ok(array) && made_of(array, dims, data),
            Err(error) => result matches Err(found) && found == error,
        },
{
    match parse::<A::Item, A::Shape>(input) {
        Err(error) => Err(error),
        Ok((shape, data)) => {
            proof {
                lemma_view_bounded(input);
                lemma_discover_len(
                    input@,
                    0,
                    <A::Shape as Shape>::MIN_DIMS,
                    <A::Shape as Shape>::MAX_DIMS,
                );
            }
            let ghost made_from = (shape, data);
            let array = A::from_shape_and_data(shape, data);
            assert(call_ensures(A::from_shape_and_data, (made_from.0, made_from.1), array));
            Ok(array)
        },
    }
}

} // verus!
