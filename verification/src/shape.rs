use vstd::prelude::*;

verus! {

/// The number of elements of an array with the given dimension lengths: their
/// product, which is 1 where there is no dimension.
pub open spec fn product(dims: Seq<usize>) -> nat
    decreases dims.len(),
{
    if dims.len() == 0 {
        1
    } else {
        (dims[0] as nat) * product(dims.skip(1))
    }
}

/// A length of 0 makes the product 0.
pub proof fn lemma_product_zero(dims: Seq<usize>, at: int)
    requires
        0 <= at < dims.len(),
        dims[at] == 0,
    ensures
        product(dims) == 0,
    decreases at,
{
    if at > 0 {
        lemma_product_zero(dims.skip(1), at - 1);
        assert(dims[0] * product(dims.skip(1)) == 0) by (nonlinear_arith)
            requires
                product(dims.skip(1)) == 0,
        ;
    } else {
        assert(dims[0] * product(dims.skip(1)) == 0) by (nonlinear_arith)
            requires
                dims[0] == 0,
        ;
    }
}

/// Where no length is 0, the product of the lengths from any place on is at
/// most the product of all of them.
pub proof fn lemma_product_of_tail(dims: Seq<usize>, from: int)
    requires
        0 <= from <= dims.len(),
        forall|i: int| 0 <= i < dims.len() ==> dims[i] > 0,
    ensures
        product(dims.skip(from)) <= product(dims),
    decreases from,
{
    let tail = dims.skip(from);
    if from == 0 {
        assert(tail =~= dims);
    } else {
        lemma_product_of_tail(dims, from - 1);
        let longer = dims.skip(from - 1);
        assert(longer.skip(1) =~= tail);
        assert(product(tail) <= longer[0] * product(tail)) by (nonlinear_arith)
            requires
                longer[0] >= 1,
                product(tail) >= 0,
        ;
    }
}

/// The number of elements that the dimension lengths ask for, or `None`
/// where that number does not fit a `usize`.
pub fn element_count(dims: &[usize]) -> (count: Option<usize>)
    ensures
        match count {
            Some(number) => number == product(dims@),
            None => product(dims@) > usize::MAX,
        },
{
    // One empty dimension makes the array empty, however long the others.
    let mut seen: usize = 0;
    while seen < dims.len()
        invariant
            seen <= dims@.len(),
            forall|i: int| 0 <= i < seen ==> dims@[i] > 0,
        decreases dims@.len() - seen,
    {
        if dims[seen] == 0 {
            proof {
                lemma_product_zero(dims@, seen as int);
            }
            return Some(0);
        }
        seen += 1;
    }
    let mut at: usize = dims.len();
    let mut count: usize = 1;
    assert(dims@.skip(at as int).len() == 0);
    while at > 0
        invariant
            at <= dims@.len(),
            forall|i: int| 0 <= i < dims@.len() ==> dims@[i] > 0,
            count == product(dims@.skip(at as int)),
        decreases at,
    {
        at -= 1;
        let ghost tail = dims@.skip(at as int);
        assert(tail.skip(1) =~= dims@.skip(at + 1));
        assert(product(tail) == dims@[at as int] * count);
        match dims[at].checked_mul(count) {
            Some(more) => {
                count = more;
            },
            None => {
                proof {
                    lemma_product_of_tail(dims@, at as int);
                }
                return None;
            },
        }
    }
    assert(dims@.skip(0) =~= dims@);
    Some(count)
}

/// `n` dimensions whose lengths are not known yet: each holds the
/// placeholder 0.
pub open spec fn zeroed(n: nat) -> Seq<usize> {
    Seq::new(n, |i: int| 0usize)
}

/// Storage for the dimension lengths of an array, outermost dimension first.
pub trait Shape: Sized {
    /// The least number of dimensions that the holder can take.
    const MIN_DIMS: usize;

    /// The greatest number of dimensions that the holder can take.
    const MAX_DIMS: usize;

    /// The dimension lengths, outermost first.
    spec fn dims(&self) -> Seq<usize>;

    /// A holder of exactly `dims` dimensions, each set to the placeholder 0.
    fn new_zeroed(dims: usize) -> (shape: Self)
        requires
            Self::MIN_DIMS <= dims <= Self::MAX_DIMS,
        ensures
            shape.dims() == zeroed(dims as nat),
    ;

    /// The length of dimension `dim`, or `None` where there is no such
    /// dimension.
    fn dim_len(&self, dim: usize) -> (len: Option<usize>)
        ensures
            len == (if dim < self.dims().len() {
                Some(self.dims()[dim as int])
            } else {
                None
            }),
    ;

    /// Sets the length of dimension `dim`, which must still hold the
    /// placeholder.
    fn set_dim_len(&mut self, dim: usize, value: usize)
        requires
            dim < old(self).dims().len(),
            old(self).dims()[dim as int] == 0,
        ensures
            final(self).dims() == old(self).dims().update(dim as int, value),
    ;
}

/// Turns a vector into a boxed slice of the same items.
///
/// Calls `Vec::into_boxed_slice`, of which it is assumed that the slice
/// holds the vector's items in the vector's order.
#[verifier::external_body]
fn into_boxed_slice(dims: Vec<usize>) -> (boxed: Box<[usize]>)
    ensures
        boxed@ == dims@,
{
    dims.into_boxed_slice()
}

/// Any number of dimensions, on the heap.
impl Shape for Box<[usize]> {
    const MIN_DIMS: usize = 0;

    const MAX_DIMS: usize = usize::MAX;

    open spec fn dims(&self) -> Seq<usize> {
        self@
    }

    fn new_zeroed(dims: usize) -> (shape: Self) {
        let zeros: Vec<usize> = vec![0usize; dims];
        assert(zeros@ =~= zeroed(dims as nat));
        into_boxed_slice(zeros)
    }

    fn dim_len(&self, dim: usize) -> (len: Option<usize>) {
        if dim < self.len() {
            Some(self[dim])
        } else {
            None
        }
    }

    fn set_dim_len(&mut self, dim: usize, value: usize) {
        self[dim] = value;
    }
}

/// Exactly `DIMS` dimensions.
impl<const DIMS: usize> Shape for [usize; DIMS] {
    const MIN_DIMS: usize = DIMS;

    const MAX_DIMS: usize = DIMS;

    open spec fn dims(&self) -> Seq<usize> {
        self@
    }

    fn new_zeroed(dims: usize) -> (shape: Self) {
        let shape = [0usize;DIMS];
        assert(shape@ =~= zeroed(dims as nat));
        shape
    }

    fn dim_len(&self, dim: usize) -> (len: Option<usize>) {
        if dim < DIMS {
            Some(self[dim])
        } else {
            None
        }
    }

    fn set_dim_len(&mut self, dim: usize, value: usize) {
        self[dim] = value;
    }
}

/// Up to `MAX_DIMS` dimensions, stored in place.
///
/// The lengths are kept in an array of the holder's own and not in a vector
/// of another crate: the contents of such a vector would have to be named
/// once for all capacities, and a name that is assumed and not defined
/// cannot take the capacity as a parameter here. So the holder is verified
/// down to its storage, and nothing of it is assumed.
pub struct InlineShape<const MAX_DIMS: usize> {
    lens: [usize; MAX_DIMS],
    count: usize,
}

impl<const MAX_DIMS: usize> InlineShape<MAX_DIMS> {
    /// No more lengths are in use than there is room for.
    #[verifier::type_invariant]
    spec fn fits(self) -> bool {
        self.count <= MAX_DIMS
    }

    /// The number of dimensions.
    pub fn len(&self) -> (count: usize)
        ensures
            count == self.dims().len(),
            count <= MAX_DIMS,
    {
        proof {
            use_type_invariant(self);
        }
        self.count
    }

    /// The dimension lengths, outermost first.
    pub fn as_slice(&self) -> (lens: &[usize])
        ensures
            lens@ == self.dims(),
    {
        proof {
            use_type_invariant(self);
        }
        vstd::slice::slice_subrange(self.lens.as_slice(), 0, self.count)
    }
}

impl<const MAX_DIMS: usize> Shape for InlineShape<MAX_DIMS> {
    const MIN_DIMS: usize = 0;

    const MAX_DIMS: usize = MAX_DIMS;

    closed spec fn dims(&self) -> Seq<usize> {
        self.lens@.take(self.count as int)
    }

    fn new_zeroed(dims: usize) -> (shape: Self) {
        let shape = InlineShape { lens: [0usize;MAX_DIMS], count: dims };
        assert(shape.dims() =~= zeroed(dims as nat));
        shape
    }

    fn dim_len(&self, dim: usize) -> (len: Option<usize>) {
        proof {
            use_type_invariant(self);
        }
        if dim < self.count {
            Some(self.lens[dim])
        } else {
            None
        }
    }

    fn set_dim_len(&mut self, dim: usize, value: usize) {
        proof {
            use_type_invariant(&*self);
        }
        self.lens[dim] = value;
        assert(self.dims() =~= old(self).dims().update(dim as int, value));
    }
}

/// A boxed slice takes any number of dimensions.
pub proof fn lemma_boxed_bounds()
    ensures
        <Box<[usize]> as Shape>::MIN_DIMS == 0,
        <Box<[usize]> as Shape>::MAX_DIMS == usize::MAX,
{
}

/// An array of `DIMS` lengths takes exactly `DIMS` dimensions.
pub proof fn lemma_array_bounds<const DIMS: usize>()
    ensures
        <[usize; DIMS] as Shape>::MIN_DIMS == DIMS,
        <[usize; DIMS] as Shape>::MAX_DIMS == DIMS,
{
}

/// An in-place holder takes up to `MAX_DIMS` dimensions.
pub proof fn lemma_inline_bounds<const MAX_DIMS: usize>()
    ensures
        <InlineShape<MAX_DIMS> as Shape>::MIN_DIMS == 0,
        <InlineShape<MAX_DIMS> as Shape>::MAX_DIMS == MAX_DIMS,
{
}

} // verus!
