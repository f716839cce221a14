use vstd::prelude::*;
use vstd::std_specs::iter::IteratorSpec;
use crate::iter::next_of;
use crate::error::Error;
use crate::nested::lemma_view_sequence;
use crate::nested::views;
use crate::nested::Nested;
use crate::nested::Tree;
use crate::shape::product;

verus! {

/// The nested value of an array with the dimension lengths `dims` whose
/// elements in row-major order are `data`.
///
/// Without dimensions it is the one number. Else it is a sequence of as many
/// items as the first dimension is long, each the nested value of the next
/// equal share of the elements under the dimensions that are left.
pub open spec fn nest<T>(dims: Seq<usize>, data: Seq<T>) -> Tree<T>
    decreases dims.len(),
{
    if dims.len() == 0 {
        Tree::Number(data[0])
    } else {
        let share = product(dims.skip(1));
        Tree::Sequence(
            Seq::new(
                dims[0] as nat,
                |i: int| nest(dims.skip(1), data.subrange(i * share, (i + 1) * share)),
            ),
        )
    }
}

/// One level of the nested value that is being written: a sequence of
/// `count` items, each shaped by the dimension lengths that are left, drawn
/// from one shared run of elements.
struct SerializeWithShape<'a, 'b, I> {
    count: usize,
    shape_rest: &'a [usize],
    iter: &'b mut I,
}

impl<'a, 'b, I: Iterator> SerializeWithShape<'a, 'b, I> {
    /// Writes the level: draws as many elements as the level holds from the
    /// run, in order, and leaves the run behind them.
    fn serialize(self) -> (out: Nested<I::Item>)
        requires
            <I as IteratorSpec>::obeys_prophetic_iter_laws(old(self.iter)),
            <I as IteratorSpec>::remaining(old(self.iter)).len() >= self.count * product(
                self.shape_rest@,
            ),
        ensures
            <I as IteratorSpec>::obeys_prophetic_iter_laws(final(self.iter)),
            <I as IteratorSpec>::remaining(final(self.iter)) == <I as IteratorSpec>::remaining(
                old(self.iter),
            ).skip(self.count * product(self.shape_rest@)),
            out@ == nest(
                seq![self.count] + self.shape_rest@,
                <I as IteratorSpec>::remaining(old(self.iter)).take(
                    self.count * product(self.shape_rest@),
                ),
            ),
        decreases self.shape_rest@.len(),
    {
        let SerializeWithShape { count, shape_rest, iter } = self;
        let ghost dims = seq![count] + shape_rest@;
        let ghost share = product(shape_rest@);
        assert(dims.skip(1) =~= shape_rest@);
        let mut items: Vec<Nested<I::Item>> = Vec::new();
        let mut done: usize = 0;
        if shape_rest.len() == 0 {
            assert(share == 1);
            assert(count * share == count) by (nonlinear_arith)
                requires
                    share == 1,
            ;
            while done < count
                invariant
                    done <= count,
                    items@.len() == done,
                    shape_rest@.len() == 0,
                    <I as IteratorSpec>::obeys_prophetic_iter_laws(iter),
                    <I as IteratorSpec>::remaining(old(self.iter)).len() >= count,
                    <I as IteratorSpec>::remaining(iter) == <I as IteratorSpec>::remaining(
                        old(self.iter),
                    ).skip(done as int),
                    forall|k: int|
                        0 <= k < done ==> (#[trigger] items@[k])@ == Tree::Number(
                            <I as IteratorSpec>::remaining(old(self.iter))[k],
                        ),
                decreases count - done,
            {
                match next_of(iter) {
                    Some(element) => {
                        items.push(Nested::Number(element));
                    },
                    None => {
                        assert(false);
                    },
                }
                done += 1;
            }
        } else {
            let next_count = shape_rest[0];
            let next_rest = vstd::slice::slice_subrange(shape_rest, 1, shape_rest.len());
            assert(seq![next_count] + next_rest@ =~= shape_rest@);
            assert(share == next_count * product(next_rest@));
            while done < count
                invariant
                    done <= count,
                    items@.len() == done,
                    shape_rest@.len() > 0,
                    shape_rest == self.shape_rest,
                    next_rest@.len() < shape_rest@.len(),
                    seq![next_count] + next_rest@ == shape_rest@,
                    share == product(shape_rest@),
                    share == next_count * product(next_rest@),
                    <I as IteratorSpec>::obeys_prophetic_iter_laws(iter),
                    <I as IteratorSpec>::remaining(old(self.iter)).len() >= count * share,
                    <I as IteratorSpec>::remaining(iter) == <I as IteratorSpec>::remaining(
                        old(self.iter),
                    ).skip(done * share),
                    forall|k: int|
                        0 <= k < done ==> (#[trigger] items@[k])@ == nest(
                            shape_rest@,
                            <I as IteratorSpec>::remaining(old(self.iter)).subrange(
                                k * share,
                                (k + 1) * share,
                            ),
                        ),
                decreases count - done,
            {
                assert((done + 1) * share <= count * share && done * share + share == (done + 1)
                    * share && 0 <= done * share) by (nonlinear_arith)
                    requires
                        done < count,
                        share >= 0,
                ;
                let level = SerializeWithShape {
                    count: next_count,
                    shape_rest: next_rest,
                    iter: &mut *iter,
                };
                let item = level.serialize();
                assert(<I as IteratorSpec>::remaining(old(self.iter)).skip(done * share).take(
                    share as int,
                ) =~= <I as IteratorSpec>::remaining(old(self.iter)).subrange(
                    done * share,
                    (done + 1) * share,
                ));
                assert(<I as IteratorSpec>::remaining(old(self.iter)).skip(done * share).skip(
                    share as int,
                ) =~= <I as IteratorSpec>::remaining(old(self.iter)).skip((done + 1) * share));
                items.push(item);
                done += 1;
            }
        }
        proof {
            lemma_view_sequence(items);
        }
        assert(views(items@) =~= nest(
            dims,
            <I as IteratorSpec>::remaining(old(self.iter)).take(count * share),
        )->Sequence_0) by {
            assert forall|k: int| 0 <= k < count implies (#[trigger] views(items@)[k]) == nest(
                shape_rest@,
                <I as IteratorSpec>::remaining(old(self.iter)).take(count * share).subrange(
                    k * share,
                    (k + 1) * share,
                ),
            ) by {
                assert((k + 1) * share <= count * share && k * share + share == (k + 1) * share
                    && 0 <= k * share) by (nonlinear_arith)
                    requires
                        0 <= k < count,
                        share >= 0,
                ;
                assert(<I as IteratorSpec>::remaining(old(self.iter)).take(
                    count * share,
                ).subrange(k * share, (k + 1) * share) =~= <I as IteratorSpec>::remaining(
                    old(self.iter),
                ).subrange(k * share, (k + 1) * share));
                if shape_rest@.len() == 0 {
                    assert(<I as IteratorSpec>::remaining(old(self.iter)).subrange(
                        k * share,
                        (k + 1) * share,
                    )[0] == <I as IteratorSpec>::remaining(old(self.iter))[k]);
                }
            }
        }
        Nested::Sequence(items)
    }
}

/// Writes one level from a contiguous window of elements: a sequence of
/// `count` items, each the nested value of one of `count` equal shares of
/// the window under the dimension lengths that are left.
fn serialize_window<T: Copy>(count: usize, shape_rest: &[usize], window: &[T]) -> (out: Nested<
    T,
>)
    requires
        window@.len() == count * product(shape_rest@),
    ensures
        out@ == nest(seq![count] + shape_rest@, window@),
    decreases shape_rest@.len(),
{
    let ghost dims = seq![count] + shape_rest@;
    let ghost share = product(shape_rest@);
    assert(dims.skip(1) =~= shape_rest@);
    let mut items: Vec<Nested<T>> = Vec::new();
    let mut done: usize = 0;
    if shape_rest.len() == 0 {
        assert(count * share == count) by (nonlinear_arith)
            requires
                share == 1,
        ;
        while done < count
            invariant
                done <= count,
                items@.len() == done,
                window@.len() == count,
                forall|k: int| 0 <= k < done ==> (#[trigger] items@[k])@ == Tree::Number(window@[k]),
            decreases count - done,
        {
            items.push(Nested::Number(window[done]));
            done += 1;
        }
    } else if count > 0 {
        let next_count = shape_rest[0];
        let next_rest = vstd::slice::slice_subrange(shape_rest, 1, shape_rest.len());
        assert(seq![next_count] + next_rest@ =~= shape_rest@);
        assert(share == next_count * product(next_rest@));
        let width = window.len() / count;
        assert(width == share) by (nonlinear_arith)
            requires
                width == (count * share) / (count as int),
                count > 0,
                share >= 0,
        ;
        let mut start: usize = 0;
        while done < count
            invariant
                done <= count,
                items@.len() == done,
                shape_rest@.len() > 0,
                next_rest@.len() < shape_rest@.len(),
                seq![next_count] + next_rest@ == shape_rest@,
                share == product(shape_rest@),
                share == next_count * product(next_rest@),
                width == share,
                start == done * share,
                window@.len() == count * share,
                forall|k: int|
                    0 <= k < done ==> (#[trigger] items@[k])@ == nest(
                        shape_rest@,
                        window@.subrange(k * share, (k + 1) * share),
                    ),
            decreases count - done,
        {
            assert((done + 1) * share <= count * share && done * share + share == (done + 1)
                * share) by (nonlinear_arith)
                requires
                    done < count,
                    share >= 0,
            ;
            assert(start + width <= window@.len() == window.len());
            let part = vstd::slice::slice_subrange(window, start, start + width);
            let item = serialize_window(next_count, next_rest, part);
            items.push(item);
            start += width;
            done += 1;
        }
    }
    proof {
        lemma_view_sequence(items);
    }
    assert(views(items@) =~= nest(dims, window@)->Sequence_0) by {
        assert forall|k: int| 0 <= k < count implies (#[trigger] views(items@)[k]) == nest(
            shape_rest@,
            window@.subrange(k * share, (k + 1) * share),
        ) by {
            assert((k + 1) * share <= count * share && k * share + share == (k + 1) * share && 0
                <= k * share) by (nonlinear_arith)
                requires
                    0 <= k < count,
                    share >= 0,
            ;
            if shape_rest@.len() == 0 {
                assert(window@.subrange(k * share, (k + 1) * share)[0] == window@[k]);
            }
        }
    }
    Nested::Sequence(items)
}

/// What writing an array out has to give: an error where the array has no
/// dimension, and else the nested value of the first elements, as many as
/// the dimension lengths ask for.
pub open spec fn written<T>(
    dims: Seq<usize>,
    data: Seq<T>,
    result: Result<Nested<T>, Error>,
) -> bool {
    if dims.len() == 0 {
        result matches Err(error) && error == Error::ArrayMustBeAtLeastOneDimensional
    } else {
        result matches Ok(value) && value@ == nest(dims, data.take(product(dims) as int))
    }
}

/// Writes an array, given by its dimension lengths and a run that yields its
/// elements in row-major order, as a nested value. The elements are drawn
/// one after the other, each exactly once, and the run is left behind them.
pub fn serialize_sequential<I: Iterator>(shape: &[usize], elements: &mut I) -> (result: Result<
    Nested<I::Item>,
    Error,
>)
    requires
        <I as IteratorSpec>::obeys_prophetic_iter_laws(old(elements)),
        shape@.len() > 0 ==> <I as IteratorSpec>::remaining(old(elements)).len() >= product(
            shape@,
        ),
    ensures
        written(shape@, <I as IteratorSpec>::remaining(old(elements)), result),
        <I as IteratorSpec>::obeys_prophetic_iter_laws(final(elements)),
        <I as IteratorSpec>::remaining(final(elements)) == (if shape@.len() == 0 {
            <I as IteratorSpec>::remaining(old(elements))
        } else {
            <I as IteratorSpec>::remaining(old(elements)).skip(product(shape@) as int)
        }),
{
    if shape.len() == 0 {
        return Err(Error::ArrayMustBeAtLeastOneDimensional);
    }
    let count = shape[0];
    let shape_rest = vstd::slice::slice_subrange(shape, 1, shape.len());
    assert(seq![count] + shape_rest@ =~= shape@);
    assert(shape@.skip(1) =~= shape_rest@);
    let level = SerializeWithShape { count, shape_rest, iter: elements };
    Ok(level.serialize())
}

/// Writes an array, given by its dimension lengths and its elements as one
/// contiguous run in row-major order, as a nested value. `None` says that
/// the array cannot hand its elements out as such a run.
pub fn serialize_contiguous<T: Copy>(shape: &[usize], data: Option<&[T]>) -> (result: Result<
    Nested<T>,
    Error,
>)
    requires
        shape@.len() > 0 ==> (data matches Some(elements) ==> elements@.len() == product(shape@)),
    ensures
        match data {
            Some(elements) => written(shape@, elements@, result),
            None => if shape@.len() == 0 {
                result matches Err(error) && error == Error::ArrayMustBeAtLeastOneDimensional
            } else {
                result matches Err(error) && error == Error::NotContiguous
            },
        },
{
    if shape.len() == 0 {
        return Err(Error::ArrayMustBeAtLeastOneDimensional);
    }
    let elements = match data {
        Some(elements) => elements,
        None => {
            return Err(Error::NotContiguous);
        },
    };
    let count = shape[0];
    let shape_rest = vstd::slice::slice_subrange(shape, 1, shape.len());
    assert(seq![count] + shape_rest@ =~= shape@);
    assert(shape@.skip(1) =~= shape_rest@);
    assert(elements@.take(product(shape@) as int) =~= elements@);
    Ok(serialize_window(count, shape_rest, elements))
}

/// A view of an array that can be written out as a nested value. It is
/// meant for references to arrays and other handles that are cheap to copy.
pub trait NDim: Copy {
    /// The element type.
    type Item;

    /// The run that yields the elements.
    type Iter: Iterator<Item = Self::Item>;

    /// The dimension lengths of the array, outermost first.
    fn shape(self) -> Vec<usize>;

    /// A run that yields the elements of the array in row-major order.
    fn elements(self) -> Self::Iter;
}

/// Writes an array as a nested value.
///
/// The array is asked for its dimension lengths and then, where it has any,
/// for its elements, of which as many are drawn as the lengths ask for.
pub fn serialize<A: NDim>(array: A) -> (result: Result<Nested<A::Item>, Error>)
    requires
        forall|shape: Vec<usize>, elements: A::Iter|
            #![trigger
                call_ensures(A::shape, (array,), shape),
                call_ensures(A::elements, (array,), elements)
            ]
            call_ensures(A::shape, (array,), shape) && shape@.len() > 0 && call_ensures(
                A::elements,
                (array,),
                elements,
            ) ==> <A::Iter as IteratorSpec>::obeys_prophetic_iter_laws(&elements)
                && <A::Iter as IteratorSpec>::remaining(&elements).len() >= product(shape@),
    ensures
        exists|shape: Vec<usize>| #[trigger]
            call_ensures(A::shape, (array,), shape) && if shape@.len() == 0 {
                written(shape@, Seq::empty(), result)
            } else {
                exists|elements: A::Iter| #[trigger]
                    call_ensures(A::elements, (array,), elements) && written(
                        shape@,
                        <A::Iter as IteratorSpec>::remaining(&elements),
                        result,
                    )
            },
{
    let shape = array.shape();
    if shape.len() == 0 {
        return Err(Error::ArrayMustBeAtLeastOneDimensional);
    }
    let mut elements = array.elements();
    let result = serialize_sequential(shape.as_slice(), &mut elements);
    result
}

} // verus!
