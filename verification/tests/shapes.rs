use serde_ndim::shape::{element_count, InlineShape, Shape};

#[test]
fn bounds_of_the_holders() {
    assert_eq!(<Box<[usize]> as Shape>::MIN_DIMS, 0);
    assert_eq!(<Box<[usize]> as Shape>::MAX_DIMS, usize::MAX);
    assert_eq!(<[usize; 3] as Shape>::MIN_DIMS, 3);
    assert_eq!(<[usize; 3] as Shape>::MAX_DIMS, 3);
    assert_eq!(<InlineShape<6> as Shape>::MIN_DIMS, 0);
    assert_eq!(<InlineShape<6> as Shape>::MAX_DIMS, 6);
}

#[test]
fn boxed_shape_starts_with_placeholders() {
    let mut shape = <Box<[usize]> as Shape>::new_zeroed(3);
    assert_eq!(&shape[..], &[0, 0, 0]);
    assert_eq!(shape.dim_len(0), Some(0));
    assert_eq!(shape.dim_len(2), Some(0));
    assert_eq!(shape.dim_len(3), None);
    shape.set_dim_len(1, 7);
    assert_eq!(&shape[..], &[0, 7, 0]);
    assert_eq!(shape.dim_len(1), Some(7));
    let empty = <Box<[usize]> as Shape>::new_zeroed(0);
    assert_eq!(empty.len(), 0);
    assert_eq!(empty.dim_len(0), None);
}

#[test]
fn array_shape_starts_with_placeholders() {
    let mut shape = <[usize; 2] as Shape>::new_zeroed(2);
    assert_eq!(shape, [0, 0]);
    shape.set_dim_len(0, 4);
    shape.set_dim_len(1, 9);
    assert_eq!(shape, [4, 9]);
    assert_eq!(shape.dim_len(1), Some(9));
    assert_eq!(shape.dim_len(2), None);
}

#[test]
fn inline_shape_starts_with_placeholders() {
    let mut shape = <InlineShape<4> as Shape>::new_zeroed(2);
    assert_eq!(shape.len(), 2);
    assert_eq!(shape.as_slice(), &[0, 0]);
    assert_eq!(shape.dim_len(1), Some(0));
    assert_eq!(shape.dim_len(2), None);
    assert_eq!(shape.dim_len(3), None);
    shape.set_dim_len(1, 5);
    shape.set_dim_len(0, 3);
    assert_eq!(shape.as_slice(), &[3, 5]);
    let full = <InlineShape<4> as Shape>::new_zeroed(4);
    assert_eq!(full.as_slice(), &[0, 0, 0, 0]);
    let none = <InlineShape<4> as Shape>::new_zeroed(0);
    assert_eq!(none.len(), 0);
    assert_eq!(none.dim_len(0), None);
}

#[test]
fn count_of_elements_is_the_product_of_the_lengths() {
    assert_eq!(element_count(&[]), Some(1));
    assert_eq!(element_count(&[7]), Some(7));
    assert_eq!(element_count(&[3, 2, 4]), Some(24));
    assert_eq!(element_count(&[1, 1, 1, 1]), Some(1));
    assert_eq!(element_count(&[usize::MAX]), Some(usize::MAX));
    assert_eq!(element_count(&[usize::MAX, 1]), Some(usize::MAX));
}

#[test]
fn count_of_elements_that_does_not_fit() {
    assert_eq!(element_count(&[usize::MAX, 2]), None);
    assert_eq!(element_count(&[2, usize::MAX]), None);
    assert_eq!(element_count(&[usize::MAX / 2 + 1, 2]), None);
    assert_eq!(element_count(&[usize::MAX / 2, 2]), Some(usize::MAX - 1));
}

#[test]
fn an_empty_dimension_makes_the_array_empty() {
    assert_eq!(element_count(&[0]), Some(0));
    assert_eq!(element_count(&[5, 0, 3]), Some(0));
    assert_eq!(element_count(&[usize::MAX, usize::MAX, 0]), Some(0));
    assert_eq!(element_count(&[0, usize::MAX, usize::MAX]), Some(0));
}
