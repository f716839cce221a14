use serde_ndim::de::{parse, MakeNDim};
use serde_ndim::shape::{InlineShape, Shape};
use serde_ndim::{Error, Nested};

fn num(value: i32) -> Nested<i32> {
    Nested::Number(value)
}

fn row(values: &[i32]) -> Nested<i32> {
    Nested::Sequence(values.iter().map(|v| num(*v)).collect())
}

fn seq(items: Vec<Nested<i32>>) -> Nested<i32> {
    Nested::Sequence(items)
}

fn boxed(input: Nested<i32>) -> Result<(Vec<usize>, Vec<i32>), Error> {
    assert!(input.leads_to_scalar(usize::MAX));
    parse::<i32, Box<[usize]>>(input).map(|(shape, data)| (shape.into_vec(), data))
}

fn fixed<const N: usize>(input: Nested<i32>) -> Result<([usize; N], Vec<i32>), Error> {
    assert!(input.leads_to_scalar(N));
    parse::<i32, [usize; N]>(input)
}

#[derive(Debug, PartialEq)]
struct Plain {
    shape: Vec<usize>,
    data: Vec<i32>,
}

impl MakeNDim for Plain {
    type Shape = Box<[usize]>;
    type Item = i32;

    fn from_shape_and_data(shape: Box<[usize]>, data: Vec<i32>) -> Self {
        Plain { shape: shape.into_vec(), data }
    }
}

#[test]
fn shape_and_flat_data_of_a_matrix() {
    let input = seq(vec![row(&[1, 2, 3, 4]), row(&[5, 6, 7, 8])]);
    assert_eq!(boxed(input), Ok((vec![2, 4], vec![1, 2, 3, 4, 5, 6, 7, 8])));
    let input = seq(vec![row(&[1, 2, 3, 4]), row(&[5, 6, 7, 8])]);
    assert_eq!(fixed::<2>(input), Ok(([2, 4], vec![1, 2, 3, 4, 5, 6, 7, 8])));
}

#[test]
fn deserialize_hands_shape_and_data_to_the_array() {
    let input = seq(vec![row(&[1, 2, 3]), row(&[4, 5, 6])]);
    let array: Plain = serde_ndim::deserialize(input).unwrap();
    assert_eq!(array, Plain { shape: vec![2, 3], data: vec![1, 2, 3, 4, 5, 6] });
}

#[test]
fn inline_shape_is_read_like_the_others() {
    let input = seq(vec![
        seq(vec![row(&[1, 2]), row(&[3, 4]), row(&[5, 6])]),
        seq(vec![row(&[7, 8]), row(&[9, 10]), row(&[11, 12])]),
    ]);
    assert!(input.leads_to_scalar(4));
    let (shape, data) = parse::<i32, InlineShape<4>>(input).unwrap();
    assert_eq!(shape.len(), 3);
    assert_eq!(shape.as_slice(), &[2, 3, 2]);
    assert_eq!(shape.dim_len(1), Some(3));
    assert_eq!(shape.dim_len(3), None);
    assert_eq!(data, (1..=12).collect::<Vec<i32>>());
}

#[test]
fn a_bare_number_has_no_dimension() {
    assert_eq!(boxed(num(5)), Ok((vec![], vec![5])));
    assert_eq!(fixed::<0>(num(5)), Ok(([], vec![5])));
}

#[test]
fn a_single_item_in_every_dimension() {
    let input = seq(vec![seq(vec![row(&[7])])]);
    assert_eq!(boxed(input), Ok((vec![1, 1, 1], vec![7])));
}

#[test]
fn too_few_dimensions_for_a_fixed_shape() {
    assert_eq!(
        fixed::<2>(row(&[1, 2, 3, 4])),
        Err(Error::MinDimsNotReached { min_dims: 2, found: 1 })
    );
    assert_eq!(fixed::<1>(num(1)), Err(Error::MinDimsNotReached { min_dims: 1, found: 0 }));
}

#[test]
fn too_many_dimensions_for_a_fixed_shape() {
    let input = seq(vec![seq(vec![seq(vec![row(&[1, 2, 3]), row(&[4, 5, 6])])])]);
    assert_eq!(fixed::<3>(input), Err(Error::MaxDimsExceeded { max_dims: 3 }));
    assert_eq!(fixed::<0>(row(&[1])), Err(Error::MaxDimsExceeded { max_dims: 0 }));
}

#[test]
fn too_many_dimensions_for_an_inline_shape() {
    let input = seq(vec![seq(vec![row(&[1, 2])])]);
    assert!(input.leads_to_scalar(2));
    assert_eq!(
        parse::<i32, InlineShape<2>>(input).map(|(shape, data)| (shape.as_slice().to_vec(), data)),
        Err(Error::MaxDimsExceeded { max_dims: 2 })
    );
}

#[test]
fn ragged_inner_row_is_too_short() {
    let input = seq(vec![row(&[1, 2, 3, 4]), row(&[5, 6, 8])]);
    assert_eq!(boxed(input), Err(Error::TooFewElements { depth: 1, expected: 4, found: 3 }));
}

#[test]
fn outer_sequence_of_a_later_branch_is_too_short() {
    let input = seq(vec![
        seq(vec![row(&[1, 2]), row(&[3, 4])]),
        seq(vec![row(&[5, 6])]),
    ]);
    assert_eq!(boxed(input), Err(Error::TooFewElements { depth: 1, expected: 2, found: 1 }));
}

#[test]
fn ragged_inner_row_is_too_long() {
    let input = seq(vec![row(&[1, 2]), row(&[3, 4, 5])]);
    assert_eq!(boxed(input), Err(Error::TrailingElements { depth: 1, expected: 2 }));
}

#[test]
fn what_trails_is_not_looked_into() {
    let input = seq(vec![row(&[1, 2]), seq(vec![num(3), num(4), row(&[5])])]);
    assert_eq!(boxed(input), Err(Error::TrailingElements { depth: 1, expected: 2 }));
}

#[test]
fn sequence_where_the_first_path_had_a_number() {
    let input = seq(vec![
        seq(vec![num(1), row(&[2]), num(3), num(4)]),
        row(&[5, 6, 7, 8]),
    ]);
    assert_eq!(boxed(input), Err(Error::UnexpectedSequence { depth: 2 }));
}

#[test]
fn number_where_the_first_path_had_a_sequence() {
    let input = seq(vec![row(&[1, 2]), num(3)]);
    assert_eq!(boxed(input), Err(Error::UnexpectedScalar { depth: 1, number: true }));
}

#[test]
fn other_scalar_where_the_first_path_had_a_sequence() {
    let input = seq(vec![row(&[1, 2]), Nested::Other]);
    assert_eq!(boxed(input), Err(Error::UnexpectedScalar { depth: 1, number: false }));
}

#[test]
fn a_leaf_that_is_no_number() {
    let input = seq(vec![seq(vec![Nested::Other])]);
    assert_eq!(boxed(input), Err(Error::InvalidLeafType { depth: 2 }));
    let input = seq(vec![row(&[1, 2]), seq(vec![num(3), Nested::Other])]);
    assert_eq!(boxed(input), Err(Error::InvalidLeafType { depth: 2 }));
}

#[test]
fn the_place_of_a_leaf_is_judged_before_its_kind() {
    let input = seq(vec![Nested::Other]);
    assert_eq!(fixed::<2>(input), Err(Error::MinDimsNotReached { min_dims: 2, found: 1 }));
}

#[test]
fn the_first_fault_on_the_way_is_reported() {
    let input = seq(vec![row(&[1, 2]), row(&[3]), row(&[4, 5, 6]), num(7)]);
    assert_eq!(boxed(input), Err(Error::TooFewElements { depth: 1, expected: 2, found: 1 }));
    let input = seq(vec![row(&[1, 2]), num(3), row(&[4])]);
    assert_eq!(boxed(input), Err(Error::UnexpectedScalar { depth: 1, number: true }));
}

#[test]
fn whether_the_first_path_leads_to_a_scalar() {
    assert!(num(1).leads_to_scalar(0));
    assert!(Nested::<i32>::Other.leads_to_scalar(0));
    assert!(row(&[1]).leads_to_scalar(1));
    assert!(!row(&[]).leads_to_scalar(1));
    assert!(!seq(vec![row(&[]), row(&[1])]).leads_to_scalar(2));
    assert!(seq(vec![row(&[1]), row(&[])]).leads_to_scalar(2));
    // cut off by the limit before the empty sequence is reached
    assert!(row(&[]).leads_to_scalar(0));
    assert!(seq(vec![seq(vec![row(&[])])]).leads_to_scalar(2));
    assert!(!seq(vec![seq(vec![row(&[])])]).leads_to_scalar(3));
}

#[test]
fn an_empty_later_row_is_too_short() {
    let input = seq(vec![row(&[1]), row(&[])]);
    assert_eq!(boxed(input), Err(Error::TooFewElements { depth: 1, expected: 1, found: 0 }));
}

#[test]
fn the_shape_comes_from_the_first_path_alone() {
    // every later branch agrees: the lengths are those of the first path
    let input = seq(vec![
        seq(vec![row(&[1, 2]), row(&[3, 4]), row(&[5, 6])]),
        seq(vec![row(&[7, 8]), row(&[9, 10]), row(&[11, 12])]),
    ]);
    assert_eq!(boxed(input).map(|(shape, _)| shape), Ok(vec![2, 3, 2]));
    // a later branch that is longer or shorter than the first never
    // changes a length: it is a fault
    let input = seq(vec![
        seq(vec![row(&[1, 2]), row(&[3, 4])]),
        seq(vec![row(&[5, 6]), row(&[7, 8]), row(&[9, 10])]),
    ]);
    assert_eq!(boxed(input), Err(Error::TrailingElements { depth: 1, expected: 2 }));
    let input = seq(vec![
        seq(vec![row(&[1, 2]), row(&[3, 4])]),
        seq(vec![row(&[5, 6, 7]), row(&[8, 9, 10])]),
    ]);
    assert_eq!(boxed(input), Err(Error::TrailingElements { depth: 2, expected: 2 }));
}

#[test]
fn the_count_of_numbers_is_the_product_of_the_shape() {
    let input = seq(vec![
        seq(vec![row(&[1, 2, 3]), row(&[4, 5, 6])]),
        seq(vec![row(&[7, 8, 9]), row(&[10, 11, 12])]),
        seq(vec![row(&[13, 14, 15]), row(&[16, 17, 18])]),
        seq(vec![row(&[19, 20, 21]), row(&[22, 23, 24])]),
    ]);
    let (shape, data) = boxed(input).unwrap();
    assert_eq!(shape, vec![4, 2, 3]);
    assert_eq!(data.len(), 24);
    assert_eq!(data, (1..=24).collect::<Vec<i32>>());
}
