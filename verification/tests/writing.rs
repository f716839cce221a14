use serde_ndim::de::parse;
use serde_ndim::ser::{serialize_contiguous, serialize_sequential, NDim};
use serde_ndim::{Error, Nested};

fn num(value: i32) -> Nested<i32> {
    Nested::Number(value)
}

fn row(values: &[i32]) -> Nested<i32> {
    Nested::Sequence(values.iter().map(|v| num(*v)).collect())
}

fn seq(items: Vec<Nested<i32>>) -> Nested<i32> {
    Nested::Sequence(items)
}

struct Plain {
    shape: Vec<usize>,
    data: Vec<i32>,
}

impl<'a> NDim for &'a Plain {
    type Item = i32;
    type Iter = std::iter::Copied<std::slice::Iter<'a, i32>>;

    fn shape(self) -> Vec<usize> {
        self.shape.clone()
    }

    fn elements(self) -> Self::Iter {
        self.data.iter().copied()
    }
}

#[test]
fn one_dimension_from_a_slice() {
    let written = serialize_contiguous(&[3], Some(&[7, 8, 9][..]));
    assert_eq!(written, Ok(row(&[7, 8, 9])));
}

#[test]
fn shares_of_a_slice_in_row_major_order() {
    let data: Vec<i32> = (1..=12).collect();
    let written = serialize_contiguous(&[2, 3, 2], Some(&data[..]));
    let expected = seq(vec![
        seq(vec![row(&[1, 2]), row(&[3, 4]), row(&[5, 6])]),
        seq(vec![row(&[7, 8]), row(&[9, 10]), row(&[11, 12])]),
    ]);
    assert_eq!(written, Ok(expected));
}

#[test]
fn elements_drawn_from_a_run_in_row_major_order() {
    let data: Vec<i32> = (1..=12).collect();
    let mut run = data.iter().copied();
    let written = serialize_sequential(&[3, 4], &mut run);
    let expected = seq(vec![row(&[1, 2, 3, 4]), row(&[5, 6, 7, 8]), row(&[9, 10, 11, 12])]);
    assert_eq!(written, Ok(expected));
    assert_eq!(run.next(), None);
}

#[test]
fn a_run_is_left_behind_what_was_drawn() {
    let data: Vec<i32> = (1..=10).collect();
    let mut run = data.into_iter();
    let written = serialize_sequential(&[2, 2], &mut run);
    assert_eq!(written, Ok(seq(vec![row(&[1, 2]), row(&[3, 4])])));
    assert_eq!(run.next(), Some(5));
}

#[test]
fn both_ways_of_writing_agree() {
    let data: Vec<i32> = (0..24).collect();
    let shape = [2, 3, 4];
    let from_slice = serialize_contiguous(&shape, Some(&data[..])).unwrap();
    let from_run = serialize_sequential(&shape, &mut data.iter().copied()).unwrap();
    assert_eq!(from_slice, from_run);
}

#[test]
fn no_dimension_cannot_be_written() {
    let data = [1];
    assert_eq!(
        serialize_contiguous(&[], Some(&data[..])),
        Err(Error::ArrayMustBeAtLeastOneDimensional)
    );
    assert_eq!(
        serialize_contiguous::<i32>(&[], None),
        Err(Error::ArrayMustBeAtLeastOneDimensional)
    );
    let mut run = data.iter().copied();
    assert_eq!(
        serialize_sequential(&[], &mut run),
        Err(Error::ArrayMustBeAtLeastOneDimensional)
    );
    assert_eq!(run.next(), Some(1));
    let array = Plain { shape: vec![], data: vec![1] };
    assert_eq!(serde_ndim::serialize(&array), Err(Error::ArrayMustBeAtLeastOneDimensional));
}

#[test]
fn elements_that_are_not_contiguous() {
    assert_eq!(serialize_contiguous::<i32>(&[2, 2], None), Err(Error::NotContiguous));
}

#[test]
fn empty_dimensions_are_written_as_empty_sequences() {
    let none: [i32; 0] = [];
    assert_eq!(serialize_contiguous(&[0], Some(&none[..])), Ok(row(&[])));
    assert_eq!(serialize_contiguous(&[0, 3], Some(&none[..])), Ok(row(&[])));
    assert_eq!(
        serialize_contiguous(&[2, 0], Some(&none[..])),
        Ok(seq(vec![row(&[]), row(&[])]))
    );
    assert_eq!(
        serialize_sequential(&[2, 0], &mut none.iter().copied()),
        Ok(seq(vec![row(&[]), row(&[])]))
    );
}

#[test]
fn an_array_is_written_through_its_view() {
    let array = Plain { shape: vec![2, 2], data: vec![1, 2, 3, 4] };
    assert_eq!(serde_ndim::serialize(&array), Ok(seq(vec![row(&[1, 2]), row(&[3, 4])])));
}

#[test]
fn reading_then_writing_gives_the_value_back() {
    let value = || {
        seq(vec![
            seq(vec![row(&[1, 2]), row(&[3, 4]), row(&[5, 6])]),
            seq(vec![row(&[7, 8]), row(&[9, 10]), row(&[11, 12])]),
        ])
    };
    let (shape, data) = parse::<i32, Box<[usize]>>(value()).unwrap();
    assert_eq!(serialize_contiguous(&shape, Some(&data[..])), Ok(value()));
    assert_eq!(serialize_sequential(&shape, &mut data.iter().copied()), Ok(value()));
}

#[test]
fn writing_then_reading_gives_the_array_back() {
    let data: Vec<i32> = (1..=30).collect();
    let written = serialize_contiguous(&[5, 3, 2], Some(&data[..])).unwrap();
    let (shape, read) = parse::<i32, [usize; 3]>(written).unwrap();
    assert_eq!(shape, [5, 3, 2]);
    assert_eq!(read, data);
}
