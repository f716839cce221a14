use vstd::prelude::*;

verus! {

/// A nested value as a structured-data reader hands it over, or as a writer
/// takes it: a number, some other scalar, or a sequence of nested values.
#[derive(Debug, PartialEq)]
pub enum Nested<T> {
    /// A number, held as the element type.
    Number(T),
    /// A scalar that is no number of the element type (a boolean, a string).
    Other,
    /// A sequence of nested values.
    Sequence(Vec<Nested<T>>),
}

/// The mathematical model of a [`Nested`] value.
#[verifier::ext_equal]
pub enum Tree<T> {
    /// A number.
    Number(T),
    /// A scalar that is no number.
    Other,
    /// A sequence of trees.
    Sequence(Seq<Tree<T>>),
}

/// The tree that a nested value stands for.
pub open spec fn tree_of<T>(value: Nested<T>) -> Tree<T>
    decreases value,
{
    match value {
        Nested::Number(number) => Tree::Number(number),
        Nested::Other => Tree::Other,
        Nested::Sequence(items) => Tree::Sequence(
            Seq::new(
                items@.len(),
                |i: int|
                    if 0 <= i < items@.len() {
                        tree_of(items@[i])
                    } else {
                        Tree::Other
                    },
            ),
        ),
    }
}

impl<T> View for Nested<T> {
    type V = Tree<T>;

    open spec fn view(&self) -> Tree<T> {
        tree_of(*self)
    }
}

/// The trees of the items of a sequence, in order.
pub open spec fn views<T>(items: Seq<Nested<T>>) -> Seq<Tree<T>> {
    Seq::new(items.len(), |i: int| items[i]@)
}

/// The view of a sequence holds the views of its items.
pub proof fn lemma_view_sequence<T>(items: Vec<Nested<T>>)
    ensures
        Nested::Sequence(items)@ == Tree::Sequence(views(items@)),
{
    assert(Nested::Sequence(items)@->Sequence_0 =~= views(items@));
}

/// Whether every sequence in a tree has a count of items that fits a
/// `usize`, as the sequences of every [`Nested`] value have.
pub open spec fn bounded<T>(tree: Tree<T>) -> bool
    decreases tree,
{
    match tree {
        Tree::Sequence(items) => {
            &&& items.len() <= usize::MAX
            &&& forall|i: int| 0 <= i < items.len() ==> bounded(#[trigger] items[i])
        },
        _ => true,
    }
}

/// The tree of a nested value is bounded.
pub proof fn lemma_view_bounded<T>(value: Nested<T>)
    ensures
        bounded(value@),
    decreases value,
{
    match value {
        Nested::Sequence(items) => {
            lemma_view_sequence(items);
            assert(items@.len() == items.len());
            assert forall|i: int| 0 <= i < items@.len() implies bounded(
                #[trigger] views(items@)[i],
            ) by {
                lemma_view_bounded(items@[i]);
            }
        },
        _ => {},
    }
}

/// Whether the first path of a value that stands `depth` sequences deep (the
/// value, then the first item of each sequence on the way) ends at a scalar,
/// or goes deeper than `max_dims` before it ends. The shape of a value whose
/// first path ends in an empty sequence cannot be inferred.
pub open spec fn has_first_scalar<T>(tree: Tree<T>, depth: nat, max_dims: usize) -> bool
    decreases tree,
{
    match tree {
        Tree::Sequence(items) => depth >= max_dims || (items.len() > 0 && has_first_scalar(
            items[0],
            depth + 1,
            max_dims,
        )),
        _ => true,
    }
}

impl<T> Nested<T> {
    /// Whether the shape of the value can be inferred by a holder of at most
    /// `max_dims` dimensions: see [`has_first_scalar`].
    pub fn leads_to_scalar(&self, max_dims: usize) -> (leads: bool)
        ensures
            leads == has_first_scalar(self@, 0, max_dims),
    {
        self.leads_to_scalar_from(0, max_dims)
    }

    fn leads_to_scalar_from(&self, depth: usize, max_dims: usize) -> (leads: bool)
        ensures
            leads == has_first_scalar(self@, depth as nat, max_dims),
        decreases self,
    {
        match self {
            Nested::Sequence(items) => {
                proof {
                    lemma_view_sequence(*items);
                }
                if depth >= max_dims {
                    true
                } else if items.len() == 0 {
                    false
                } else {
                    items[0].leads_to_scalar_from(depth + 1, max_dims)
                }
            },
            _ => true,
        }
    }
}

} // verus!
