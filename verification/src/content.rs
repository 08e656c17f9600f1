//! What a sparse store can hold: values with a mathematical model, a test for
//! equal models and a way to make a second value with the same model.

use vstd::prelude::*;

verus! {

/// A value that a run-length store can hold.
///
/// Two values are interchangeable exactly when their models are equal; runs
/// merge on that equality and split by `duplicate`.
pub trait Content: Sized {
    /// The mathematical value that this content stands for.
    type Model;

    /// The model of this value.
    spec fn model(&self) -> Self::Model;

    /// Whether both values have the same model.
    fn same(&self, other: &Self) -> (r: bool)
        ensures
            r == (self.model() == other.model()),
    ;

    /// A second value with the same model.
    fn duplicate(&self) -> (r: Self)
        ensures
            r.model() == self.model(),
    ;
}

impl Content for bool {
    type Model = bool;

    open spec fn model(&self) -> bool {
        *self
    }

    fn same(&self, other: &Self) -> (r: bool) {
        *self == *other
    }

    fn duplicate(&self) -> (r: Self) {
        *self
    }
}

impl Content for i16 {
    type Model = i16;

    open spec fn model(&self) -> i16 {
        *self
    }

    fn same(&self, other: &Self) -> (r: bool) {
        *self == *other
    }

    fn duplicate(&self) -> (r: Self) {
        *self
    }
}

impl Content for String {
    type Model = Seq<char>;

    open spec fn model(&self) -> Seq<char> {
        self@
    }

    fn same(&self, other: &Self) -> (r: bool) {
        *self == *other
    }

    fn duplicate(&self) -> (r: Self) {
        self.clone()
    }
}

impl<T: Content> Content for Option<T> {
    type Model = Option<T::Model>;

    open spec fn model(&self) -> Option<T::Model> {
        match self {
            Some(t) => Some(t.model()),
            None => None,
        }
    }

    fn same(&self, other: &Self) -> (r: bool) {
        match (self, other) {
            (Some(x), Some(y)) => x.same(y),
            (None, None) => true,
            _ => false,
        }
    }

    fn duplicate(&self) -> (r: Self) {
        match self {
            Some(x) => Some(x.duplicate()),
            None => None,
        }
    }
}

/// The model of an optional content.
pub open spec fn option_model<T: Content>(v: Option<T>) -> Option<T::Model> {
    match v {
        Some(t) => Some(t.model()),
        None => None,
    }
}

} // verus!
