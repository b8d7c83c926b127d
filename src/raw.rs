//! Read access to the caller's raw arguments.
use vstd::prelude::*;

verus! {

/// Marks the containers that may serve as raw arguments.
pub trait Sealed {}

/// An indexable, length-bounded sequence of raw arguments, each a byte string.
pub trait RawArgs: Sealed {
    /// The arguments, in order.
    spec fn elements(&self) -> Seq<Seq<u8>>;

    /// The argument at `index`, or `None` when `index` is out of bounds.
    fn get(&self, index: usize) -> (r: Option<&[u8]>)
        ensures
            index < self.elements().len() ==> r is Some && r->0@ == self.elements()[index as int],
            index >= self.elements().len() ==> r is None,
    ;

    /// The number of arguments.
    fn len(&self) -> (r: usize)
        ensures
            r == self.elements().len(),
    ;

    /// Whether there are no arguments.
    fn is_empty(&self) -> (r: bool)
        ensures
            r == (self.elements().len() == 0),
    ;
}

impl Sealed for Vec<Vec<u8>> {}

impl RawArgs for Vec<Vec<u8>> {
    open spec fn elements(&self) -> Seq<Seq<u8>> {
        self@.map_values(|v: Vec<u8>| v@)
    }

    fn get(&self, index: usize) -> (r: Option<&[u8]>) {
        if index < self.len() {
            Some(self[index].as_slice())
        } else {
            None
        }
    }

    fn len(&self) -> (r: usize) {
        self.len()
    }

    fn is_empty(&self) -> (r: bool) {
        self.len() == 0
    }
}

impl<'s> Sealed for Vec<&'s [u8]> {}

impl<'s> RawArgs for Vec<&'s [u8]> {
    open spec fn elements(&self) -> Seq<Seq<u8>> {
        self@.map_values(|v: &'s [u8]| v@)
    }

    fn get(&self, index: usize) -> (r: Option<&[u8]>) {
        if index < self.len() {
            Some(self[index])
        } else {
            None
        }
    }

    fn len(&self) -> (r: usize) {
        self.len()
    }

    fn is_empty(&self) -> (r: bool) {
        self.len() == 0
    }
}

impl<'s, 't> Sealed for &'t [&'s [u8]] {}

impl<'s, 't> RawArgs for &'t [&'s [u8]] {
    open spec fn elements(&self) -> Seq<Seq<u8>> {
        self@.map_values(|v: &'s [u8]| v@)
    }

    fn get(&self, index: usize) -> (r: Option<&[u8]>) {
        if index < (*self).len() {
            Some(self[index])
        } else {
            None
        }
    }

    fn len(&self) -> (r: usize) {
        (*self).len()
    }

    fn is_empty(&self) -> (r: bool) {
        (*self).len() == 0
    }
}

impl<'s, const C: usize> Sealed for [&'s [u8]; C] {}

impl<'s, const C: usize> RawArgs for [&'s [u8]; C] {
    open spec fn elements(&self) -> Seq<Seq<u8>> {
        self@.map_values(|v: &'s [u8]| v@)
    }

    fn get(&self, index: usize) -> (r: Option<&[u8]>) {
        if index < C {
            Some(self[index])
        } else {
            None
        }
    }

    fn len(&self) -> (r: usize) {
        C
    }

    fn is_empty(&self) -> (r: bool) {
        C == 0
    }
}

} // verus!
