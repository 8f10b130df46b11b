//! The values held by the vertices, indexed by vertex handle.
use vstd::prelude::*;

use crate::handles::types::VHandle;

verus! {

/// Operations on a store of vertex values.
pub trait StoreVertex: Sized {
    /// The type of the values.
    type VertexType;

    /// The values, vertex by vertex.
    spec fn spec_values(&self) -> Seq<Self::VertexType>;

    /// The number of values.
    fn len(&self) -> (n: usize)
        ensures
            n == self.spec_values().len(),
    ;

    /// Whether there is no value.
    fn is_empty(&self) -> (b: bool)
        ensures
            b == (self.spec_values().len() == 0),
    ;

    /// Appends `val`.
    fn push(&mut self, val: Self::VertexType)
        ensures
            final(self).spec_values() == old(self).spec_values().push(val),
    ;

    /// All values as a slice.
    fn as_slice(&self) -> (s: &[Self::VertexType])
        ensures
            s@ == self.spec_values(),
    ;
}

/// Vertex values kept in a vector.
pub struct VertexStorage<VertexType> {
    data: Vec<VertexType>,
}

impl<VertexType> View for VertexStorage<VertexType> {
    type V = Seq<VertexType>;

    closed spec fn view(&self) -> Seq<VertexType> {
        self.data@
    }
}

impl<VertexType> VertexStorage<VertexType> {
    /// An empty store.
    pub fn new() -> (r: Self)
        ensures
            r@ == Seq::<VertexType>::empty(),
    {
        VertexStorage { data: Vec::new() }
    }

    /// Appends `val`.
    pub fn push(&mut self, val: VertexType)
        ensures
            final(self)@ == old(self)@.push(val),
    {
        self.data.push(val);
    }

    /// The number of values.
    pub fn len(&self) -> (n: usize)
        ensures
            n == self@.len(),
    {
        self.data.len()
    }

    /// The value of `index`.
    pub fn get(&self, index: VHandle) -> (r: &VertexType)
        requires
            index < self@.len(),
        ensures
            *r == self@[index as int],
    {
        &self.data[index as usize]
    }

    /// Replaces the value of `index` by `val`.
    pub fn set(&mut self, index: VHandle, val: VertexType)
        requires
            index < old(self)@.len(),
        ensures
            final(self)@ == old(self)@.update(index as int, val),
    {
        self.data.set(index as usize, val);
    }
}

impl<VertexType> StoreVertex for VertexStorage<VertexType> {
    type VertexType = VertexType;

    closed spec fn spec_values(&self) -> Seq<VertexType> {
        self.data@
    }

    fn len(&self) -> (n: usize) {
        self.data.len()
    }

    fn is_empty(&self) -> (b: bool) {
        self.data.len() == 0
    }

    fn push(&mut self, val: VertexType) {
        self.data.push(val);
    }

    fn as_slice(&self) -> (s: &[VertexType]) {
        self.data.as_slice()
    }
}

} // verus!
