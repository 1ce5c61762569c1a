//! Vectors of a fixed number of components.

use vstd::prelude::*;
use crate::geo_struct::Real64;

verus! {

/// A vector of `N` components.
#[derive(Debug, Clone, Copy, PartialEq)]
pub struct Vector<T, const N: usize> {
    pub data: [T; N],
}

impl Vector<Real64, 3> {
    /// The vector of the three components.
    pub fn new(x: Real64, y: Real64, z: Real64) -> (r: Self)
        ensures
            r.data@ == seq![x, y, z],
    {
        let r = Vector { data: [x, y, z] };
        assert(r.data@ =~= seq![x, y, z]);
        r
    }

    /// The components in order.
    pub fn as_slice(&self) -> (r: &[Real64])
        ensures
            r@ == self.data@,
    {
        self.data.as_slice()
    }

    /// Component `index`, which must be one of the three.
    pub fn component(&self, index: usize) -> (r: Real64)
        requires
            index < 3,
        ensures
            r == self.data@[index as int],
    {
        self.data[index]
    }

    /// The vector of the three scalars of `value`; `None` where `value`
    /// holds another number of them.
    pub fn try_from_slice(value: &[Real64]) -> (r: Option<Self>)
        ensures
            match r {
                Some(v) => value@.len() == 3 && v.data@ == value@,
                None => value@.len() != 3,
            },
    {
        if value.len() == 3 {
            let v = Vector { data: [value[0], value[1], value[2]] };
            assert(v.data@ =~= value@);
            Some(v)
        } else {
            None
        }
    }
}

} // verus!
