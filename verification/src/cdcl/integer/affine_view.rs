//! Affine transformations of integer variables.
use vstd::prelude::*;

use super::Int;

verus! {

/// Perform an affine transformation to a variable: the view stands for `scale * inner + offset`.
#[derive(Clone, Debug)]
pub struct Affine<Var> {
    pub scale: Int,
    pub offset: Int,
    pub inner: Var,
}

impl<Var> Affine<Var> {
    /// Create a new variable which is an affine transformation of the given variable.
    pub fn new(scale: Int, offset: Int, inner: Var) -> (view: Self)
        ensures
            view.scale == scale,
            view.offset == offset,
            view.inner == inner,
    {
        Affine { scale, offset, inner }
    }

    /// Create a new variable which scales the given variable.
    pub fn with_scale(scale: Int, inner: Var) -> (view: Self)
        ensures
            view.scale == scale,
            view.offset == 0,
            view.inner == inner,
    {
        Affine { scale, offset: 0, inner }
    }

    /// Create a new variable which offsets the given variable.
    pub fn with_offset(offset: Int, inner: Var) -> (view: Self)
        ensures
            view.scale == 1,
            view.offset == offset,
            view.inner == inner,
    {
        Affine { scale: 1, offset, inner }
    }
}

} // verus!
