//! Tensor shapes and tensor values.
use vstd::prelude::*;

verus! {

/// The dimensions of a tensor. The engine only ever compares shapes.
#[derive(Debug)]
pub struct Shape {
    dims: Vec<usize>,
}

impl View for Shape {
    type V = Seq<usize>;

    closed spec fn view(&self) -> Seq<usize> {
        self.dims@
    }
}

/// A second vector with the same elements.
pub fn copy_dims(v: &Vec<usize>) -> (r: Vec<usize>)
    ensures
        r@ == v@,
{
    let mut out: Vec<usize> = Vec::new();
    let mut i: usize = 0;
    while i < v.len()
        invariant
            i <= v@.len(),
            out@ == v@.subrange(0, i as int),
        decreases v@.len() - i,
    {
        out.push(v[i]);
        i = i + 1;
    }
    assert(out@ =~= v@);
    out
}

/// Whether two vectors hold the same elements in the same order.
pub fn same_dims(a: &Vec<usize>, b: &Vec<usize>) -> (r: bool)
    ensures
        r == (a@ == b@),
{
    if a.len() != b.len() {
        return false;
    }
    let mut i: usize = 0;
    while i < a.len()
        invariant
            i <= a@.len(),
            a@.len() == b@.len(),
            forall|k: int| 0 <= k < i ==> a@[k] == b@[k],
        decreases a@.len() - i,
    {
        if a[i] != b[i] {
            return false;
        }
        i = i + 1;
    }
    assert(a@ =~= b@);
    true
}

impl Shape {
    pub fn new(dims: Vec<usize>) -> (r: Shape)
        ensures
            r@ == dims@,
    {
        Shape { dims }
    }

    /// The scalar shape, with no dimensions.
    pub fn scalar() -> (r: Shape)
        ensures
            r@ == Seq::<usize>::empty(),
    {
        Shape { dims: Vec::new() }
    }

    pub fn dims(&self) -> (r: &Vec<usize>)
        ensures
            r@ == self@,
    {
        &self.dims
    }

    /// A second shape with the same dimensions.
    pub fn copy(&self) -> (r: Shape)
        ensures
            r@ == self@,
    {
        Shape { dims: copy_dims(&self.dims) }
    }

    /// Whether two shapes have the same dimensions.
    pub fn same(&self, other: &Shape) -> (r: bool)
        ensures
            r == (self@ == other@),
    {
        same_dims(&self.dims, &other.dims)
    }
}

/// A dense tensor of some shape. The engine never reads the contents of a
/// tensor: it only carries its shape.
#[derive(Debug)]
pub struct Ten {
    shape: Shape,
}

impl Ten {
    /// The tensor of the given shape whose every element is zero.
    pub fn zeros(s: &Shape) -> (r: Ten)
        ensures
            r.shape()@ == s@,
    {
        Ten { shape: s.copy() }
    }

    pub closed spec fn shape(&self) -> Shape {
        self.shape
    }

    pub fn get_shape(&self) -> (r: &Shape)
        ensures
            r == self.shape(),
    {
        &self.shape
    }
}

} // verus!
