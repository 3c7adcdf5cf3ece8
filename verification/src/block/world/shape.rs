use ndshape::{RuntimeShape, Shape};
use vstd::prelude::*;
use vstd::arithmetic::div_mod::{lemma_fundamental_div_mod, lemma_fundamental_div_mod_converse};

verus! {

/// The dimensions of a 3D grid laid out x first, then y, then z.
#[derive(Clone, Copy, Debug)]
pub struct GridShape {
    pub dims: [u32; 3],
}

/// Number of cells of a grid with dimensions `d`.
pub open spec fn spec_grid_size(d: [u32; 3]) -> int {
    d[0] * d[1] * d[2]
}

/// Linear index of cell `p` in a grid with dimensions `d`.
pub open spec fn spec_linearize(d: [u32; 3], p: [int; 3]) -> int {
    p[0] + d[0] * p[1] + d[0] * d[1] * p[2]
}

/// Whether ndshape can build a shape from `d`: the products it forms fit in a u32.
pub open spec fn spec_shape_fits(d: [u32; 3]) -> bool {
    &&& d[0] * d[1] <= u32::MAX
    &&& d[0] * d[1] * d[2] <= u32::MAX
}

/// `ndshape::RuntimeShape::<u32, 3>::new` followed by `Shape::size`. The source
/// computes the size as the product of the three dimensions (and multiplies the first
/// two on its own), with overflow checks in debug builds, so those products must fit.
#[verifier::external_body]
fn ndshape_size(dims: [u32; 3]) -> (r: u32)
    requires
        spec_shape_fits(dims),
    ensures
        r == spec_grid_size(dims),
{
    RuntimeShape::<u32, 3>::new(dims).size()
}

/// `ndshape::RuntimeShape::<u32, 3>::new` followed by `Shape::linearize`. The source
/// returns `p[0] + dims[0] * p[1] + dims[0] * dims[1] * p[2]`; the multiplications wrap
/// and the additions are checked in debug builds, so the sum must fit.
#[verifier::external_body]
fn ndshape_linearize(dims: [u32; 3], p: [u32; 3]) -> (r: u32)
    requires
        spec_shape_fits(dims),
        spec_linearize(dims, [p[0] as int, p[1] as int, p[2] as int]) <= u32::MAX,
    ensures
        r == spec_linearize(dims, [p[0] as int, p[1] as int, p[2] as int]),
{
    RuntimeShape::<u32, 3>::new(dims).linearize(p)
}

/// `ndshape::RuntimeShape::<u32, 3>::new` followed by `Shape::delinearize`. The source
/// computes `z = i / (dims[0] * dims[1])`, then from the rest `r = i - z * dims[0] * dims[1]`
/// it takes `y = r / dims[0]` and `x = r % dims[0]`; it divides by both strides, which
/// must not be zero.
#[verifier::external_body]
fn ndshape_delinearize(dims: [u32; 3], i: u32) -> (r: [u32; 3])
    requires
        spec_shape_fits(dims),
        dims[0] * dims[1] > 0,
    ensures
        r[2] == i as int / (dims[0] * dims[1]),
        r[1] == (i as int % (dims[0] * dims[1])) / dims[0] as int,
        r[0] == (i as int % (dims[0] * dims[1])) % dims[0] as int,
{
    RuntimeShape::<u32, 3>::new(dims).delinearize(i)
}

/// Delinearizing the linear index of a cell gives the cell back, for every cell whose
/// x and y lie inside the grid.
pub proof fn lemma_delinearize_linearize(d: [u32; 3], x: int, y: int, z: int)
    requires
        d[0] * d[1] > 0,
        0 <= x < d[0],
        0 <= y < d[1],
        0 <= z,
    ensures
        ({
            let i = spec_linearize(d, [x, y, z]);
            &&& i / (d[0] * d[1]) == z
            &&& (i % (d[0] * d[1])) / d[0] as int == y
            &&& (i % (d[0] * d[1])) % d[0] as int == x
        }),
{
    let a = d[0] * d[1];
    let r = x + d[0] * y;
    assert(d[0] * y <= d[0] * (d[1] - 1)) by (nonlinear_arith)
        requires
            0 <= y < d[1],
            d[0] >= 0,
    ;
    assert(d[0] * (d[1] - 1) == a - d[0]) by (nonlinear_arith)
        requires
            a == d[0] * d[1],
    ;
    assert(0 <= r < a) by (nonlinear_arith)
        requires
            r == x + d[0] * y,
            0 <= x < d[0],
            0 <= y,
            d[0] * y <= a - d[0],
    ;
    assert(spec_linearize(d, [x, y, z]) == z * a + r) by (nonlinear_arith)
        requires
            a == d[0] * d[1],
            r == x + d[0] * y,
    ;
    lemma_fundamental_div_mod_converse(spec_linearize(d, [x, y, z]), a, z, r);
    assert(r == y * d[0] + x) by (nonlinear_arith)
        requires
            r == x + d[0] * y,
    ;
    lemma_fundamental_div_mod_converse(r, d[0] as int, y, x);
}

/// Linearizing the cell found at a linear index gives the index back.
pub proof fn lemma_linearize_delinearize(d: [u32; 3], i: int)
    requires
        d[0] * d[1] > 0,
        0 <= i,
    ensures
        ({
            let z = i / (d[0] * d[1]);
            let y = (i % (d[0] * d[1])) / d[0] as int;
            let x = (i % (d[0] * d[1])) % d[0] as int;
            spec_linearize(d, [x, y, z]) == i
        }),
{
    let a = d[0] * d[1];
    let z = i / a;
    let r = i % a;
    let y = r / d[0] as int;
    let x = r % d[0] as int;
    lemma_fundamental_div_mod(i, a);
    assert(d[0] > 0) by (nonlinear_arith)
        requires
            a == d[0] * d[1],
            a > 0,
            d[0] >= 0,
            d[1] >= 0,
    ;
    lemma_fundamental_div_mod(r, d[0] as int);
    assert(spec_linearize(d, [x, y, z]) == x + d[0] * y + a * z) by (nonlinear_arith)
        requires
            a == d[0] * d[1],
    ;
}

impl GridShape {
    /// A shape whose products fit in a u32 and whose dimensions are valid i32 coordinates.
    pub open spec fn wf(self) -> bool {
        &&& spec_shape_fits(self.dims)
        &&& self.dims[0] < i32::MAX
        &&& self.dims[1] < i32::MAX
        &&& self.dims[2] < i32::MAX
    }

    pub open spec fn spec_size(self) -> int {
        spec_grid_size(self.dims)
    }

    pub open spec fn spec_index(self, x: int, y: int, z: int) -> int {
        spec_linearize(self.dims, [x, y, z])
    }

    pub open spec fn contains(self, x: int, y: int, z: int) -> bool {
        0 <= x < self.dims[0] && 0 <= y < self.dims[1] && 0 <= z < self.dims[2]
    }

    pub fn new(dims: [u32; 3]) -> (s: GridShape)
        ensures
            s.dims == dims,
    {
        GridShape { dims }
    }

    /// The number of cells.
    pub fn size(&self) -> (r: u32)
        requires
            spec_shape_fits(self.dims),
        ensures
            r == self.spec_size(),
    {
        ndshape_size(self.dims)
    }

    /// The linear index of a cell.
    pub fn linearize(&self, p: [u32; 3]) -> (r: u32)
        requires
            spec_shape_fits(self.dims),
            self.spec_index(p[0] as int, p[1] as int, p[2] as int) <= u32::MAX,
        ensures
            r == self.spec_index(p[0] as int, p[1] as int, p[2] as int),
    {
        ndshape_linearize(self.dims, p)
    }

    /// The cell at a linear index.
    pub fn delinearize(&self, i: u32) -> (r: [u32; 3])
        requires
            spec_shape_fits(self.dims),
            self.dims[0] * self.dims[1] > 0,
        ensures
            r[2] == i as int / (self.dims[0] * self.dims[1]),
            r[1] == (i as int % (self.dims[0] * self.dims[1])) / self.dims[0] as int,
            r[0] == (i as int % (self.dims[0] * self.dims[1])) % self.dims[0] as int,
    {
        ndshape_delinearize(self.dims, i)
    }
}

} // verus!
