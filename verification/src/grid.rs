//! A dense two-dimensional array of cell tags, held in an `ndarray` array.

use vstd::prelude::*;

verus! {

/// A rectangle of cell tags, indexed by `(x, y)` with `x` along the first
/// axis.
#[verifier::external_body]
pub struct TagGrid {
    cells: ndarray::Array2<i64>,
}

/// The lengths of the two axes of a grid.
pub uninterp spec fn grid_dims(g: TagGrid) -> (nat, nat);

/// The tag of each cell of a grid, by its indices.
pub uninterp spec fn grid_tags(g: TagGrid) -> Map<(int, int), i64>;

/// A grid of `w` by `h` cells can be allocated: the number of cells, counting
/// an empty axis as one cell long, takes no more than `isize::MAX` bytes.
pub open spec fn shape_fits(w: int, h: int) -> bool {
    (if w == 0 { 1 } else { w }) * (if h == 0 { 1 } else { h }) * 8 <= isize::MAX
}

/// A shape that fits has few enough cells to count and to index them with
/// any integer type of the machine's width.
pub proof fn lemma_shape_fits(w: int, h: int)
    requires
        0 <= w,
        0 <= h,
        shape_fits(w, h),
    ensures
        0 <= w * h <= isize::MAX / 8,
        w <= isize::MAX / 8,
        h <= isize::MAX / 8,
{
    let w1 = if w == 0 {
        1
    } else {
        w
    };
    let h1 = if h == 0 {
        1
    } else {
        h
    };
    assert(w1 <= w1 * h1 && h1 <= w1 * h1 && 0 <= w * h <= w1 * h1) by (nonlinear_arith)
        requires
            w1 >= 1,
            h1 >= 1,
            0 <= w <= w1,
            0 <= h <= h1,
    ;
}

/// `ndarray::Array2::from_elem`: an array of the given shape with `tag` in
/// every cell. It panics where the shape does not fit, which `requires`
/// leaves out.
#[verifier::external_body]
fn grid_from_elem(w: usize, h: usize, tag: i64) -> (g: TagGrid)
    requires
        shape_fits(w as int, h as int),
    ensures
        grid_dims(g) == (w as nat, h as nat),
        forall|x: int, y: int|
            0 <= x < w && 0 <= y < h ==> #[trigger] grid_tags(g)[(x, y)] == tag,
{
    TagGrid { cells: ndarray::Array2::from_elem((w, h), tag) }
}

/// `ndarray::ArrayBase::dim`: the lengths of the two axes. It does not
/// panic.
#[verifier::external_body]
fn grid_dim(g: &TagGrid) -> (d: (usize, usize))
    ensures
        d.0 == grid_dims(*g).0,
        d.1 == grid_dims(*g).1,
    no_unwind
{
    g.cells.dim()
}

/// `ndarray::ArrayBase::get`: the tag at `(x, y)`, or `None` where an index
/// is not below the length of its axis. It does not panic.
#[verifier::external_body]
fn grid_get(g: &TagGrid, x: usize, y: usize) -> (tag: Option<i64>)
    ensures
        x < grid_dims(*g).0 && y < grid_dims(*g).1 ==> tag == Some(
            grid_tags(*g)[(x as int, y as int)],
        ),
        !(x < grid_dims(*g).0 && y < grid_dims(*g).1) ==> tag.is_none(),
    no_unwind
{
    g.cells.get((x, y)).copied()
}

/// `IndexMut` of `ndarray::ArrayBase`: writes `tag` at `(x, y)` and leaves
/// every other cell and the shape as they were. It panics on an index out
/// of bounds and on nothing else; `requires` leaves such an index out.
#[verifier::external_body]
fn grid_put(g: &mut TagGrid, x: usize, y: usize, tag: i64)
    requires
        x < grid_dims(*old(g)).0,
        y < grid_dims(*old(g)).1,
    ensures
        grid_dims(*final(g)) == grid_dims(*old(g)),
        grid_tags(*final(g)) == grid_tags(*old(g)).insert((x as int, y as int), tag),
    no_unwind
{
    g.cells[(x, y)] = tag;
}

impl TagGrid {
    /// The lengths of the two axes.
    pub open spec fn dims(&self) -> (nat, nat) {
        grid_dims(*self)
    }

    /// The tag at `(x, y)`; meaningful inside the grid only.
    pub open spec fn tag_at(&self, x: int, y: int) -> i64 {
        grid_tags(*self)[(x, y)]
    }

    /// `(x, y)` is a cell of the grid.
    pub open spec fn inside(&self, x: int, y: int) -> bool {
        0 <= x < self.dims().0 && 0 <= y < self.dims().1
    }

    /// Whether a grid of the given shape can be allocated.
    pub fn fits(shape: (usize, usize)) -> (r: bool)
        ensures
            r == shape_fits(shape.0 as int, shape.1 as int),
    {
        let w = if shape.0 == 0 {
            1
        } else {
            shape.0
        };
        let h = if shape.1 == 0 {
            1
        } else {
            shape.1
        };
        let limit = (isize::MAX as usize) / 8;
        // `w * h * 8 <= isize::MAX` without a product that could overflow.
        let r = w <= limit / h;
        proof {
            let max = isize::MAX as int;
            assert(r <==> w * h <= max / 8) by (nonlinear_arith)
                requires
                    r == (w <= (max / 8) / (h as int)),
                    h >= 1,
                    w >= 1,
                    max >= 0,
            ;
            assert(w * h <= max / 8 <==> w * h * 8 <= max) by (nonlinear_arith);
        }
        r
    }

    /// A grid of the given shape with `tag` in every cell.
    pub fn new(shape: (usize, usize), tag: i64) -> (g: TagGrid)
        requires
            shape_fits(shape.0 as int, shape.1 as int),
        ensures
            g.dims() == (shape.0 as nat, shape.1 as nat),
            forall|x: int, y: int| g.inside(x, y) ==> #[trigger] g.tag_at(x, y) == tag,
    {
        grid_from_elem(shape.0, shape.1, tag)
    }

    /// The lengths of the two axes.
    pub fn shape(&self) -> (s: (usize, usize))
        ensures
            s.0 == self.dims().0,
            s.1 == self.dims().1,
        no_unwind
    {
        grid_dim(self)
    }

    /// The tag at `(x, y)`, or `None` outside the grid.
    pub fn get(&self, x: usize, y: usize) -> (tag: Option<i64>)
        ensures
            tag == (if self.inside(x as int, y as int) {
                Some(self.tag_at(x as int, y as int))
            } else {
                None
            }),
        no_unwind
    {
        grid_get(self, x, y)
    }

    /// Writes `tag` at `(x, y)`.
    pub fn set(&mut self, x: usize, y: usize, tag: i64)
        requires
            old(self).inside(x as int, y as int),
        ensures
            final(self).dims() == old(self).dims(),
            final(self).tag_at(x as int, y as int) == tag,
            forall|i: int, j: int|
                (i, j) != (x as int, y as int) ==> #[trigger] final(self).tag_at(i, j) == old(
                    self,
                ).tag_at(i, j),
        no_unwind
    {
        grid_put(self, x, y, tag);
    }
}

} // verus!
