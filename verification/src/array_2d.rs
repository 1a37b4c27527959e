use vstd::prelude::*;

verus! {

/// A dense two-dimensional grid stored row-major in a flat vector.
///
/// The grid is the scratch buffer behind the forward, backward and
/// best-path passes: those index it by a surface position `x` and a
/// phoneme position `y`.
pub struct Array2d<T> {
    width: usize,
    height: usize,
    data: Vec<T>,
}

impl<T: Copy> Array2d<T> {
    /// The flat storage holds exactly one cell per `(x, y)` position.
    pub closed spec fn wf(self) -> bool {
        self.data.len() == self.width * self.height
    }

    pub closed spec fn spec_width(self) -> int {
        self.width as int
    }

    pub closed spec fn spec_height(self) -> int {
        self.height as int
    }

    /// The value stored at column `x`, row `y`.
    pub closed spec fn spec_at(self, x: int, y: int) -> T {
        self.data[flat_index(self.spec_width(), x, y)]
    }

    pub fn new(width: usize, height: usize, value: T) -> (r: Self)
        requires
            width * height <= usize::MAX,
        ensures
            r.wf(),
            r.spec_width() == width,
            r.spec_height() == height,
            forall|x: int, y: int|
                0 <= x < width && 0 <= y < height ==> r.spec_at(x, y) == value,
    {
        let n: usize = width * height;
        let mut data: Vec<T> = Vec::new();
        let mut k: usize = 0;
        while k < n
            invariant
                k <= n,
                data.len() == k,
                forall|i: int| 0 <= i < k ==> data[i] == value,
            decreases n - k,
        {
            data.push(value);
            k = k + 1;
        }
        let r = Self { width, height, data };
        proof {
            assert forall|x: int, y: int|
                0 <= x < width && 0 <= y < height implies r.spec_at(x, y) == value by {
                lemma_grid_index_in_range(x, y, width as int, height as int);
            }
        }
        r
    }

    pub fn get(&self, x: usize, y: usize) -> (r: Option<&T>)
        requires
            self.wf(),
        ensures
            x < self.spec_width() && y < self.spec_height() ==> (match r {
                Some(v) => *v == self.spec_at(x as int, y as int),
                None => false,
            }),
            !(x < self.spec_width() && y < self.spec_height()) ==> r is None,
    {
        if x < self.width && y < self.height {
            proof {
                lemma_grid_index_in_range(x as int, y as int, self.width as int, self.height as int);
            }
            Some(&self.data[x + self.width * y])
        } else {
            None
        }
    }

    /// Unlike `get`, the position must be in range, so that the returned
    /// reference can be described exactly.
    pub fn get_mut(&mut self, x: usize, y: usize) -> (r: &mut T)
        requires
            old(self).wf(),
            x < old(self).spec_width(),
            y < old(self).spec_height(),
        ensures
            *r == old(self).spec_at(x as int, y as int),
            final(self).wf(),
            final(self).spec_width() == old(self).spec_width(),
            final(self).spec_height() == old(self).spec_height(),
            final(self).spec_at(x as int, y as int) == *final(r),
            forall|a: int, b: int|
                0 <= a < old(self).spec_width() && 0 <= b < old(self).spec_height()
                    && !(a == x && b == y)
                    ==> final(self).spec_at(a, b) == old(self).spec_at(a, b),
    {
        proof {
            lemma_grid_index_in_range(x as int, y as int, self.width as int, self.height as int);
            let w = self.spec_width();
            assert forall|a: int, b: int|
                0 <= a < self.spec_width() && 0 <= b < self.spec_height()
                    && !(a == x as int && b == y as int)
                    implies #[trigger] flat_index(w, a, b) != flat_index(w, x as int, y as int)
                        && 0 <= flat_index(w, a, b) < self.data.len() by {
                lemma_grid_index_injective(a, b, x as int, y as int, self.width as int, self.height as int);
                lemma_grid_index_in_range(a, b, self.width as int, self.height as int);
            }
        }
        let idx: usize = x + self.width * y;
        &mut self.data[idx]
    }

    pub fn fill(&mut self, value: T)
        requires
            old(self).wf(),
        ensures
            final(self).wf(),
            final(self).spec_width() == old(self).spec_width(),
            final(self).spec_height() == old(self).spec_height(),
            forall|x: int, y: int|
                0 <= x < old(self).spec_width() && 0 <= y < old(self).spec_height()
                    ==> final(self).spec_at(x, y) == value,
    {
        let n: usize = self.data.len();
        let mut k: usize = 0;
        while k < n
            invariant
                k <= n,
                self.data.len() == n,
                self.width == old(self).width,
                self.height == old(self).height,
                forall|i: int| 0 <= i < k ==> self.data[i] == value,
            decreases n - k,
        {
            self.data[k] = value;
            k = k + 1;
        }
        proof {
            assert forall|x: int, y: int|
                0 <= x < old(self).spec_width() && 0 <= y < old(self).spec_height()
                    implies self.spec_at(x, y) == value by {
                lemma_grid_index_in_range(x, y, self.width as int, self.height as int);
            }
        }
    }

    /// Replaces the grid's shape. The flat storage keeps its prefix, as the
    /// underlying vector does; callers that reuse a grid follow this with
    /// `fill`, which gives every cell a known value again.
    pub fn resize(&mut self, width: usize, height: usize, value: T)
        requires
            old(self).wf(),
            width * height <= usize::MAX,
        ensures
            final(self).wf(),
            final(self).spec_width() == width,
            final(self).spec_height() == height,
    {
        self.width = width;
        self.height = height;
        let n: usize = width * height;
        self.data.resize(n, value);
    }
}

/// A cell of a `width`-by-`height` grid maps to a flat index below
/// `width * height`.
proof fn lemma_grid_index_in_range(x: int, y: int, width: int, height: int)
    requires
        0 <= x < width,
        0 <= y < height,
    ensures
        0 <= x + width * y < width * height,
{
    assert(0 <= x + width * y < width * height) by (nonlinear_arith)
        requires
            0 <= x < width,
            0 <= y < height,
    ;
}

/// Distinct cells of a grid map to distinct flat indices.
proof fn lemma_grid_index_injective(a: int, b: int, x: int, y: int, width: int, height: int)
    requires
        0 <= a < width,
        0 <= b < height,
        0 <= x < width,
        0 <= y < height,
        !(a == x && b == y),
    ensures
        a + width * b != x + width * y,
{
    assert(a + width * b != x + width * y) by (nonlinear_arith)
        requires
            0 <= a < width,
            0 <= b < height,
            0 <= x < width,
            0 <= y < height,
            !(a == x && b == y),
    ;
}

/// Row-major position of the cell at column `x`, row `y`.
spec fn flat_index(w: int, x: int, y: int) -> int {
    x + w * y
}

} // verus!
