use vstd::prelude::*;

verus! {

/// The abstract memory: rows of pixels, each pixel three `u8` channels.
pub type Grid = Seq<Seq<Seq<u8>>>;

/// Errors that stop a running program.
#[derive(Debug, PartialEq, Eq, Structural, Clone, Copy)]
pub enum RuntimeError {
    /// A write to `[x, y, c]` outside the memory.
    InvalidAddress { x: u8, y: u8, c: u8 },
    /// A read of `[x, y, c]` outside the memory.
    InvalidRead { x: u8, y: u8, c: u8 },
    /// A division or a remainder by zero.
    DivisionByZero,
    /// A shift by eight bits or more.
    ShiftOverflow,
    /// A procedure called with the wrong number of arguments.
    ArgumentCount { given: usize, expected: usize },
    /// A value names an argument that the running procedure did not receive.
    MissingArgument { index: usize },
    /// The program tree does not describe a runnable program.
    MalformedProgram,
}

/// The memory a program works on: `height` rows of `width` pixels of three channels.
pub struct Sigma {
    width: u8,
    height: u8,
    rows: Vec<Vec<u8>>,
}

/// A grid of the given dimensions in which every channel is zero.
pub open spec fn zero_grid(width: nat, height: nat) -> Grid {
    Seq::new(height, |r: int| Seq::new(width, |c: int| seq![0u8, 0u8, 0u8]))
}

/// `g` has `height` rows of `width` pixels of three channels.
pub open spec fn grid_shape(g: Grid, width: nat, height: nat) -> bool {
    &&& g.len() == height
    &&& forall|r: int| 0 <= r < height ==> #[trigger] g[r].len() == width
    &&& forall|r: int, c: int| 0 <= r < height && 0 <= c < width ==> #[trigger] g[r][c].len() == 3
}

/// A write to `[x, y, c]` lands inside the memory: `y` names a row and `x` a column.
pub open spec fn in_bounds(g: Grid, x: int, y: int, c: int) -> bool {
    0 <= y < g.len() && 0 <= x < g[0].len() && 0 <= c < 3
}

/// The grid after channel `c` of the pixel in row `y`, column `x` becomes `v`.
pub open spec fn stored(g: Grid, x: int, y: int, c: int, v: u8) -> Grid {
    g.update(y, g[y].update(x, g[y][x].update(c, v)))
}

/// What a checked write of `v` to `[x, y, c]` returns and leaves.
pub open spec fn spec_store(g: Grid, v: u8, x: u8, y: u8, c: u8) -> (Result<(), RuntimeError>, Grid) {
    if in_bounds(g, x as int, y as int, c as int) {
        (Ok(()), stored(g, x as int, y as int, c as int, v))
    } else {
        (Err(RuntimeError::InvalidAddress { x, y, c }), g)
    }
}

/// A read of `[x, y, c]` lands inside the memory: like a write, `y` names a row and
/// `x` a column.
pub open spec fn read_in_bounds(g: Grid, x: int, y: int, c: int) -> bool {
    0 <= y < g.len() && 0 <= x < g[y].len() && 0 <= c < g[y][x].len()
}

/// What a read of `[x, y, c]` returns: channel `c` of the pixel in row `y`, column `x`.
pub open spec fn spec_read(g: Grid, x: u8, y: u8, c: u8) -> Result<u8, RuntimeError> {
    if read_in_bounds(g, x as int, y as int, c as int) {
        Ok(g[y as int][x as int][c as int])
    } else {
        Err(RuntimeError::InvalidRead { x, y, c })
    }
}

impl View for Sigma {
    type V = Grid;

    closed spec fn view(&self) -> Grid {
        Seq::new(
            self.height as nat,
            |r: int|
                Seq::new(
                    self.width as nat,
                    |c: int| Seq::new(3, |k: int| self.rows@[r]@[3 * c + k]),
                ),
        )
    }
}

impl Sigma {
    /// The stored rows match the dimensions.
    pub closed spec fn wf(&self) -> bool {
        &&& self.rows@.len() == self.height
        &&& forall|r: int| 0 <= r < self.height ==> #[trigger] self.rows@[r]@.len() == 3 * self.width
    }

    /// The number of pixels in a row.
    pub closed spec fn spec_width(&self) -> nat {
        self.width as nat
    }

    /// The number of rows.
    pub closed spec fn spec_height(&self) -> nat {
        self.height as nat
    }

    /// A well-formed memory has the shape its dimensions give.
    pub proof fn lemma_shape(&self)
        requires
            self.wf(),
        ensures
            grid_shape(self@, self.spec_width(), self.spec_height()),
    {
    }

    /// A memory of `height` rows of `width` pixels, all channels zero.
    pub fn new(width: u8, height: u8) -> (s: Sigma)
        ensures
            s.wf(),
            s.spec_width() == width,
            s.spec_height() == height,
            s@ == zero_grid(width as nat, height as nat),
    {
        let mut rows: Vec<Vec<u8>> = Vec::new();
        let mut r: u8 = 0;
        while r < height
            invariant
                r <= height,
                rows@.len() == r,
                forall|i: int| 0 <= i < r ==> #[trigger] rows@[i]@ == Seq::new(3 * width as nat, |k: int| 0u8),
            decreases height - r,
        {
            let mut row: Vec<u8> = Vec::new();
            let mut k: usize = 0;
            let n: usize = 3 * (width as usize);
            while k < n
                invariant
                    k <= n,
                    n == 3 * width,
                    row@ == Seq::new(k as nat, |j: int| 0u8),
                decreases n - k,
            {
                row.push(0);
                k = k + 1;
                assert(row@ =~= Seq::new(k as nat, |j: int| 0u8));
            }
            rows.push(row);
            r = r + 1;
        }
        let s = Sigma { width, height, rows };
        assert(s@ =~~= zero_grid(width as nat, height as nat));
        s
    }

    /// The number of pixels in a row.
    pub fn width(&self) -> (w: u8)
        ensures
            w == self.spec_width(),
    {
        self.width
    }

    /// The number of rows.
    pub fn height(&self) -> (h: u8)
        ensures
            h == self.spec_height(),
    {
        self.height
    }

    /// Channel `ch` of the pixel in row `row`, column `col`.
    pub fn cell(&self, row: usize, col: usize, ch: usize) -> (v: u8)
        requires
            self.wf(),
            row < self.spec_height(),
            col < self.spec_width(),
            ch < 3,
        ensures
            v == self@[row as int][col as int][ch as int],
    {
        self.rows[row][3 * col + ch]
    }

    /// Sets channel `ch` of the pixel in row `row`, column `col` to `v`.
    pub fn set_cell(&mut self, row: usize, col: usize, ch: usize, v: u8)
        requires
            old(self).wf(),
            row < old(self).spec_height(),
            col < old(self).spec_width(),
            ch < 3,
        ensures
            final(self).wf(),
            final(self).spec_width() == old(self).spec_width(),
            final(self).spec_height() == old(self).spec_height(),
            final(self)@ == stored(old(self)@, col as int, row as int, ch as int, v),
    {
        let ghost g = self@;
        let mut line = self.rows[row].clone();
        assert(line@ =~= self.rows@[row as int]@);
        line.set(3 * col + ch, v);
        self.rows.set(row, line);
        assert(self@ =~~= stored(g, col as int, row as int, ch as int, v));
    }

    /// Writes `v` to `[x, y, c]`, that is channel `c` of the pixel in row `y`, column `x`,
    /// or reports the address when it lies outside the memory.
    pub fn store(&mut self, v: u8, x: u8, y: u8, c: u8) -> (r: Result<(), RuntimeError>)
        requires
            old(self).wf(),
        ensures
            final(self).wf(),
            final(self).spec_width() == old(self).spec_width(),
            final(self).spec_height() == old(self).spec_height(),
            (r, final(self)@) == spec_store(old(self)@, v, x, y, c),
    {
        if y >= self.height || x >= self.width || c >= 3 {
            return Err(RuntimeError::InvalidAddress { x, y, c });
        }
        self.set_cell(y as usize, x as usize, c as usize, v);
        Ok(())
    }

    /// Reads `[x, y, c]`, that is channel `c` of the pixel in row `y`, column `x`,
    /// or reports the address when it lies outside the memory.
    pub fn read(&self, x: u8, y: u8, c: u8) -> (r: Result<u8, RuntimeError>)
        requires
            self.wf(),
        ensures
            r == spec_read(self@, x, y, c),
    {
        if y >= self.height || x >= self.width || c >= 3 {
            return Err(RuntimeError::InvalidRead { x, y, c });
        }
        Ok(self.cell(y as usize, x as usize, c as usize))
    }
}

/// A write to `[x, y, c]` inside the memory is read back by a read of `[x, y, c]`.
pub proof fn law_read_after_store(g: Grid, width: nat, height: nat, v: u8, x: u8, y: u8, c: u8)
    requires
        grid_shape(g, width, height),
        in_bounds(g, x as int, y as int, c as int),
    ensures
        spec_read(spec_store(g, v, x, y, c).1, x, y, c) == Ok::<u8, RuntimeError>(v),
{
}

/// A write leaves every other cell as it was.
pub proof fn law_store_frame(g: Grid, width: nat, height: nat, v: u8, x: u8, y: u8, c: u8, a: u8, b: u8, d: u8)
    requires
        grid_shape(g, width, height),
        (a, b, d) != (x, y, c),
    ensures
        spec_read(spec_store(g, v, x, y, c).1, a, b, d) == spec_read(g, a, b, d),
{
    let h = spec_store(g, v, x, y, c).1;
    if in_bounds(g, x as int, y as int, c as int) && (b as int) < g.len() {
        assert(h[b as int].len() == g[b as int].len());
        if (a as int) < g[b as int].len() {
            assert(h[b as int][a as int].len() == g[b as int][a as int].len());
        }
    }
}

/// A write outside the memory changes nothing and reports the address.
pub proof fn law_store_out_of_bounds(g: Grid, v: u8, x: u8, y: u8, c: u8)
    requires
        !in_bounds(g, x as int, y as int, c as int),
    ensures
        spec_store(g, v, x, y, c) == (Err::<(), RuntimeError>(RuntimeError::InvalidAddress { x, y, c }), g),
{
}

} // verus!
