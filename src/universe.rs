//! The `Universe` of the Game of Life: a fixed-size 2D grid of cells stored row by row.
use vstd::prelude::*;
use vstd::string::*;
use vstd::arithmetic::div_mod::{
    lemma_fundamental_div_mod,
    lemma_fundamental_div_mod_converse,
    lemma_mod_pos_bound,
};

verus! {

/// The 2D grid of cells that is the universe in the Game of Life.
///
/// Cell `(x, y)` is stored at index `y * width + x`; `true` means alive.
pub struct Universe {
    width: usize,
    height: usize,
    cells: Vec<bool>,
}

/// The character that shows a cell: `X` when alive, a space when dead.
pub open spec fn glyph(alive: bool) -> char {
    if alive {
        'X'
    } else {
        ' '
    }
}

/// The text of one cell at flat index `i` of a grid of the given width: its glyph,
/// followed by a newline when it is the last cell of its row.
pub open spec fn cell_text(alive: bool, i: int, width: int) -> Seq<char> {
    if i % width == width - 1 {
        seq![glyph(alive), '\n']
    } else {
        seq![glyph(alive)]
    }
}

/// 1 for a live cell, 0 for a dead one.
pub open spec fn as_count(alive: bool) -> int {
    if alive {
        1
    } else {
        0
    }
}

/// Proves that a position inside a `width` x `height` grid has its flat index inside the grid.
pub proof fn lemma_index_in_grid(x: int, y: int, width: int, height: int)
    requires
        0 <= x < width,
        0 <= y < height,
    ensures
        0 <= y * width + x < width * height,
{
    assert(0 <= y * width + x < width * height) by (nonlinear_arith)
        requires
            0 <= x < width,
            0 <= y < height,
    ;
}

/// Proves that a flat index inside a `width` x `height` grid splits into the position
/// `(i % width, i / width)` inside the grid, and that this position gives back `i`.
pub proof fn lemma_coords_of_index(i: int, width: int, height: int)
    requires
        0 <= height,
        0 <= i < width * height,
    ensures
        width > 0,
        0 <= i % width < width,
        0 <= i / width < height,
        (i / width) * width + i % width == i,
{
    if width <= 0 {
        assert(width * height <= 0) by (nonlinear_arith)
            requires
                width <= 0,
                height >= 0,
        ;
    }
    lemma_fundamental_div_mod(i, width);
    lemma_mod_pos_bound(i, width);
    let q = i / width;
    let r = i % width;
    assert(q * width == width * q) by (nonlinear_arith);
    assert(0 <= q < height) by (nonlinear_arith)
        requires
            i == width * q + r,
            0 <= r < width,
            0 <= i < width * height,
    ;
}

/// Proves that the position `(x, y)` of a grid of the given width has flat index
/// `y * width + x`, and that the index splits back into that position.
pub proof fn lemma_index_of_coords(x: int, y: int, width: int)
    requires
        0 <= x < width,
        0 <= y,
    ensures
        (y * width + x) % width == x,
        (y * width + x) / width == y,
{
    lemma_fundamental_div_mod_converse(y * width + x, width, y, x);
}

/// The offsets from a cell to its 8 neighbours.
pub open spec fn neighbor_offsets() -> Seq<(int, int)> {
    seq![(-1, -1), (0, -1), (1, -1), (-1, 0), (1, 0), (-1, 1), (0, 1), (1, 1)]
}

/// How many of the first `n` entries of `q` are in `s`.
spec fn count_chosen(q: Seq<(int, int)>, s: Set<(int, int)>, n: int) -> nat
    decreases n,
{
    if n <= 0 {
        0
    } else {
        count_chosen(q, s, n - 1) + if s.contains(q[n - 1]) {
            1nat
        } else {
            0
        }
    }
}

/// A set drawn from the first `n` entries of a sequence without repeats has as many
/// elements as those entries that it holds.
proof fn lemma_count_chosen(q: Seq<(int, int)>, s: Set<(int, int)>, n: int)
    requires
        0 <= n <= q.len(),
        q.no_duplicates(),
        forall|e| #[trigger] s.contains(e) ==> exists|i: int| 0 <= i < n && q[i] == e,
    ensures
        s.finite(),
        s.len() == count_chosen(q, s, n),
    decreases n,
{
    if n == 0 {
        assert(s =~= Set::empty());
    } else {
        let last = q[n - 1];
        let r = s.remove(last);
        assert forall|e| #[trigger] r.contains(e) implies exists|i: int| 0 <= i < n - 1 && q[i] == e by {
            let i = choose|i: int| 0 <= i < n && q[i] == e;
            assert(i != n - 1);
        }
        lemma_count_chosen(q, r, n - 1);
        assert forall|i: int| 0 <= i < n - 1 implies #[trigger] r.contains(q[i]) == s.contains(
            q[i],
        ) by {
            assert(q[i] != last);
        }
        assert(count_chosen(q, r, n - 1) == count_chosen(q, s, n - 1)) by {
            lemma_count_chosen_agree(q, r, s, n - 1);
        }
        if s.contains(last) {
            assert(s =~= r.insert(last));
        } else {
            assert(s =~= r);
        }
    }
}

/// Two sets that agree on the first `n` entries of `q` count alike there.
proof fn lemma_count_chosen_agree(q: Seq<(int, int)>, a: Set<(int, int)>, b: Set<(int, int)>, n: int)
    requires
        0 <= n <= q.len(),
        forall|i: int| 0 <= i < n ==> #[trigger] a.contains(q[i]) == b.contains(q[i]),
    ensures
        count_chosen(q, a, n) == count_chosen(q, b, n),
    decreases n,
{
    if n > 0 {
        lemma_count_chosen_agree(q, a, b, n - 1);
    }
}

/// The coordinate `c + d - 1` (one of `c - 1`, `c`, `c + 1`) when it lies in `0..bound`.
fn shifted(c: usize, d: usize, bound: usize) -> (r: Option<usize>)
    requires
        d < 3,
    ensures
        match r {
            Some(v) => v == c + d - 1 && v < bound,
            None => !(0 <= c + d - 1 < bound),
        },
{
    if d == 0 {
        if c == 0 || c - 1 >= bound {
            None
        } else {
            Some(c - 1)
        }
    } else if d == 1 {
        if c < bound {
            Some(c)
        } else {
            None
        }
    } else {
        if c < bound && c + 1 < bound {
            Some(c + 1)
        } else {
            None
        }
    }
}

/// Where the live neighbours of a cell are exactly those at a chosen set of offsets, the
/// cell has as many live neighbours as the set has offsets. A neighbour position off the
/// grid holds a dead cell, so no offset that leads off the grid can be chosen.
pub proof fn lemma_live_neighbors_of_chosen(u: Universe, x: int, y: int, chosen: Set<(int, int)>)
    requires
        chosen.subset_of(neighbor_offsets().to_set()),
        forall|d: (int, int)|
            #[trigger] neighbor_offsets().contains(d) ==> (chosen.contains(d) == u.alive(
                x + d.0,
                y + d.1,
            )),
    ensures
        chosen.finite(),
        u.live_neighbors(x, y) == chosen.len(),
{
    let q = neighbor_offsets();
    assert forall|i: int, j: int| 0 <= i < q.len() && 0 <= j < q.len() && i != j implies q[i]
        != q[j] by {}
    assert forall|e| #[trigger] chosen.contains(e) implies exists|i: int| 0 <= i < 8 && q[i] == e by {
        assert(q.contains(e));
    }
    lemma_count_chosen(q, chosen, 8);
    assert forall|i: int| 0 <= i < 8 implies #[trigger] chosen.contains(q[i]) == u.alive(
        x + q[i].0,
        y + q[i].1,
    ) by {
        assert(q.contains(q[i]));
    }
    reveal_with_fuel(count_chosen, 9);
}

/// A traversal of a universe holds one item per cell, `width * height` in all: each item
/// names a position on the grid together with that cell's state, and each position on the
/// grid is named by exactly one item.
pub proof fn lemma_traversal_complete(u: Universe)
    requires
        u.wf(),
    ensures
        u.traversal().len() == u.spec_width() * u.spec_height(),
        forall|i: int|
            0 <= i < u.traversal().len() ==> {
                let (x, y, c) = #[trigger] u.traversal()[i];
                u.in_bounds(x, y) && c == u.alive(x, y)
            },
        forall|x: int, y: int|
            #[trigger] u.in_bounds(x, y) ==> exists|i: int|
                0 <= i < u.traversal().len() && u.traversal()[i].0 == x && u.traversal()[i].1 == y,
        forall|i: int, j: int|
            0 <= i < u.traversal().len() && 0 <= j < u.traversal().len() && #[trigger] u.traversal()[i].0
                == #[trigger] u.traversal()[j].0 && u.traversal()[i].1 == u.traversal()[j].1 ==> i
                == j,
{
    let w = u.spec_width() as int;
    let h = u.spec_height() as int;
    let t = u.traversal();
    assert forall|i: int| 0 <= i < t.len() implies {
        let (x, y, c) = #[trigger] t[i];
        u.in_bounds(x, y) && c == u.alive(x, y)
    } by {
        lemma_coords_of_index(i, w, h);
    }
    assert forall|x: int, y: int| #[trigger] u.in_bounds(x, y) implies exists|i: int|
        0 <= i < t.len() && t[i].0 == x && t[i].1 == y by {
        lemma_index_in_grid(x, y, w, h);
        lemma_index_of_coords(x, y, w);
        assert(t[y * w + x].0 == x);
    }
    assert forall|i: int, j: int|
        0 <= i < t.len() && 0 <= j < t.len() && #[trigger] t[i].0 == #[trigger] t[j].0 && t[i].1
            == t[j].1 implies i == j by {
        lemma_coords_of_index(i, w, h);
        lemma_coords_of_index(j, w, h);
    }
}

/// The first `n` rows of text: `width` glyphs and a newline for each row.
proof fn lemma_rows_text_layout(u: Universe, n: nat)
    requires
        u.spec_width() > 0,
    ensures
        u.rows_text(n).len() == n * (u.spec_width() + 1),
        forall|x: int, y: int|
            0 <= x < u.spec_width() && 0 <= y < n ==> #[trigger] u.rows_text(n)[y * (
            u.spec_width() + 1) + x] == glyph(u.alive(x, y)),
        forall|y: int|
            0 <= y < n ==> #[trigger] u.rows_text(n)[y * (u.spec_width() + 1) + u.spec_width()]
                == '\n',
    decreases n,
{
    if n == 0 {
        assert(n * (u.spec_width() + 1) == 0) by (nonlinear_arith)
            requires
                n == 0,
        ;
    } else {
        let w = u.spec_width() as int;
        let m = (n - 1) as nat;
        lemma_rows_text_layout(u, m);
        let before = u.rows_text(m);
        let row = u.row_text(m as int);
        assert(row.len() == w + 1);
        assert(n * (w + 1) == m * (w + 1) + (w + 1)) by (nonlinear_arith)
            requires
                m == n - 1,
        ;
        assert forall|x: int, y: int| 0 <= x < w && 0 <= y < n implies #[trigger] u.rows_text(n)[y
            * (w + 1) + x] == glyph(u.alive(x, y)) by {
            if y < m {
                assert(y * (w + 1) + x < m * (w + 1)) by (nonlinear_arith)
                    requires
                        0 <= x <= w,
                        0 <= y < m,
                ;
            }
        }
        assert forall|y: int| 0 <= y < n implies #[trigger] u.rows_text(n)[y * (w + 1) + w]
            == '\n' by {
            if y < m {
                assert(y * (w + 1) + w < m * (w + 1)) by (nonlinear_arith)
                    requires
                        0 <= w,
                        0 <= y < m,
                ;
            }
        }
    }
}

/// The text of a universe with at least one column has one line per row: `width` glyphs,
/// an `X` exactly where the cell is alive and a space where it is dead, then a newline.
pub proof fn lemma_text_layout(u: Universe)
    requires
        u.spec_width() > 0,
    ensures
        u.text().len() == u.spec_height() * (u.spec_width() + 1),
        forall|x: int, y: int|
            #[trigger] u.in_bounds(x, y) ==> u.text()[y * (u.spec_width() + 1) + x] == glyph(
                u.alive(x, y),
            ),
        forall|y: int|
            0 <= y < u.spec_height() ==> #[trigger] u.text()[y * (u.spec_width() + 1)
                + u.spec_width()] == '\n',
{
    lemma_rows_text_layout(u, u.spec_height());
}

impl Universe {
    /// The number of columns.
    pub closed spec fn spec_width(&self) -> nat {
        self.width as nat
    }

    /// The number of rows.
    pub closed spec fn spec_height(&self) -> nat {
        self.height as nat
    }

    /// The cells, row by row.
    pub closed spec fn spec_cells(&self) -> Seq<bool> {
        self.cells@
    }

    /// The grid holds exactly one cell for each position.
    pub open spec fn wf(&self) -> bool {
        &&& self.spec_cells().len() == self.spec_width() * self.spec_height()
        &&& self.spec_width() * self.spec_height() <= usize::MAX
    }

    /// Whether `(x, y)` lies on the grid.
    pub open spec fn in_bounds(&self, x: int, y: int) -> bool {
        0 <= x < self.spec_width() && 0 <= y < self.spec_height()
    }

    /// Where cell `(x, y)` is stored.
    pub open spec fn index_of(&self, x: int, y: int) -> int {
        y * self.spec_width() + x
    }

    /// Whether cell `(x, y)` is alive; every position off the grid is dead.
    pub open spec fn alive(&self, x: int, y: int) -> bool {
        self.in_bounds(x, y) && self.spec_cells()[self.index_of(x, y)]
    }

    /// The number of live cells among the 8 positions around `(x, y)`.
    pub open spec fn live_neighbors(&self, x: int, y: int) -> int {
        as_count(self.alive(x - 1, y - 1)) + as_count(self.alive(x, y - 1)) + as_count(
            self.alive(x + 1, y - 1),
        ) + as_count(self.alive(x - 1, y)) + as_count(self.alive(x + 1, y)) + as_count(
            self.alive(x - 1, y + 1),
        ) + as_count(self.alive(x, y + 1)) + as_count(self.alive(x + 1, y + 1))
    }

    /// The glyphs of the first `n` cells of row `y`.
    pub open spec fn row_glyphs(&self, y: int, n: int) -> Seq<char> {
        Seq::new(n as nat, |x: int| glyph(self.alive(x, y)))
    }

    /// The text of row `y`: one glyph per cell, then a newline after the last cell
    /// (a row without cells has no text).
    pub open spec fn row_text(&self, y: int) -> Seq<char> {
        if self.spec_width() == 0 {
            Seq::empty()
        } else {
            self.row_glyphs(y, self.spec_width() as int).push('\n')
        }
    }

    /// The text of the first `n` rows.
    pub open spec fn rows_text(&self, n: nat) -> Seq<char>
        decreases n,
    {
        if n == 0 {
            Seq::empty()
        } else {
            self.rows_text((n - 1) as nat) + self.row_text(n - 1)
        }
    }

    /// The universe as text, row after row.
    pub open spec fn text(&self) -> Seq<char> {
        self.rows_text(self.spec_height())
    }

    /// Every cell as `(x, y, alive)`, in row-major order.
    pub open spec fn traversal(&self) -> Seq<(int, int, bool)> {
        Seq::new(
            self.spec_cells().len(),
            |i: int|
                (
                    i % (self.spec_width() as int),
                    i / (self.spec_width() as int),
                    self.spec_cells()[i],
                ),
        )
    }

    /// Creates a new `Universe` of size `width`, `height` with every cell dead.
    /// A zero dimension gives an empty grid, on which no cell can be set.
    pub fn new(width: usize, height: usize) -> (u: Universe)
        requires
            width * height <= usize::MAX,
        ensures
            u.wf(),
            u.spec_width() == width,
            u.spec_height() == height,
            forall|x: int, y: int| !#[trigger] u.alive(x, y),
    {
        let n: usize = width * height;
        let u = Universe { width, height, cells: vec![false; n] };
        assert forall|x: int, y: int| !#[trigger] u.alive(x, y) by {
            if u.in_bounds(x, y) {
                lemma_index_in_grid(x, y, width as int, height as int);
            }
        }
        u
    }

    /// The number of columns.
    pub fn width(&self) -> (w: usize)
        ensures
            w == self.spec_width(),
    {
        self.width
    }

    /// The number of rows.
    pub fn height(&self) -> (h: usize)
        ensures
            h == self.spec_height(),
    {
        self.height
    }

    /// Gets the cell at `(x, y)`, or `None` when `(x, y)` is off the grid.
    pub fn get(&self, x: isize, y: isize) -> (r: Option<&bool>)
        requires
            self.wf(),
        ensures
            match r {
                Some(c) => self.in_bounds(x as int, y as int) && *c == self.alive(
                    x as int,
                    y as int,
                ),
                None => !self.in_bounds(x as int, y as int),
            },
    {
        if x < 0 || y < 0 {
            return None;
        }
        let ux = x as usize;
        let uy = y as usize;
        if ux >= self.width || uy >= self.height {
            return None;
        }
        proof {
            lemma_index_in_grid(ux as int, uy as int, self.width as int, self.height as int);
        }
        Some(&self.cells[uy * self.width + ux])
    }

    /// 1 when the cell at `(x + dx - 1, y + dy - 1)` is alive, else 0.
    fn neighbor(&self, x: usize, y: usize, dx: usize, dy: usize) -> (r: u8)
        requires
            self.wf(),
            dx < 3,
            dy < 3,
        ensures
            r as int == as_count(self.alive(x + dx - 1, y + dy - 1)),
    {
        match (shifted(x, dx, self.width), shifted(y, dy, self.height)) {
            (Some(nx), Some(ny)) => {
                proof {
                    lemma_index_in_grid(nx as int, ny as int, self.width as int, self.height as int);
                }
                if self.cells[ny * self.width + nx] {
                    1
                } else {
                    0
                }
            },
            _ => 0,
        }
    }

    /// Counts the live cells among the 8 positions around `(x, y)`; positions off the
    /// grid count as dead.
    pub fn count_neighbors(&self, x: usize, y: usize) -> (r: u8)
        requires
            self.wf(),
        ensures
            r as int == self.live_neighbors(x as int, y as int),
            r <= 8,
    {
        let above = self.neighbor(x, y, 0, 0) + self.neighbor(x, y, 1, 0) + self.neighbor(x, y, 2, 0);
        let beside = self.neighbor(x, y, 0, 1) + self.neighbor(x, y, 2, 1);
        let below = self.neighbor(x, y, 0, 2) + self.neighbor(x, y, 1, 2) + self.neighbor(x, y, 2, 2);
        above + beside + below
    }

    /// Renders the universe: `X` for a live cell, a space for a dead one, and a newline
    /// after the last cell of every row.
    pub fn to_string(&self) -> (s: String)
        requires
            self.wf(),
        ensures
            s@ == self.text(),
    {
        let mut s = String::new();
        let mut y: usize = 0;
        while y < self.height
            invariant
                self.wf(),
                y <= self.height,
                s@ == self.rows_text(y as nat),
            decreases self.height - y,
        {
            let mut x: usize = 0;
            while x < self.width
                invariant
                    self.wf(),
                    y < self.height,
                    x <= self.width,
                    s@ == self.rows_text(y as nat) + if x == self.width && x > 0 {
                        self.row_text(y as int)
                    } else {
                        self.row_glyphs(y as int, x as int)
                    },
                decreases self.width - x,
            {
                proof {
                    lemma_index_in_grid(x as int, y as int, self.width as int, self.height as int);
                    lemma_index_of_coords(x as int, y as int, self.width as int);
                }
                let i: usize = y * self.width + x;
                let piece = format_cell(&self.cells[i], i, self.width);
                s.append(piece.as_str());
                proof {
                    let prev = self.rows_text(y as nat);
                    assert(self.row_glyphs(y as int, x + 1) =~= self.row_glyphs(
                        y as int,
                        x as int,
                    ).push(glyph(self.alive(x as int, y as int))));
                    if x + 1 == self.width {
                        assert(s@ =~= prev + self.row_text(y as int));
                    } else {
                        assert(s@ =~= prev + self.row_glyphs(y as int, x + 1));
                    }
                }
                x = x + 1;
            }
            proof {
                if self.width == 0 {
                    assert(s@ =~= self.rows_text(y as nat) + self.row_text(y as int));
                }
                assert(self.rows_text((y + 1) as nat) == self.rows_text(y as nat) + self.row_text(
                    y as int,
                ));
            }
            y = y + 1;
        }
        s
    }

    /// Starts a traversal of every cell in row-major order; the universe is not changed.
    pub fn iter(&self) -> (it: UniverseIterator<'_>)
        requires
            self.wf(),
        ensures
            it.wf(),
            it.source() == *self,
            it.remaining() == self.traversal(),
    {
        UniverseIterator { universe: self, index: 0 }
    }

    /// Sets the cell at `(x, y)`, which must lie on the grid.
    pub fn set(&mut self, x: usize, y: usize, value: bool)
        requires
            old(self).wf(),
            old(self).in_bounds(x as int, y as int),
        ensures
            final(self).wf(),
            final(self).spec_width() == old(self).spec_width(),
            final(self).spec_height() == old(self).spec_height(),
            final(self).spec_cells() == old(self).spec_cells().update(
                old(self).index_of(x as int, y as int),
                value,
            ),
            forall|i: int, j: int| #[trigger]
                final(self).alive(i, j) == if i == x && j == y {
                    value
                } else {
                    old(self).alive(i, j)
                },
    {
        proof {
            lemma_index_in_grid(x as int, y as int, self.width as int, self.height as int);
        }
        let i: usize = y * self.width + x;
        self.cells.set(i, value);
        proof {
            assert forall|a: int, b: int| #[trigger]
                self.alive(a, b) == if a == x && b == y {
                    value
                } else {
                    old(self).alive(a, b)
                } by {
                if self.in_bounds(a, b) && !(a == x && b == y) {
                    lemma_index_in_grid(a, b, self.width as int, self.height as int);
                    lemma_index_of_coords(a, b, self.width as int);
                    lemma_index_of_coords(x as int, y as int, self.width as int);
                }
            }
        }
    }
}

/// The text of the cell at flat index `i` of a grid `width` cells wide.
pub fn format_cell(cell: &bool, i: usize, width: usize) -> (r: String)
    requires
        width > 0,
    ensures
        r@ == cell_text(*cell, i as int, width as int),
{
    let is_end_of_row = i % width == width - 1;
    proof {
        reveal_strlit("X");
        reveal_strlit(" ");
        reveal_strlit("\n");
    }
    let mut cell_string = if *cell {
        String::from_str("X")
    } else {
        String::from_str(" ")
    };
    if is_end_of_row {
        cell_string.append("\n");
    }
    proof {
        assert(cell_string@ =~= cell_text(*cell, i as int, width as int));
    }
    cell_string
}

impl Clone for Universe {
    fn clone(&self) -> (u: Universe)
        ensures
            u.spec_width() == self.spec_width(),
            u.spec_height() == self.spec_height(),
            u.spec_cells() == self.spec_cells(),
    {
        let u = Universe { width: self.width, height: self.height, cells: self.cells.clone() };
        assert(u.cells@ =~= self.cells@);
        u
    }
}

/// A traversal over the cells of a `Universe`.
///
/// It hands out items `(x, y, &alive)`, `x` varying fastest.
pub struct UniverseIterator<'a> {
    universe: &'a Universe,
    index: usize,
}

impl<'a> UniverseIterator<'a> {
    /// The universe being traversed.
    pub closed spec fn source(&self) -> Universe {
        *self.universe
    }

    /// How many items have been handed out.
    pub closed spec fn position(&self) -> nat {
        self.index as nat
    }

    pub open spec fn wf(&self) -> bool {
        self.source().wf() && self.position() <= self.source().spec_cells().len()
    }

    /// The items not handed out yet.
    pub open spec fn remaining(&self) -> Seq<(int, int, bool)> {
        self.source().traversal().skip(self.position() as int)
    }

    /// Hands out the next cell as `(x, y, &alive)`, or `None` once every cell was seen.
    pub fn next(&mut self) -> (r: Option<(usize, usize, &'a bool)>)
        requires
            old(self).wf(),
        ensures
            final(self).wf(),
            final(self).source() == old(self).source(),
            match r {
                Some((x, y, c)) => {
                    &&& old(self).remaining().len() > 0
                    &&& old(self).remaining()[0] == (x as int, y as int, *c)
                    &&& final(self).position() == old(self).position() + 1
                    &&& final(self).remaining() == old(self).remaining().drop_first()
                },
                None => {
                    &&& old(self).remaining().len() == 0
                    &&& final(self).position() == old(self).position()
                },
            },
    {
        if self.index < self.universe.cells.len() {
            let w = self.universe.width;
            proof {
                lemma_coords_of_index(self.index as int, w as int, self.universe.height as int);
            }
            let x = self.index % w;
            let y = self.index / w;
            let c = &self.universe.cells[self.index];
            self.index += 1;
            proof {
                assert(final(self).remaining() =~= old(self).remaining().drop_first());
            }
            Some((x, y, c))
        } else {
            None
        }
    }
}

} // verus!
