use vstd::prelude::*;
use vstd::multiset::Multiset;

verus! {

/// Number of items over all cells.
pub open spec fn total<T>(cells: Seq<Seq<T>>) -> nat
    decreases cells.len(),
{
    if cells.len() == 0 {
        0
    } else {
        total(cells.drop_last()) + cells.last().len()
    }
}

/// Replacing one cell changes the total by the difference in that cell's size.
pub proof fn lemma_total_update<T>(cells: Seq<Seq<T>>, i: int, c: Seq<T>)
    requires
        0 <= i < cells.len(),
    ensures
        total(cells.update(i, c)) + cells[i].len() == total(cells) + c.len(),
    decreases cells.len(),
{
    let u = cells.update(i, c);
    if i == cells.len() - 1 {
        assert(u.drop_last() =~= cells.drop_last());
    } else {
        assert(u.drop_last() =~= cells.drop_last().update(i, c));
        lemma_total_update(cells.drop_last(), i, c);
    }
}

proof fn lemma_total_empty<T>(cells: Seq<Seq<T>>)
    requires
        forall|i: int| 0 <= i < cells.len() ==> (#[trigger] cells[i]).len() == 0,
    ensures
        total(cells) == 0,
    decreases cells.len(),
{
    if cells.len() > 0 {
        lemma_total_empty(cells.drop_last());
    }
}

proof fn lemma_total_prefix<T>(cells: Seq<Seq<T>>, k: int)
    requires
        0 <= k < cells.len(),
    ensures
        total(cells.take(k + 1)) == total(cells.take(k)) + cells[k].len(),
{
    assert(cells.take(k + 1).drop_last() =~= cells.take(k));
}

proof fn lemma_total_take_le<T>(cells: Seq<Seq<T>>, k: int)
    requires
        0 <= k <= cells.len(),
    ensures
        total(cells.take(k)) <= total(cells),
    decreases cells.len(),
{
    if k < cells.len() {
        assert(cells.drop_last().take(k) =~= cells.take(k));
        lemma_total_take_le(cells.drop_last(), k);
    } else {
        assert(cells.take(k) =~= cells);
    }
}

/// Which of the five interaction groups a displacement belongs to: the forward neighbours
/// 0 to 3 as `forward_offset` numbers them, 4 for the cell itself, 5 for anything else.
pub open spec fn forward_group(dx: int, dy: int) -> int {
    if dx == 1 && dy == 0 {
        0
    } else if dx == 0 && dy == 1 {
        1
    } else if dx == -1 && dy == 1 {
        2
    } else if dx == 1 && dy == 1 {
        3
    } else if dx == 0 && dy == 0 {
        4
    } else {
        5
    }
}

/// `t = (i, other, j, dx, dy)` is an interaction that the pass computes for cell `cell`:
/// particle `i` of `cell` against particle `j` of `other`, where `other` is the forward
/// neighbour of displacement `(dx, dy)`, or `cell` itself with `i < j` and no displacement.
pub open spec fn is_visit<T>(
    cells: Seq<Seq<T>>,
    cols: int,
    rows: int,
    cell: int,
    t: (usize, usize, usize, isize, isize),
) -> bool {
    let g = forward_group(t.3 as int, t.4 as int);
    &&& t.0 < cells[cell].len()
    &&& if g < 4 {
        t.1 == forward_cell(cell, g, cols, rows) && t.2 < cells[t.1 as int].len()
    } else if g == 4 {
        t.1 == cell && t.0 < t.2 < cells[cell].len()
    } else {
        false
    }
}

/// The visit `t` comes before position `(i, g, j)` of the pass over one cell: particle first,
/// then group, then the other particle.
pub open spec fn visit_before(t: (usize, usize, usize, isize, isize), i: int, g: int, j: int) -> bool {
    let tg = forward_group(t.3 as int, t.4 as int);
    t.0 < i || (t.0 == i && (tg < g || (tg == g && t.2 < j)))
}

/// Pushing an element that is not there yet keeps a sequence free of duplicates and adds
/// exactly that element.
proof fn lemma_push_fresh<A>(s: Seq<A>, x: A)
    requires
        s.no_duplicates(),
        !s.contains(x),
    ensures
        s.push(x).no_duplicates(),
        forall|y: A| #[trigger] s.push(x).contains(y) <==> (s.contains(y) || y == x),
{
    let r = s.push(x);
    assert forall|y: A| #[trigger] r.contains(y) <==> (s.contains(y) || y == x) by {
        if r.contains(y) {
            let a = choose|a: int| 0 <= a < r.len() && r[a] == y;
            if a < s.len() {
                assert(s[a] == y);
            }
        }
        if s.contains(y) {
            let a = choose|a: int| 0 <= a < s.len() && s[a] == y;
            assert(r[a] == y);
        }
        if y == x {
            assert(r[s.len() as int] == x);
        }
    }
    assert forall|a: int, b: int| 0 <= a < r.len() && 0 <= b < r.len() && a != b implies r[a]
        != r[b] by {
        if a < s.len() && b < s.len() {
        } else if a < s.len() {
            assert(s.contains(r[a]));
        } else {
            assert(s.contains(r[b]));
        }
    }
}

/// The particles of one cell, the one at `c`, that land in cell `d` when particle `i` takes
/// the step `moves[i]`.
pub open spec fn arrivals_from<T>(
    items: Seq<T>,
    moves: Seq<(isize, isize)>,
    c: int,
    d: int,
    cols: int,
    rows: int,
) -> Multiset<T>
    decreases items.len(),
{
    if items.len() == 0 {
        Multiset::empty()
    } else {
        let k = items.len() - 1;
        arrivals_from(items.drop_last(), moves, c, d, cols, rows).add(
            if shifted(c, moves[k].0 as int, moves[k].1 as int, cols, rows) == d {
                Multiset::singleton(items[k])
            } else {
                Multiset::empty()
            },
        )
    }
}

/// The particles of all cells that land in cell `d` when particle `i` of cell `c` takes the
/// step `moves[c][i]`.
pub open spec fn arrivals<T>(
    cells: Seq<Seq<T>>,
    moves: Seq<Vec<(isize, isize)>>,
    d: int,
    cols: int,
    rows: int,
) -> Multiset<T>
    decreases cells.len(),
{
    if cells.len() == 0 {
        Multiset::empty()
    } else {
        let c = cells.len() - 1;
        arrivals(cells.drop_last(), moves, d, cols, rows).add(
            arrivals_from(cells[c], moves[c]@, c, d, cols, rows),
        )
    }
}

/// A step of at most one place round a cycle of `n` places.
proof fn lemma_wrap_step(x: int, d: int, n: int)
    requires
        0 <= x < n,
        -1 <= d <= 1,
    ensures
        (x + d) % n == if x + d < 0 {
            n - 1
        } else if x + d >= n {
            0
        } else {
            x + d
        },
{
    if x + d < 0 {
        vstd::arithmetic::div_mod::lemma_fundamental_div_mod_converse_mod(x + d, n, -1, n - 1);
    } else if x + d >= n {
        vstd::arithmetic::div_mod::lemma_fundamental_div_mod_converse_mod(x + d, n, 1, 0);
    } else {
        vstd::arithmetic::div_mod::lemma_fundamental_div_mod_converse_mod(x + d, n, 0, x + d);
    }
}

/// Position of the cell `cell` of a row-major grid `cols` wide after a step of `dx` columns
/// and `dy` rows, wrapping round at every edge.
pub open spec fn shifted(cell: int, dx: int, dy: int, cols: int, rows: int) -> int {
    ((cell / cols + dy) % rows) * cols + (cell % cols + dx) % cols
}

/// On a cycle of `n` places, a step of `d` leads from `x` to `y`.
pub open spec fn steps_to(x: int, y: int, d: int, n: int) -> bool {
    (x + d) % n == y
}

/// Displacement in (columns, rows) of the `k`-th forward neighbour of a cell: east, south,
/// southwest and southeast.
pub open spec fn forward_offset(k: int) -> (int, int) {
    if k == 0 {
        (1, 0)
    } else if k == 1 {
        (0, 1)
    } else if k == 2 {
        (-1, 1)
    } else {
        (1, 1)
    }
}

/// The `k`-th forward neighbour of `cell`.
pub open spec fn forward_cell(cell: int, k: int, cols: int, rows: int) -> int {
    shifted(cell, forward_offset(k).0, forward_offset(k).1, cols, rows)
}

/// Whether `b` is the `k`-th forward neighbour of `a`, as a count.
pub open spec fn hit(a: int, b: int, k: int, cols: int, rows: int) -> nat {
    if forward_cell(a, k, cols, rows) == b {
        1
    } else {
        0
    }
}

/// How often the interaction pass meets the pair of distinct cells `a`, `b`: as a forward
/// neighbour of `a`, or `a` as one of `b`.
pub open spec fn visits(a: int, b: int, cols: int, rows: int) -> nat {
    hit(a, b, 0, cols, rows) + hit(a, b, 1, cols, rows) + hit(a, b, 2, cols, rows) + hit(
        a,
        b,
        3,
        cols,
        rows,
    ) + hit(b, a, 0, cols, rows) + hit(b, a, 1, cols, rows) + hit(b, a, 2, cols, rows) + hit(
        b,
        a,
        3,
        cols,
        rows,
    )
}

/// Distinct cells `a` and `b` share an edge or a corner, across the wrap-round included.
pub open spec fn touching(a: int, b: int, cols: int, rows: int) -> bool {
    a != b && exists|dx: int, dy: int|
        -1 <= dx <= 1 && -1 <= dy <= 1 && #[trigger] shifted(a, dx, dy, cols, rows) == b
}

proof fn lemma_step_unique(x: int, y: int, d1: int, d2: int, n: int)
    requires
        n >= 3,
        0 <= x < n,
        -1 <= d1 <= 1,
        -1 <= d2 <= 1,
        steps_to(x, y, d1, n),
        steps_to(x, y, d2, n),
    ensures
        d1 == d2,
{
    lemma_wrap_step(x, d1, n);
    lemma_wrap_step(x, d2, n);
}

proof fn lemma_step_back(x: int, y: int, d: int, n: int)
    requires
        n >= 1,
        0 <= x < n,
        0 <= y < n,
        -1 <= d <= 1,
    ensures
        steps_to(x, y, d, n) <==> steps_to(y, x, -d, n),
{
    lemma_wrap_step(x, d, n);
    lemma_wrap_step(y, -d, n);
}

proof fn lemma_cell_split(c: int, cols: int, rows: int)
    requires
        cols >= 1,
        rows >= 1,
        0 <= c < cols * rows,
    ensures
        0 <= c / cols < rows,
        0 <= c % cols < cols,
        c == (c / cols) * cols + c % cols,
{
    vstd::arithmetic::div_mod::lemma_fundamental_div_mod(c, cols);
    assert(0 <= c / cols < rows) by (nonlinear_arith)
        requires
            c == cols * (c / cols) + c % cols,
            0 <= c % cols < cols,
            0 <= c < cols * rows,
            cols >= 1,
    ;
    assert(cols * (c / cols) == (c / cols) * cols) by (nonlinear_arith);
}

/// `shifted` is the step taken on the column and on the row separately.
proof fn lemma_shifted_split(a: int, b: int, dx: int, dy: int, cols: int, rows: int)
    requires
        cols >= 1,
        rows >= 1,
        0 <= a < cols * rows,
        0 <= b < cols * rows,
    ensures
        shifted(a, dx, dy, cols, rows) == b <==> (steps_to(a % cols, b % cols, dx, cols)
            && steps_to(a / cols, b / cols, dy, rows)),
{
    lemma_cell_split(a, cols, rows);
    lemma_cell_split(b, cols, rows);
    let c = (a % cols + dx) % cols;
    let r = (a / cols + dy) % rows;
    assert(0 <= c < cols);
    assert(0 <= r < rows);
    if shifted(a, dx, dy, cols, rows) == b {
        vstd::arithmetic::div_mod::lemma_fundamental_div_mod_converse(b, cols, r, c);
    }
}

/// Over all cells, a cell's four forward neighbours and the cell itself reach every pair of
/// touching cells exactly once and no other pair, on a grid of at least three columns and
/// three rows.
pub proof fn lemma_forward_stencil_visits_each_touching_pair_once(
    a: int,
    b: int,
    cols: int,
    rows: int,
)
    requires
        cols >= 3,
        rows >= 3,
        0 <= a < cols * rows,
        0 <= b < cols * rows,
        a != b,
    ensures
        visits(a, b, cols, rows) == if touching(a, b, cols, rows) {
            1nat
        } else {
            0nat
        },
{
    lemma_cell_split(a, cols, rows);
    lemma_cell_split(b, cols, rows);
    let (ca, ra, cb, rb) = (a % cols, a / cols, b % cols, b / cols);
    assert forall|dx: int, dy: int| -1 <= dx <= 1 && -1 <= dy <= 1 implies (#[trigger] shifted(
        a,
        dx,
        dy,
        cols,
        rows,
    ) == b <==> (steps_to(ca, cb, dx, cols) && steps_to(ra, rb, dy, rows))) && (shifted(
        b,
        -dx,
        -dy,
        cols,
        rows,
    ) == a <==> (steps_to(ca, cb, dx, cols) && steps_to(ra, rb, dy, rows))) by {
        lemma_shifted_split(a, b, dx, dy, cols, rows);
        lemma_shifted_split(b, a, -dx, -dy, cols, rows);
        lemma_step_back(ca, cb, dx, cols);
        lemma_step_back(ra, rb, dy, rows);
    }
    assert forall|d1: int, d2: int|
        -1 <= d1 <= 1 && -1 <= d2 <= 1 && #[trigger] steps_to(ca, cb, d1, cols) && #[trigger]
            steps_to(ca, cb, d2, cols) implies d1 == d2 by {
        lemma_step_unique(ca, cb, d1, d2, cols);
    }
    assert forall|d1: int, d2: int|
        -1 <= d1 <= 1 && -1 <= d2 <= 1 && #[trigger] steps_to(ra, rb, d1, rows) && #[trigger]
            steps_to(ra, rb, d2, rows) implies d1 == d2 by {
        lemma_step_unique(ra, rb, d1, d2, rows);
    }
    lemma_shifted_split(a, a, 0, 0, cols, rows);
    lemma_wrap_step(ca, 0, cols);
    lemma_wrap_step(ra, 0, rows);
    assert(shifted(a, 0, 0, cols, rows) != b);
    assert(shifted(a, 1, 0, cols, rows) == forward_cell(a, 0, cols, rows));
    assert(shifted(a, 0, 1, cols, rows) == forward_cell(a, 1, cols, rows));
    assert(shifted(a, -1, 1, cols, rows) == forward_cell(a, 2, cols, rows));
    assert(shifted(a, 1, 1, cols, rows) == forward_cell(a, 3, cols, rows));
    assert(shifted(b, 1, 0, cols, rows) == forward_cell(b, 0, cols, rows));
    assert(shifted(b, 0, 1, cols, rows) == forward_cell(b, 1, cols, rows));
    assert(shifted(b, -1, 1, cols, rows) == forward_cell(b, 2, cols, rows));
    assert(shifted(b, 1, 1, cols, rows) == forward_cell(b, 3, cols, rows));
    let mx = |d: int| steps_to(ca, cb, d, cols);
    let my = |d: int| steps_to(ra, rb, d, rows);
    assert(shifted(a, -1, -1, cols, rows) == b <==> mx(-1) && my(-1));
    assert(shifted(a, -1, 0, cols, rows) == b <==> mx(-1) && my(0));
    assert(shifted(a, -1, 1, cols, rows) == b <==> mx(-1) && my(1));
    assert(shifted(a, 0, -1, cols, rows) == b <==> mx(0) && my(-1));
    assert(shifted(a, 0, 0, cols, rows) == b <==> mx(0) && my(0));
    assert(shifted(a, 0, 1, cols, rows) == b <==> mx(0) && my(1));
    assert(shifted(a, 1, -1, cols, rows) == b <==> mx(1) && my(-1));
    assert(shifted(a, 1, 0, cols, rows) == b <==> mx(1) && my(0));
    assert(shifted(a, 1, 1, cols, rows) == b <==> mx(1) && my(1));
    assert(shifted(b, 1, 1, cols, rows) == a <==> mx(-1) && my(-1));
    assert(shifted(b, 1, 0, cols, rows) == a <==> mx(-1) && my(0));
    assert(shifted(b, 0, 1, cols, rows) == a <==> mx(0) && my(-1));
    assert(shifted(b, -1, 1, cols, rows) == a <==> mx(1) && my(-1));
    if touching(a, b, cols, rows) {
        let (dx, dy) = choose|dx: int, dy: int|
            -1 <= dx <= 1 && -1 <= dy <= 1 && #[trigger] shifted(a, dx, dy, cols, rows) == b;
        assert(mx(dx) && my(dy));
    } else {
        assert forall|dx: int, dy: int|
            #![trigger steps_to(ca, cb, dx, cols), steps_to(ra, rb, dy, rows)]
            -1 <= dx <= 1 && -1 <= dy <= 1 implies !(steps_to(ca, cb, dx, cols) && steps_to(
                ra,
                rb,
                dy,
                rows,
            )) by {
            if mx(dx) && my(dy) {
                assert(shifted(a, dx, dy, cols, rows) == b);
            }
        }
    }
}

/// A toroidal grid of `cols` by `rows` cells, stored row by row, each cell holding a bucket
/// of particles in no particular order.
pub struct Grid<T> {
    cols: usize,
    rows: usize,
    cells: Vec<Vec<T>>,
}

impl<T> Grid<T> {
    /// Number of columns.
    pub closed spec fn width(&self) -> int {
        self.cols as int
    }

    /// Number of rows.
    pub closed spec fn height(&self) -> int {
        self.rows as int
    }

    /// The particles of every cell, indexed by `row * width + column`.
    pub closed spec fn contents(&self) -> Seq<Seq<T>> {
        self.cells@.map_values(|c: Vec<T>| c@)
    }

    /// Both extents are positive, there is one bucket per cell, and the cell count and the
    /// particle count fit in a `usize`.
    pub closed spec fn wf(&self) -> bool {
        &&& self.cols >= 1
        &&& self.rows >= 1
        &&& self.cols * self.rows <= usize::MAX
        &&& self.cells@.len() == self.cols * self.rows
        &&& total(self.contents()) <= usize::MAX
    }

    /// An empty grid of `cols` by `rows` cells.
    pub fn new(cols: usize, rows: usize) -> (g: Self)
        requires
            cols >= 1,
            rows >= 1,
            cols * rows <= usize::MAX,
        ensures
            g.wf(),
            g.width() == cols,
            g.height() == rows,
            g.contents().len() == cols * rows,
            forall|i: int| 0 <= i < cols * rows ==> #[trigger] g.contents()[i].len() == 0,
            total(g.contents()) == 0,
    {
        let n = cols * rows;
        let mut cells: Vec<Vec<T>> = Vec::with_capacity(n);
        let mut i: usize = 0;
        while i < n
            invariant
                i <= n,
                cells@.len() == i,
                forall|a: int| 0 <= a < i ==> (#[trigger] cells@[a])@.len() == 0,
                total(cells@.map_values(|c: Vec<T>| c@)) == 0,
            decreases n - i,
        {
            let ghost prev = cells@.map_values(|c: Vec<T>| c@);
            cells.push(Vec::new());
            assert(cells@.map_values(|c: Vec<T>| c@).drop_last() =~= prev);
            i += 1;
        }
        Grid { cols, rows, cells }
    }

    /// Number of columns.
    pub fn cols(&self) -> (r: usize)
        ensures
            r == self.width(),
    {
        self.cols
    }

    /// Number of rows.
    pub fn rows(&self) -> (r: usize)
        ensures
            r == self.height(),
    {
        self.rows
    }

    /// Number of cells.
    pub fn cell_count(&self) -> (r: usize)
        requires
            self.wf(),
        ensures
            r == self.contents().len(),
            r == self.width() * self.height(),
    {
        self.cells.len()
    }

    /// Index of the cell at column `col`, row `row`.
    pub fn cell_index(&self, col: usize, row: usize) -> (r: usize)
        requires
            self.wf(),
            col < self.width(),
            row < self.height(),
        ensures
            r == row * self.width() + col,
            r < self.contents().len(),
    {
        proof {
            assert(row * self.cols + col < self.cols * self.rows) by (nonlinear_arith)
                requires
                    col < self.cols,
                    row < self.rows,
            ;
        }
        row * self.cols + col
    }

    /// Index of the cell reached from `cell` by a step of `dx` columns and `dy` rows, each
    /// between -1 and 1, wrapping round at the grid's edges.
    pub fn neighbor(&self, cell: usize, dx: isize, dy: isize) -> (r: usize)
        requires
            self.wf(),
            cell < self.contents().len(),
            -1 <= dx <= 1,
            -1 <= dy <= 1,
        ensures
            r == shifted(cell as int, dx as int, dy as int, self.width(), self.height()),
            r < self.contents().len(),
    {
        let cols = self.cols;
        let rows = self.rows;
        let col = cell % cols;
        let row = cell / cols;
        proof {
            assert(row < rows) by (nonlinear_arith)
                requires
                    row == cell / cols,
                    cell < cols * rows,
                    cols >= 1,
            ;
        }
        let new_col: usize = if dx < 0 {
            if col == 0 { cols - 1 } else { col - 1 }
        } else if dx > 0 {
            if col + 1 == cols { 0 } else { col + 1 }
        } else {
            col
        };
        let new_row: usize = if dy < 0 {
            if row == 0 { rows - 1 } else { row - 1 }
        } else if dy > 0 {
            if row + 1 == rows { 0 } else { row + 1 }
        } else {
            row
        };
        proof {
            lemma_wrap_step(col as int, dx as int, cols as int);
            lemma_wrap_step(row as int, dy as int, rows as int);
            assert(new_row * cols + new_col < cols * rows) by (nonlinear_arith)
                requires
                    new_col < cols,
                    new_row < rows,
            ;
        }
        new_row * cols + new_col
    }

    /// The cells that `cell` interacts with besides itself, each with its displacement in
    /// cells (columns, rows) from `cell`: east, south, southwest and southeast, in that order.
    /// Over all cells these four and the cell itself reach every pair of touching cells once.
    pub fn forward_neighbors(&self, cell: usize) -> (r: Vec<(usize, isize, isize)>)
        requires
            self.wf(),
            cell < self.contents().len(),
        ensures
            r@.len() == 4,
            r@[0] == (shifted(cell as int, 1, 0, self.width(), self.height()) as usize, 1isize, 0isize),
            r@[1] == (shifted(cell as int, 0, 1, self.width(), self.height()) as usize, 0isize, 1isize),
            r@[2] == (shifted(cell as int, -1, 1, self.width(), self.height()) as usize, -1isize, 1isize),
            r@[3] == (shifted(cell as int, 1, 1, self.width(), self.height()) as usize, 1isize, 1isize),
            forall|k: int| 0 <= k < 4 ==> (#[trigger] r@[k]).0 < self.contents().len(),
            forall|k: int|
                0 <= k < 4 ==> (#[trigger] r@[k]).0 == forward_cell(
                    cell as int,
                    k,
                    self.width(),
                    self.height(),
                ) && (r@[k].1 as int, r@[k].2 as int) == forward_offset(k),
    {
        let mut r: Vec<(usize, isize, isize)> = Vec::with_capacity(4);
        r.push((self.neighbor(cell, 1, 0), 1, 0));
        r.push((self.neighbor(cell, 0, 1), 0, 1));
        r.push((self.neighbor(cell, -1, 1), -1, 1));
        r.push((self.neighbor(cell, 1, 1), 1, 1));
        r
    }

    /// The pairwise interactions of the pass for cell `cell`, each listed once as
    /// `(i, other, j, dx, dy)`: particle `i` of `cell` against particle `j` of cell `other`,
    /// whose particles are seen displaced by `(dx, dy)` cells. These are every pair of
    /// particles within `cell`, and every particle of `cell` against every particle of each
    /// forward neighbour. They come by particle `i`, then by neighbour in forward order with
    /// the cell itself last, then by `j`.
    pub fn interaction_visits(&self, cell: usize) -> (r: Vec<(usize, usize, usize, isize, isize)>)
        requires
            self.wf(),
            cell < self.contents().len(),
        ensures
            r@.no_duplicates(),
            forall|t: (usize, usize, usize, isize, isize)|
                r@.contains(t) <==> is_visit(self.contents(), self.width(), self.height(), cell as int, t),
    {
        let ghost c = self.contents();
        let ghost w = self.width();
        let ghost h = self.height();
        let m = self.cells[cell].len();
        let nbrs = self.forward_neighbors(cell);
        let mut r: Vec<(usize, usize, usize, isize, isize)> = Vec::new();
        let mut i: usize = 0;
        while i < m
            invariant
                self.wf(),
                c == self.contents(),
                w == self.width(),
                h == self.height(),
                cell < c.len(),
                m == c[cell as int].len(),
                i <= m,
                nbrs@.len() == 4,
                forall|k: int| 0 <= k < 4 ==> (#[trigger] nbrs@[k]).0 < c.len(),
                forall|k: int|
                    0 <= k < 4 ==> (#[trigger] nbrs@[k]).0 == forward_cell(cell as int, k, w, h) && (
                    nbrs@[k].1 as int, nbrs@[k].2 as int) == forward_offset(k),
                r@.no_duplicates(),
                forall|t: (usize, usize, usize, isize, isize)|
                    r@.contains(t) <==> (is_visit(c, w, h, cell as int, t) && visit_before(t, i as int, 0, 0)),
            decreases m - i,
        {
            let mut k: usize = 0;
            while k < 4
                invariant
                    self.wf(),
                    c == self.contents(),
                    w == self.width(),
                    h == self.height(),
                    cell < c.len(),
                    m == c[cell as int].len(),
                    i < m,
                    k <= 4,
                    nbrs@.len() == 4,
                    forall|k: int| 0 <= k < 4 ==> (#[trigger] nbrs@[k]).0 < c.len(),
                    forall|k: int|
                        0 <= k < 4 ==> (#[trigger] nbrs@[k]).0 == forward_cell(cell as int, k, w, h) && (
                        nbrs@[k].1 as int, nbrs@[k].2 as int) == forward_offset(k),
                    r@.no_duplicates(),
                    forall|t: (usize, usize, usize, isize, isize)|
                        r@.contains(t) <==> (is_visit(c, w, h, cell as int, t) && visit_before(
                            t,
                            i as int,
                            k as int,
                            0,
                        )),
                decreases 4 - k,
            {
                let (nb, dx, dy) = nbrs[k];
                assert(forward_group(dx as int, dy as int) == k);
                let len = self.cells[nb].len();
                let mut j: usize = 0;
                while j < len
                    invariant
                        c == self.contents(),
                        cell < c.len(),
                        m == c[cell as int].len(),
                        i < m,
                        k < 4,
                        nb < c.len(),
                        nb == forward_cell(cell as int, k as int, w, h),
                        forward_group(dx as int, dy as int) == k,
                        len == c[nb as int].len(),
                        j <= len,
                        r@.no_duplicates(),
                        forall|t: (usize, usize, usize, isize, isize)|
                            r@.contains(t) <==> (is_visit(c, w, h, cell as int, t) && visit_before(
                                t,
                                i as int,
                                k as int,
                                j as int,
                            )),
                    decreases len - j,
                {
                    let t0 = (i, nb, j, dx, dy);
                    assert(!r@.contains(t0));
                    let ghost prev = r@;
                    r.push(t0);
                    proof {
                        lemma_push_fresh(prev, t0);
                    }
                    j += 1;
                }
                k += 1;
            }
            let mut j: usize = i + 1;
            while j < m
                invariant
                    c == self.contents(),
                    cell < c.len(),
                    m == c[cell as int].len(),
                    i < m,
                    i + 1 <= j <= m,
                    r@.no_duplicates(),
                    forall|t: (usize, usize, usize, isize, isize)|
                        r@.contains(t) <==> (is_visit(c, w, h, cell as int, t) && visit_before(
                            t,
                            i as int,
                            4,
                            j as int,
                        )),
                decreases m - j,
            {
                let t0 = (i, cell, j, 0isize, 0isize);
                assert(!r@.contains(t0));
                let ghost prev = r@;
                r.push(t0);
                proof {
                    lemma_push_fresh(prev, t0);
                }
                j += 1;
            }
            i += 1;
        }
        r
    }

    /// The particles of cell `cell`.
    pub fn cell(&self, cell: usize) -> (r: &Vec<T>)
        requires
            cell < self.contents().len(),
        ensures
            r@ == self.contents()[cell as int],
    {
        &self.cells[cell]
    }

    /// Particle `i` of cell `cell`.
    pub fn get(&self, cell: usize, i: usize) -> (r: &T)
        requires
            cell < self.contents().len(),
            i < self.contents()[cell as int].len(),
        ensures
            *r == self.contents()[cell as int][i as int],
    {
        &self.cells[cell][i]
    }

    /// Number of particles in cell `cell`.
    pub fn cell_len(&self, cell: usize) -> (r: usize)
        requires
            cell < self.contents().len(),
        ensures
            r == self.contents()[cell as int].len(),
    {
        self.cells[cell].len()
    }

    /// Adds `p` to cell `cell`.
    pub fn place(&mut self, cell: usize, p: T)
        requires
            old(self).wf(),
            cell < old(self).contents().len(),
            total(old(self).contents()) < usize::MAX,
        ensures
            final(self).wf(),
            final(self).width() == old(self).width(),
            final(self).height() == old(self).height(),
            final(self).contents() == old(self).contents().update(
                cell as int,
                old(self).contents()[cell as int].push(p),
            ),
            total(final(self).contents()) == total(old(self).contents()) + 1,
    {
        let ghost before = self.contents();
        self.cells[cell].push(p);
        proof {
            assert(self.contents() =~= before.update(cell as int, before[cell as int].push(p)));
            lemma_total_update(before, cell as int, before[cell as int].push(p));
        }
    }

    /// Replaces particle `i` of cell `cell` by `p`.
    pub fn set(&mut self, cell: usize, i: usize, p: T)
        requires
            old(self).wf(),
            cell < old(self).contents().len(),
            i < old(self).contents()[cell as int].len(),
        ensures
            final(self).wf(),
            final(self).width() == old(self).width(),
            final(self).height() == old(self).height(),
            final(self).contents() == old(self).contents().update(
                cell as int,
                old(self).contents()[cell as int].update(i as int, p),
            ),
            total(final(self).contents()) == total(old(self).contents()),
    {
        let ghost before = self.contents();
        self.cells[cell].set(i, p);
        proof {
            assert(self.contents() =~= before.update(
                cell as int,
                before[cell as int].update(i as int, p),
            ));
            lemma_total_update(before, cell as int, before[cell as int].update(i as int, p));
        }
    }

    /// Moves particle `i` of cell `cell` into the cell a step of `dx` columns and `dy` rows
    /// away. The last particle of `cell` takes the freed place, and the moved one goes last in
    /// its new cell.
    pub fn relocate(&mut self, cell: usize, i: usize, dx: isize, dy: isize)
        requires
            old(self).wf(),
            cell < old(self).contents().len(),
            i < old(self).contents()[cell as int].len(),
            -1 <= dx <= 1,
            -1 <= dy <= 1,
        ensures
            final(self).wf(),
            final(self).width() == old(self).width(),
            final(self).height() == old(self).height(),
            ({
                let c = old(self).contents();
                let removed = c.update(
                    cell as int,
                    c[cell as int].update(i as int, c[cell as int].last()).drop_last(),
                );
                let to = shifted(cell as int, dx as int, dy as int, old(self).width(), old(self).height());
                final(self).contents() == removed.update(to, removed[to].push(c[cell as int][i as int]))
            }),
            total(final(self).contents()) == total(old(self).contents()),
    {
        let ghost c = self.contents();
        let to = self.neighbor(cell, dx, dy);
        let p = self.cells[cell].swap_remove(i);
        let ghost removed = c.update(
            cell as int,
            c[cell as int].update(i as int, c[cell as int].last()).drop_last(),
        );
        proof {
            assert(self.contents() =~= removed);
            lemma_total_update(c, cell as int, removed[cell as int]);
        }
        self.cells[to].push(p);
        proof {
            assert(self.contents() =~= removed.update(to as int, removed[to as int].push(p)));
            lemma_total_update(removed, to as int, removed[to as int].push(p));
        }
    }

    /// The migration pass: particle `i` of cell `c` moves to the cell a step of `moves[c][i]`
    /// away (a step of `(0, 0)` keeps it where it is). Each cell ends up holding exactly the
    /// particles that land in it, in no particular order, and none is created or lost.
    pub fn migrate(&mut self, moves: &Vec<Vec<(isize, isize)>>)
        requires
            old(self).wf(),
            moves@.len() == old(self).contents().len(),
            forall|c: int|
                0 <= c < moves@.len() ==> (#[trigger] moves@[c])@.len() == old(
                    self,
                ).contents()[c].len(),
            forall|c: int, i: int|
                0 <= c < moves@.len() && 0 <= i < moves@[c]@.len() ==> -1 <= (
                #[trigger] moves@[c]@[i]).0 <= 1 && -1 <= moves@[c]@[i].1 <= 1,
        ensures
            final(self).wf(),
            final(self).width() == old(self).width(),
            final(self).height() == old(self).height(),
            final(self).contents().len() == old(self).contents().len(),
            forall|d: int|
                0 <= d < final(self).contents().len() ==> (
                #[trigger] final(self).contents()[d]).to_multiset() == arrivals(
                    old(self).contents(),
                    moves@,
                    d,
                    old(self).width(),
                    old(self).height(),
                ),
            total(final(self).contents()) == total(old(self).contents()),
    {
        broadcast use vstd::multiset::group_multiset_axioms, vstd::seq_lib::group_to_multiset_ensures;

        let ghost orig = self.contents();
        let ghost w = self.cols as int;
        let ghost h = self.rows as int;
        let n = self.cells.len();
        let mut rest: Vec<Vec<T>> = Vec::with_capacity(n);
        let mut k: usize = 0;
        while k < n
            invariant
                k <= n,
                rest@.len() == k,
                forall|a: int| 0 <= a < k ==> (#[trigger] rest@[a])@.len() == 0,
            decreases n - k,
        {
            rest.push(Vec::new());
            k += 1;
        }
        std::mem::swap(&mut rest, &mut self.cells);
        proof {
            assert(rest@.map_values(|c: Vec<T>| c@) =~= orig);
            assert forall|d: int| 0 <= d < n implies (#[trigger] self.contents()[d]).to_multiset()
                =~= Multiset::empty() by {
                assert(self.contents()[d].len() == 0);
                assert(self.contents()[d].to_multiset().len() == 0);
            }
            lemma_total_empty(self.contents());
            assert(orig.take(n as int) =~= orig);
        }
        while rest.len() > 0
            invariant
                self.cols == w,
                self.rows == h,
                self.cells@.len() == n,
                n == orig.len(),
                n == w * h,
                w >= 1,
                h >= 1,
                w * h <= usize::MAX,
                total(orig) <= usize::MAX,
                moves@.len() == n,
                forall|c: int| 0 <= c < n ==> (#[trigger] moves@[c])@.len() == orig[c].len(),
                forall|c: int, i: int|
                    0 <= c < n && 0 <= i < moves@[c]@.len() ==> -1 <= (
                    #[trigger] moves@[c]@[i]).0 <= 1 && -1 <= moves@[c]@[i].1 <= 1,
                rest@.len() <= n,
                forall|c: int| 0 <= c < rest@.len() ==> (#[trigger] rest@[c])@ == orig[c],
                forall|d: int|
                    0 <= d < n ==> (#[trigger] self.contents()[d]).to_multiset().add(
                        arrivals(orig.take(rest@.len() as int), moves@, d, w, h),
                    ) == arrivals(orig, moves@, d, w, h),
                total(self.contents()) + total(orig.take(rest@.len() as int)) == total(orig),
            decreases rest@.len(),
        {
            let mut cur = rest.pop().unwrap();
            let c = rest.len();
            proof {
                assert(orig.take(c + 1).drop_last() =~= orig.take(c as int));
                assert(orig.take(c + 1)[c as int] == orig[c as int]);
            }
            while cur.len() > 0
                invariant
                    self.cols == w,
                    self.rows == h,
                    self.cells@.len() == n,
                    n == orig.len(),
                    n == w * h,
                    w >= 1,
                    h >= 1,
                    w * h <= usize::MAX,
                    total(orig) <= usize::MAX,
                    moves@.len() == n,
                    c < n,
                    moves@[c as int]@.len() == orig[c as int].len(),
                    forall|i: int|
                        0 <= i < moves@[c as int]@.len() ==> -1 <= (
                        #[trigger] moves@[c as int]@[i]).0 <= 1 && -1 <= moves@[c as int]@[i].1
                            <= 1,
                    rest@.len() == c,
                    forall|a: int| 0 <= a < c ==> (#[trigger] rest@[a])@ == orig[a],
                    cur@ == orig[c as int].take(cur@.len() as int),
                    cur@.len() <= orig[c as int].len(),
                    forall|d: int|
                        0 <= d < n ==> (#[trigger] self.contents()[d]).to_multiset().add(
                            arrivals(orig.take(c as int), moves@, d, w, h),
                        ).add(arrivals_from(cur@, moves@[c as int]@, c as int, d, w, h)) == arrivals(
                            orig,
                            moves@,
                            d,
                            w,
                            h,
                        ),
                    total(self.contents()) + total(orig.take(c as int)) + cur@.len() == total(orig),
                decreases cur@.len(),
            {
                let ghost before = self.contents();
                let ghost cur_before = cur@;
                let i = cur.len() - 1;
                let p = cur.pop().unwrap();
                let step = moves[c][i];
                let to = self.neighbor(c, step.0, step.1);
                self.cells[to].push(p);
                proof {
                    assert(cur_before.drop_last() =~= cur@);
                    assert(cur@ =~= orig[c as int].take(cur@.len() as int));
                    assert(self.contents() =~= before.update(to as int, before[to as int].push(p)));
                    lemma_total_update(before, to as int, before[to as int].push(p));
                    assert(cur_before[i as int] == p);
                    assert(to == shifted(c as int, step.0 as int, step.1 as int, w, h));
                    assert forall|d: int| 0 <= d < n implies (#[trigger] self.contents()[d]).to_multiset().add(
                        arrivals(orig.take(c as int), moves@, d, w, h),
                    ).add(arrivals_from(cur@, moves@[c as int]@, c as int, d, w, h)) == arrivals(
                        orig,
                        moves@,
                        d,
                        w,
                        h,
                    ) by {
                        assert(before[d].to_multiset().add(
                            arrivals(orig.take(c as int), moves@, d, w, h),
                        ).add(arrivals_from(cur_before, moves@[c as int]@, c as int, d, w, h))
                            == arrivals(orig, moves@, d, w, h));
                        assert(arrivals_from(cur_before, moves@[c as int]@, c as int, d, w, h)
                            == arrivals_from(cur@, moves@[c as int]@, c as int, d, w, h).add(
                            if d == to {
                                Multiset::singleton(p)
                            } else {
                                Multiset::empty()
                            },
                        ));
                        if d == to {
                            assert(self.contents()[d] == before[d].push(p));
                            vstd::seq_lib::to_multiset_build(before[d], p);
                            assert(self.contents()[d].to_multiset() =~= before[d].to_multiset().add(
                                Multiset::singleton(p),
                            ));
                        } else {
                            assert(self.contents()[d] == before[d]);
                        }
                        assert(self.contents()[d].to_multiset().add(
                            arrivals(orig.take(c as int), moves@, d, w, h),
                        ).add(arrivals_from(cur@, moves@[c as int]@, c as int, d, w, h)) =~= before[d].to_multiset().add(
                            arrivals(orig.take(c as int), moves@, d, w, h),
                        ).add(arrivals_from(cur_before, moves@[c as int]@, c as int, d, w, h)));
                    }
                }
            }
            proof {
                assert(cur@ =~= Seq::<T>::empty());
                lemma_total_prefix(orig, c as int);
                assert forall|d: int| 0 <= d < n implies (#[trigger] self.contents()[d]).to_multiset().add(
                    arrivals(orig.take(c as int), moves@, d, w, h),
                ) =~= arrivals(orig, moves@, d, w, h) by {}
            }
        }
        proof {
            assert(orig.take(0) =~= Seq::<Seq<T>>::empty());
            assert forall|d: int| 0 <= d < n implies (#[trigger] self.contents()[d]).to_multiset()
                =~= arrivals(orig, moves@, d, w, h) by {
                assert(self.contents()[d].to_multiset().add(
                    arrivals(orig.take(0), moves@, d, w, h),
                ) == arrivals(orig, moves@, d, w, h));
            }
        }
    }

    /// Number of particles over all cells.
    pub fn particle_count(&self) -> (r: usize)
        requires
            self.wf(),
        ensures
            r == total(self.contents()),
    {
        let mut sum: usize = 0;
        let mut k: usize = 0;
        let n = self.cells.len();
        proof {
            assert(self.contents().take(0) =~= Seq::<Seq<T>>::empty());
        }
        while k < n
            invariant
                self.wf(),
                n == self.contents().len(),
                k <= n,
                sum == total(self.contents().take(k as int)),
            decreases n - k,
        {
            proof {
                lemma_total_prefix(self.contents(), k as int);
                lemma_total_take_le(self.contents(), k as int + 1);
            }
            sum = sum + self.cells[k].len();
            k += 1;
        }
        assert(self.contents().take(n as int) =~= self.contents());
        sum
    }
}

} // verus!
