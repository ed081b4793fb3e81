use vstd::prelude::*;

verus! {

/// A request to draw one character at a terminal position (1-based row and
/// column, as the terminal's cursor-positioning sequence counts them).
#[derive(Debug, PartialEq, Eq, Clone, Copy, Structural)]
pub struct CellDraw {
    pub row: usize,
    pub column: usize,
    pub ch: char,
}

/// A character map of `depth` rows of `width` cells, drawn on a terminal
/// with its top-left cell at (`offset_z`, `offset_x`). Cells whose character
/// changed since the last flush are remembered, latest last, so that only
/// they need redrawing.
pub struct ConsoleMap {
    pub width: usize,
    pub depth: usize,
    pub grid: Vec<Vec<char>>,
    dirty_cells: Vec<(usize, usize)>,
    pub offset_x: usize,
    pub offset_z: usize,
}

/// The rows of a grid as sequences of characters.
pub open spec fn rows_of(grid: Seq<Vec<char>>) -> Seq<Seq<char>> {
    grid.map_values(|row: Vec<char>| row@)
}

/// A blank area: `depth` rows of `width` spaces.
pub open spec fn blank_rows(width: nat, depth: nat) -> Seq<Seq<char>> {
    Seq::new(depth, |z: int| Seq::new(width, |x: int| ' '))
}

/// `(x, z)` names a cell of `rows`.
pub open spec fn holds_cell(rows: Seq<Seq<char>>, x: int, z: int) -> bool {
    0 <= z < rows.len() && 0 <= x < rows[z].len()
}

/// The cells of the first `n` columns of row `z` that are not blank, left
/// to right.
pub open spec fn row_changes(row: Seq<char>, z: usize, n: int) -> Seq<(usize, usize)>
    decreases n,
{
    if n <= 0 {
        Seq::empty()
    } else {
        row_changes(row, z, n - 1) + if row[n - 1] != ' ' {
            seq![((n - 1) as usize, z)]
        } else {
            Seq::empty()
        }
    }
}

/// The cells of the first `d` rows (of `width` columns each) that are not
/// blank, row by row and left to right within a row.
pub open spec fn area_changes(rows: Seq<Seq<char>>, width: usize, d: int) -> Seq<(usize, usize)>
    decreases d,
{
    if d <= 0 {
        Seq::empty()
    } else {
        area_changes(rows, width, d - 1) + row_changes(rows[d - 1], (d - 1) as usize, width as int)
    }
}

/// The rows after writing `key` into cell `(x, z)` of the `width` by
/// `depth` area: writes outside the area are ignored.
pub open spec fn written(rows: Seq<Seq<char>>, width: usize, depth: usize, x: usize, z: usize, key: char) -> Seq<Seq<char>> {
    if x < width && z < depth {
        rows.update(z as int, rows[z as int].update(x as int, key))
    } else {
        rows
    }
}

/// The cells waiting to be redrawn after writing `key` into cell `(x, z)`:
/// the cell joins them when the write lies in the area and changes it.
pub open spec fn marked_after_write(
    pending: Seq<(usize, usize)>,
    rows: Seq<Seq<char>>,
    width: usize,
    depth: usize,
    x: usize,
    z: usize,
    key: char,
) -> Seq<(usize, usize)> {
    if x < width && z < depth && rows[z as int][x as int] != key {
        pending.push((x, z))
    } else {
        pending
    }
}

/// The draw request for cell `(x, z)` of `rows` on a terminal where the
/// map's top-left cell sits at (`offset_z`, `offset_x`).
pub open spec fn draw_of(rows: Seq<Seq<char>>, offset_x: usize, offset_z: usize, cell: (usize, usize)) -> CellDraw {
    CellDraw {
        row: (offset_z + cell.1) as usize,
        column: (offset_x + cell.0) as usize,
        ch: rows[cell.1 as int][cell.0 as int],
    }
}

/// What a console map is: its area, the characters of its rows, the cells
/// waiting to be redrawn (in the order they changed) and where its top-left
/// cell sits on the terminal.
#[verifier::ext_equal]
pub struct MapState {
    pub width: usize,
    pub depth: usize,
    pub rows: Seq<Seq<char>>,
    pub pending: Seq<(usize, usize)>,
    pub offset_x: usize,
    pub offset_z: usize,
}

/// `rows` with the first `w` cells of each row before row `z`, and the
/// first `x` cells of row `z`, blanked; every other cell as it was.
pub open spec fn blanked_upto(rows: Seq<Seq<char>>, w: usize, z: int, x: int) -> Seq<Seq<char>> {
    Seq::new(
        rows.len(),
        |r: int|
            Seq::new(
                rows[r].len(),
                |c: int|
                    if (r < z && c < w) || (r == z && c < x) {
                        ' '
                    } else {
                        rows[r][c]
                    },
            ),
    )
}

/// `rows` with every cell of the `w` by `d` area blanked.
pub open spec fn blanked(rows: Seq<Seq<char>>, w: usize, d: usize) -> Seq<Seq<char>> {
    blanked_upto(rows, w, d as int, 0)
}

/// The draw requests for the cells of `pending`, latest first.
pub open spec fn draws_latest_first(
    rows: Seq<Seq<char>>,
    offset_x: usize,
    offset_z: usize,
    pending: Seq<(usize, usize)>,
) -> Seq<CellDraw> {
    Seq::new(
        pending.len(),
        |i: int| draw_of(rows, offset_x, offset_z, pending[pending.len() - 1 - i]),
    )
}

/// Every pending cell is held by the grid and its terminal position is
/// representable.
pub open spec fn drawable(st: MapState) -> bool {
    forall|i: int|
        0 <= i < st.pending.len() ==> {
            &&& holds_cell(st.rows, (#[trigger] st.pending[i]).0 as int, st.pending[i].1 as int)
            &&& st.offset_x + st.pending[i].0 <= usize::MAX
            &&& st.offset_z + st.pending[i].1 <= usize::MAX
        }
}

/// Every cell of the map's area is held by the grid.
pub open spec fn covers_area(st: MapState) -> bool {
    forall|x: int, z: int|
        0 <= x < st.width && 0 <= z < st.depth ==> #[trigger] holds_cell(st.rows, x, z)
}

impl MapState {
    /// The state after writing `key` into cell `(x, z)`.
    pub open spec fn after_input(self, x: usize, z: usize, key: char) -> MapState {
        MapState {
            rows: written(self.rows, self.width, self.depth, x, z, key),
            pending: marked_after_write(self.pending, self.rows, self.width, self.depth, x, z, key),
            ..self
        }
    }
}

impl View for ConsoleMap {
    type V = MapState;

    closed spec fn view(&self) -> MapState {
        MapState {
            width: self.width,
            depth: self.depth,
            rows: rows_of(self.grid@),
            pending: self.dirty_cells@,
            offset_x: self.offset_x,
            offset_z: self.offset_z,
        }
    }
}

/// The character in cell `(x, z)` of the grid.
fn cell_at(grid: &Vec<Vec<char>>, x: usize, z: usize) -> (ch: char)
    requires
        holds_cell(rows_of(grid@), x as int, z as int),
    ensures
        ch == rows_of(grid@)[z as int][x as int],
{
    grid[z][x]
}

impl ConsoleMap {

    /// Creates a blank map of `depth` rows of `width` spaces. The terminal
    /// offsets are at least 1, since the terminal counts rows and columns
    /// from 1.
    pub fn new(width: usize, depth: usize, offset_x: usize, offset_z: usize) -> (map: Self)
        ensures
            map@ == (MapState {
                width,
                depth,
                rows: blank_rows(width as nat, depth as nat),
                pending: Seq::empty(),
                offset_x: if offset_x < 1 { 1 } else { offset_x },
                offset_z: if offset_z < 1 { 1 } else { offset_z },
            }),
    {
        let mut grid: Vec<Vec<char>> = Vec::new();
        let mut z: usize = 0;
        while z < depth
            invariant
                z <= depth,
                rows_of(grid@) == blank_rows(width as nat, z as nat),
            decreases depth - z,
        {
            let mut row: Vec<char> = Vec::new();
            let mut x: usize = 0;
            while x < width
                invariant
                    x <= width,
                    row@ == Seq::new(x as nat, |i: int| ' '),
                decreases width - x,
            {
                row.push(' ');
                x = x + 1;
            }
            let ghost prev = grid@;
            grid.push(row);
            proof {
                assert(rows_of(grid@) =~= rows_of(prev).push(row@));
                assert(rows_of(grid@) =~= blank_rows(width as nat, (z + 1) as nat));
            }
            z = z + 1;
        }
        ConsoleMap {
            width,
            depth,
            grid,
            dirty_cells: Vec::new(),
            offset_x: if offset_x < 1 { 1 } else { offset_x },
            offset_z: if offset_z < 1 { 1 } else { offset_z },
        }
    }

    /// Writes `key` into cell `(x, z)`. A write outside the map's area is
    /// ignored; a write that changes the cell marks it for redrawing.
    pub fn input(&mut self, x: usize, z: usize, key: char)
        requires
            x < old(self)@.width && z < old(self)@.depth ==> holds_cell(
                old(self)@.rows,
                x as int,
                z as int,
            ),
        ensures
            final(self)@ == old(self)@.after_input(x, z, key),
    {
        if x < self.width && z < self.depth {
            let ghost rows = old(self)@.rows;
            if self.grid[z][x] != key {
                let ghost before = self.grid@;
                self.grid[z][x] = key;
                proof {
                    assert(rows_of(self.grid@) =~= rows.update(
                        z as int,
                        rows[z as int].update(x as int, key),
                    ));
                }
                self.dirty_cells.push((x, z));
            } else {
                proof {
                    assert(rows[z as int].update(x as int, key) =~= rows[z as int]);
                    assert(rows.update(z as int, rows[z as int]) =~= rows);
                }
            }
        }
        assert(self@ =~= old(self)@.after_input(x, z, key));
    }

    /// Blanks every cell of the map's area, marking for redrawing each cell
    /// that was not blank, row by row.
    pub fn clear(&mut self)
        requires
            covers_area(old(self)@),
        ensures
            final(self)@ == (MapState {
                rows: blanked(old(self)@.rows, old(self)@.width, old(self)@.depth),
                pending: old(self)@.pending + area_changes(
                    old(self)@.rows,
                    old(self)@.width,
                    old(self)@.depth as int,
                ),
                ..old(self)@
            }),
    {
        let ghost start = self@;
        let width = self.width;
        let depth = self.depth;
        let mut z: usize = 0;
        proof {
            assert(blanked_upto(start.rows, width, 0, 0) =~~= start.rows);
            assert(start.pending + area_changes(start.rows, width, 0) =~= start.pending);
        }
        while z < depth
            invariant
                width == start.width,
                depth == start.depth,
                covers_area(start),
                z <= depth,
                self@ == (MapState {
                    rows: blanked_upto(start.rows, width, z as int, 0),
                    pending: start.pending + area_changes(start.rows, width, z as int),
                    ..start
                }),
            decreases depth - z,
        {
            let mut x: usize = 0;
            proof {
                assert(start.pending + area_changes(start.rows, width, z as int) =~= start.pending
                    + area_changes(start.rows, width, z as int) + row_changes(
                    start.rows[z as int],
                    z,
                    0,
                ));
            }
            while x < width
                invariant
                    width == start.width,
                    depth == start.depth,
                    covers_area(start),
                    z < depth,
                    x <= width,
                    self@ == (MapState {
                        rows: blanked_upto(start.rows, width, z as int, x as int),
                        pending: start.pending + area_changes(start.rows, width, z as int)
                            + row_changes(start.rows[z as int], z, x as int),
                        ..start
                    }),
                decreases width - x,
            {
                proof {
                    assert(holds_cell(start.rows, x as int, z as int));
                }
                let ghost cur = self@;
                self.input(x, z, ' ');
                proof {
                    let next = blanked_upto(start.rows, width, z as int, x as int + 1);
                    assert(cur.rows.update(z as int, cur.rows[z as int].update(x as int, ' '))
                        =~~= next);
                    assert(cur.rows[z as int][x as int] == start.rows[z as int][x as int]);
                    let a = start.pending + area_changes(start.rows, width, z as int);
                    let r = row_changes(start.rows[z as int], z, x as int);
                    if start.rows[z as int][x as int] != ' ' {
                        assert((a + r).push((x, z)) =~= a + (r + seq![(x, z)]));
                    } else {
                        assert(a + r =~= a + (r + Seq::<(usize, usize)>::empty()));
                    }
                    assert(self@ =~= MapState {
                        rows: next,
                        pending: a + row_changes(start.rows[z as int], z, x as int + 1),
                        ..start
                    });
                }
                x = x + 1;
            }
            proof {
                assert(blanked_upto(start.rows, width, z as int, width as int) =~~= blanked_upto(
                    start.rows,
                    width,
                    z as int + 1,
                    0,
                ));
                assert(start.pending + area_changes(start.rows, width, z as int) + row_changes(
                    start.rows[z as int],
                    z,
                    width as int,
                ) =~= start.pending + area_changes(start.rows, width, z as int + 1));
            }
            z = z + 1;
        }
    }

    /// Whether every cell marked for redrawing is held by the grid and has a
    /// representable terminal position, so that `flush` can run. Marks only
    /// come from writes inside the area, so this fails only when the public
    /// fields were changed after the writes.
    pub fn pending_drawable(&self) -> (ok: bool)
        ensures
            ok == drawable(self@),
    {
        let mut i: usize = 0;
        while i < self.dirty_cells.len()
            invariant
                i <= self.dirty_cells@.len(),
                forall|j: int|
                    0 <= j < i ==> {
                        &&& holds_cell(self@.rows, (#[trigger] self@.pending[j]).0 as int, self@.pending[j].1 as int)
                        &&& self@.offset_x + self@.pending[j].0 <= usize::MAX
                        &&& self@.offset_z + self@.pending[j].1 <= usize::MAX
                    },
            decreases self.dirty_cells@.len() - i,
        {
            let (x, z) = self.dirty_cells[i];
            assert(self@.pending[i as int] == (x, z));
            if z >= self.grid.len() || x >= self.grid[z].len() {
                assert(!holds_cell(self@.rows, x as int, z as int));
                return false;
            }
            if x > usize::MAX - self.offset_x || z > usize::MAX - self.offset_z {
                return false;
            }
            i = i + 1;
        }
        true
    }

    /// Takes the cells marked for redrawing, latest change first, and turns
    /// each into a draw request for the character it now holds at its
    /// terminal position; afterwards no cell is marked. Printing the
    /// requests in order brings the terminal up to date.
    pub fn flush(&mut self) -> (draws: Vec<CellDraw>)
        requires
            drawable(old(self)@),
        ensures
            final(self)@ == (MapState { pending: Seq::empty(), ..old(self)@ }),
            draws@ == draws_latest_first(
                old(self)@.rows,
                old(self)@.offset_x,
                old(self)@.offset_z,
                old(self)@.pending,
            ),
    {
        let ghost start = self@;
        let mut out: Vec<CellDraw> = Vec::new();
        while self.dirty_cells.len() > 0
            invariant
                drawable(start),
                self@ == (MapState {
                    pending: start.pending.take(self.dirty_cells@.len() as int),
                    ..start
                }),
                self.dirty_cells@.len() <= start.pending.len(),
                out@.len() == start.pending.len() - self.dirty_cells@.len(),
                forall|i: int|
                    0 <= i < out@.len() ==> #[trigger] out@[i] == draw_of(
                        start.rows,
                        start.offset_x,
                        start.offset_z,
                        start.pending[start.pending.len() - 1 - i],
                    ),
            decreases self.dirty_cells@.len(),
        {
            let ghost k = self.dirty_cells@.len();
            let (x, z) = self.dirty_cells.pop().unwrap();
            proof {
                assert(start.pending.take(k as int)[k - 1] == start.pending[k - 1]);
                assert(start.pending[k - 1] == (x, z));
                assert(holds_cell(start.rows, x as int, z as int));
            }
            let ch = cell_at(&self.grid, x, z);
            let draw = CellDraw { row: self.offset_z + z, column: self.offset_x + x, ch };
            out.push(draw);
            proof {
                assert(self.dirty_cells@ =~= start.pending.take(k - 1));
                assert(self@ =~= MapState { pending: start.pending.take(k - 1), ..start });
            }
        }
        proof {
            assert(out@ =~= draws_latest_first(
                start.rows,
                start.offset_x,
                start.offset_z,
                start.pending,
            ));
        }
        out
    }
}

/// Where a status line is printed on the terminal.
pub struct ConsoleText {
    pub offset_x: usize,
    pub offset_z: usize,
}

impl ConsoleText {
    /// Places a status line at column `x` and row `z`.
    pub fn new(x: usize, z: usize) -> (text: Self)
        ensures
            text.offset_x == x,
            text.offset_z == z,
    {
        ConsoleText { offset_x: x, offset_z: z }
    }
}

/// The characters of a ten-cell gauge with its first `filled` cells full.
pub open spec fn gauge_chars(filled: usize) -> Seq<char> {
    seq!['['] + Seq::new(10, |i: int| if i < filled { '█' } else { '░' }) + seq![']']
}

/// Draws a gauge of ten cells between brackets, the first `filled` of them
/// full and the rest empty; `filled` above ten fills every cell.
pub fn gauge_bar(filled: usize) -> (bar: String)
    ensures
        bar@ == gauge_chars(filled),
{
    proof {
        reveal_strlit("[");
    }
    let mut bar = String::from_str("[");
    let mut i: usize = 0;
    while i < 10
        invariant
            i <= 10,
            bar@ == seq!['['] + Seq::new(i as nat, |j: int| if j < filled { '█' } else { '░' }),
        decreases 10 - i,
    {
        proof {
            reveal_strlit("█");
            reveal_strlit("░");
        }
        if i < filled {
            bar.append("█");
        } else {
            bar.append("░");
        }
        proof {
            assert(bar@ =~= seq!['['] + Seq::new(
                (i + 1) as nat,
                |j: int| if j < filled { '█' } else { '░' },
            ));
        }
        i = i + 1;
    }
    proof {
        reveal_strlit("]");
    }
    bar.append("]");
    bar
}

/// Writing the same character into the same cell twice changes nothing the
/// first write did not: the second write neither alters the map nor marks
/// the cell again.
pub proof fn lemma_input_idempotent(st: MapState, x: usize, z: usize, key: char)
    requires
        x < st.width && z < st.depth ==> holds_cell(st.rows, x as int, z as int),
    ensures
        st.after_input(x, z, key).after_input(x, z, key) == st.after_input(x, z, key),
{
    let once = st.after_input(x, z, key);
    if x < st.width && z < st.depth {
        assert(once.rows[z as int][x as int] == key);
        assert(once.rows[z as int].update(x as int, key) =~= once.rows[z as int]);
        assert(once.rows.update(z as int, once.rows[z as int]) =~= once.rows);
    }
    assert(once.after_input(x, z, key) =~= once);
}

/// A write that changes a cell of a map with nothing pending is exactly
/// what the next flush draws: one request, at the cell's terminal position,
/// with the written character. A write that changes nothing leaves nothing
/// to draw.
pub proof fn lemma_flush_draws_written_cell(st: MapState, x: usize, z: usize, key: char)
    requires
        st.pending.len() == 0,
        x < st.width,
        z < st.depth,
        holds_cell(st.rows, x as int, z as int),
    ensures
        st.rows[z as int][x as int] != key ==> draws_latest_first(
            st.after_input(x, z, key).rows,
            st.offset_x,
            st.offset_z,
            st.after_input(x, z, key).pending,
        ) == seq![
            CellDraw {
                row: (st.offset_z + z) as usize,
                column: (st.offset_x + x) as usize,
                ch: key,
            },
        ],
        st.rows[z as int][x as int] == key ==> st.after_input(x, z, key).pending.len() == 0,
{
    let after = st.after_input(x, z, key);
    if st.rows[z as int][x as int] != key {
        assert(after.pending =~= seq![(x, z)]);
        assert(draws_latest_first(after.rows, st.offset_x, st.offset_z, after.pending) =~= seq![
            CellDraw {
                row: (st.offset_z + z) as usize,
                column: (st.offset_x + x) as usize,
                ch: key,
            },
        ]);
    }
}

/// A new map's rows are blank: `depth` rows of `width` cells, every one of
/// them a space.
pub proof fn lemma_new_map_is_blank(width: nat, depth: nat)
    ensures
        blank_rows(width, depth).len() == depth,
        forall|z: int| 0 <= z < depth ==> (#[trigger] blank_rows(width, depth)[z]).len() == width,
        forall|z: int, x: int|
            0 <= z < depth && 0 <= x < width ==> #[trigger] blank_rows(width, depth)[z][x] == ' ',
{
}

/// The gauge is twelve characters: an opening bracket, ten cells and a
/// closing bracket; cell `i` is full exactly when `i < filled`, and empty
/// otherwise.
pub proof fn lemma_gauge_cells(filled: usize)
    ensures
        gauge_chars(filled).len() == 12,
        gauge_chars(filled)[0] == '[',
        gauge_chars(filled)[11] == ']',
        forall|i: int|
            0 <= i < 10 ==> (#[trigger] gauge_chars(filled)[i + 1] == '█' <==> i < filled),
        forall|i: int|
            0 <= i < 10 ==> (#[trigger] gauge_chars(filled)[i + 1] == '░' <==> i >= filled),
{
    let g = gauge_chars(filled);
    let cells = Seq::new(10, |i: int| if i < filled { '█' } else { '░' });
    assert(g == seq!['['] + cells + seq![']']);
    assert forall|i: int| 0 <= i < 10 implies (#[trigger] g[i + 1] == '█' <==> i < filled) by {
        assert(g[i + 1] == cells[i]);
    }
    assert forall|i: int| 0 <= i < 10 implies (#[trigger] g[i + 1] == '░' <==> i >= filled) by {
        assert(g[i + 1] == cells[i]);
    }
}

/// A write inside the area puts the written character into exactly that
/// cell and leaves every other cell, and the shape of the rows, as it was;
/// it marks the cell, as the last one, exactly when the cell held another
/// character. A write outside the area changes nothing.
pub proof fn lemma_input_writes_one_cell(st: MapState, x: usize, z: usize, key: char)
    requires
        x < st.width && z < st.depth ==> holds_cell(st.rows, x as int, z as int),
    ensures
        ({
            let after = st.after_input(x, z, key);
            &&& after.width == st.width && after.depth == st.depth
            &&& after.offset_x == st.offset_x && after.offset_z == st.offset_z
            &&& after.rows.len() == st.rows.len()
            &&& forall|r: int| 0 <= r < st.rows.len() ==> (#[trigger] after.rows[r]).len() == st.rows[r].len()
            &&& forall|r: int, c: int|
                #![trigger after.rows[r][c]]
                0 <= r < st.rows.len() && 0 <= c < st.rows[r].len() ==> after.rows[r][c] == if x
                    < st.width && z < st.depth && r == z && c == x {
                    key
                } else {
                    st.rows[r][c]
                }
            &&& if x < st.width && z < st.depth && st.rows[z as int][x as int] != key {
                after.pending.len() == st.pending.len() + 1 && after.pending.last() == (x, z)
                    && after.pending.take(st.pending.len() as int) == st.pending
            } else {
                after.pending == st.pending
            }
        }),
{
    let after = st.after_input(x, z, key);
    if x < st.width && z < st.depth && st.rows[z as int][x as int] != key {
        assert(after.pending.take(st.pending.len() as int) =~= st.pending);
    }
}

/// Clearing blanks every cell of the area and leaves every other cell, and
/// the shape of the rows, as it was; the cells it marks are exactly the
/// cells of the area that were not blank, each once.
pub proof fn lemma_clear_blanks_area(rows: Seq<Seq<char>>, width: usize, depth: usize)
    requires
        forall|x: int, z: int|
            0 <= x < width && 0 <= z < depth ==> #[trigger] holds_cell(rows, x, z),
    ensures
        blanked(rows, width, depth).len() == rows.len(),
        forall|r: int| 0 <= r < rows.len() ==> (#[trigger] blanked(rows, width, depth)[r]).len() == rows[r].len(),
        forall|r: int, c: int|
            #![trigger blanked(rows, width, depth)[r][c]]
            0 <= r < rows.len() && 0 <= c < rows[r].len() ==> blanked(rows, width, depth)[r][c]
                == if r < depth && c < width {
                ' '
            } else {
                rows[r][c]
            },
        forall|x: usize, z: usize|
            #![trigger area_changes(rows, width, depth as int).contains((x, z))]
            area_changes(rows, width, depth as int).contains((x, z)) <==> (x < width && z < depth
                && rows[z as int][x as int] != ' '),
        area_changes(rows, width, depth as int).no_duplicates(),
{
    if width > 0 && depth > 0 {
        assert(holds_cell(rows, 0, depth - 1));
    }
    lemma_area_changes(rows, width, depth as int);
}

proof fn lemma_row_changes(row: Seq<char>, z: usize, n: int)
    requires
        0 <= n <= row.len(),
        n <= usize::MAX + 1,
    ensures
        forall|x: usize, zz: usize|
            #![trigger row_changes(row, z, n).contains((x, zz))]
            row_changes(row, z, n).contains((x, zz)) <==> (zz == z && x < n && row[x as int] != ' '),
        row_changes(row, z, n).no_duplicates(),
    decreases n,
{
    if n > 0 {
        lemma_row_changes(row, z, n - 1);
        let p = row_changes(row, z, n - 1);
        let q = row_changes(row, z, n);
        if row[n - 1] != ' ' {
            assert(q == p.push(((n - 1) as usize, z)));
            assert(!p.contains(((n - 1) as usize, z)));
            assert forall|x: usize, zz: usize| #[trigger] q.contains((x, zz)) <==> (zz == z && x < n
                && row[x as int] != ' ') by {
                if q.contains((x, zz)) {
                    let k = choose|k: int| 0 <= k < q.len() && q[k] == (x, zz);
                    if k < p.len() {
                        assert(p[k] == (x, zz));
                        assert(p.contains((x, zz)));
                    }
                }
                if zz == z && x < n && row[x as int] != ' ' {
                    if x < n - 1 {
                        assert(p.contains((x, zz)));
                        let k = choose|k: int| 0 <= k < p.len() && p[k] == (x, zz);
                        assert(q[k] == (x, zz));
                    } else {
                        assert(q[p.len() as int] == (x, zz));
                    }
                }
            }
            assert forall|i: int, j: int| 0 <= i < q.len() && 0 <= j < q.len() && i != j implies q[i]
                != q[j] by {
                if i < p.len() && j < p.len() {
                } else if i < p.len() {
                    assert(p.contains(q[i]));
                } else if j < p.len() {
                    assert(p.contains(q[j]));
                }
            }
        } else {
            assert(q == p);
        }
    }
}

proof fn lemma_area_changes(rows: Seq<Seq<char>>, width: usize, d: int)
    requires
        0 <= d,
        width > 0 ==> d <= rows.len(),
        d <= usize::MAX + 1,
        forall|x: int, z: int| 0 <= x < width && 0 <= z < d ==> #[trigger] holds_cell(rows, x, z),
    ensures
        forall|x: usize, z: usize|
            #![trigger area_changes(rows, width, d).contains((x, z))]
            area_changes(rows, width, d).contains((x, z)) <==> (x < width && z < d && rows[z as int][x as int]
                != ' '),
        area_changes(rows, width, d).no_duplicates(),
    decreases d,
{
    if d > 0 {
        lemma_area_changes(rows, width, d - 1);
        let z0 = (d - 1) as usize;
        if width > 0 {
            assert(holds_cell(rows, width - 1, d - 1));
        }
        lemma_row_changes(rows[d - 1], z0, width as int);
        let p = area_changes(rows, width, d - 1);
        let r = row_changes(rows[d - 1], z0, width as int);
        let q = area_changes(rows, width, d);
        assert(q == p + r);
        assert forall|x: usize, z: usize| #[trigger] q.contains((x, z)) <==> (x < width && z < d
            && rows[z as int][x as int] != ' ') by {
            if q.contains((x, z)) {
                let k = choose|k: int| 0 <= k < q.len() && q[k] == (x, z);
                if k < p.len() {
                    assert(p[k] == (x, z));
                    assert(p.contains((x, z)));
                } else {
                    assert(r[k - p.len()] == (x, z));
                    assert(r.contains((x, z)));
                }
            }
            if x < width && z < d && rows[z as int][x as int] != ' ' {
                if z < d - 1 {
                    assert(p.contains((x, z)));
                    let k = choose|k: int| 0 <= k < p.len() && p[k] == (x, z);
                    assert(q[k] == (x, z));
                } else {
                    assert(r.contains((x, z)));
                    let k = choose|k: int| 0 <= k < r.len() && r[k] == (x, z);
                    assert(q[p.len() + k] == (x, z));
                }
            }
        }
        assert forall|i: int, j: int| 0 <= i < q.len() && 0 <= j < q.len() && i != j implies q[i]
            != q[j] by {
            if i < p.len() && j < p.len() {
            } else if i >= p.len() && j >= p.len() {
                assert(q[i] == r[i - p.len()] && q[j] == r[j - p.len()]);
            } else {
                let (a, b) = if i < p.len() { (i, j) } else { (j, i) };
                let (x1, z1) = q[a];
                let (x2, z2) = q[b];
                assert(p[a] == q[a]);
                assert(p.contains((x1, z1)));
                assert(r[b - p.len()] == q[b]);
                assert(r.contains((x2, z2)));
                assert(z1 < d - 1);
                assert(z2 == z0);
            }
        }
    }
}

/// Flushing draws the most recent change first: with one more cell marked,
/// the flush draws that cell first, at row `offset_z + z` and column
/// `offset_x + x` with the character it holds, and then what it would have
/// drawn without it.
pub proof fn lemma_flush_latest_first(
    rows: Seq<Seq<char>>,
    offset_x: usize,
    offset_z: usize,
    pending: Seq<(usize, usize)>,
    x: usize,
    z: usize,
)
    requires
        offset_x + x <= usize::MAX,
        offset_z + z <= usize::MAX,
    ensures
        draws_latest_first(rows, offset_x, offset_z, pending.push((x, z))) == seq![
            CellDraw { row: (offset_z + z) as usize, column: (offset_x + x) as usize, ch: rows[z as int][x as int] },
        ] + draws_latest_first(rows, offset_x, offset_z, pending),
        draws_latest_first(rows, offset_x, offset_z, Seq::empty()).len() == 0,
{
    let c = draw_of(rows, offset_x, offset_z, (x, z));
    let longer = draws_latest_first(rows, offset_x, offset_z, pending.push((x, z)));
    let shorter = draws_latest_first(rows, offset_x, offset_z, pending);
    let expected = seq![c] + shorter;
    assert(longer.len() == expected.len());
    assert forall|i: int| 0 <= i < longer.len() implies longer[i] == expected[i] by {
        if i == 0 {
            assert(pending.push((x, z))[pending.len() as int] == (x, z));
            assert(expected[0] == c);
        } else {
            assert(expected[i] == shorter[i - 1]);
            assert(pending.push((x, z))[pending.len() - i] == pending[pending.len() - 1 - (i - 1)]);
        }
    }
    assert(longer =~= expected);
}

} // verus!
