use vstd::prelude::*;
use rand::Rng;
use crate::cell::{Cell, CellContent, CellState};

verus! {

/// Number of cells of `row` that satisfy `p`.
pub open spec fn cells_matching(row: Seq<Cell>, p: spec_fn(Cell) -> bool) -> nat
    decreases row.len(),
{
    if row.len() == 0 {
        0
    } else {
        cells_matching(row.drop_last(), p) + (if p(row.last()) { 1nat } else { 0nat })
    }
}

/// Number of cells of the grid `rows` that satisfy `p`.
pub open spec fn rows_matching(rows: Seq<Seq<Cell>>, p: spec_fn(Cell) -> bool) -> nat
    decreases rows.len(),
{
    if rows.len() == 0 {
        0
    } else {
        rows_matching(rows.drop_last(), p) + cells_matching(rows.last(), p)
    }
}

pub open spec fn is_mine_cell() -> spec_fn(Cell) -> bool {
    |c: Cell| c.content is Mine
}

pub open spec fn is_hidden_cell() -> spec_fn(Cell) -> bool {
    |c: Cell| c.state is Hidden
}

/// The content a non-mine cell shows when `n` of its neighbours are mines.
pub open spec fn content_for(n: nat) -> CellContent {
    if n == 0 {
        CellContent::Empty
    } else {
        CellContent::Number(n as u8)
    }
}

/// `(k, l)` is one of the eight neighbours of `(i, j)`.
pub open spec fn adjacent(i: int, j: int, k: int, l: int) -> bool {
    (i != k || j != l) && i - 1 <= k <= i + 1 && j - 1 <= l <= j + 1
}

/// The state a flag toggle gives: hidden and flagged swap, a revealed cell stays revealed.
pub open spec fn toggled(s: CellState) -> CellState {
    match s {
        CellState::Hidden => CellState::Flagged,
        CellState::Flagged => CellState::Hidden,
        CellState::Revealed => CellState::Revealed,
    }
}

/// A `w` by `h` grid of hidden, empty cells, as rows.
pub open spec fn blank_grid(w: nat, h: nat) -> Seq<Seq<Cell>> {
    Seq::new(h, |_y: int| Seq::new(w, |_x: int| Cell::blank()))
}

pub proof fn lemma_cells_matching_update(row: Seq<Cell>, i: int, c: Cell, p: spec_fn(Cell) -> bool)
    requires
        0 <= i < row.len(),
    ensures
        cells_matching(row.update(i, c), p) as int == cells_matching(row, p) as int
            - (if p(row[i]) { 1int } else { 0int }) + (if p(c) { 1int } else { 0int }),
    decreases row.len(),
{
    let r2 = row.update(i, c);
    if i == row.len() - 1 {
        assert(r2.drop_last() =~= row.drop_last());
    } else {
        lemma_cells_matching_update(row.drop_last(), i, c, p);
        assert(r2.drop_last() =~= row.drop_last().update(i, c));
    }
}

pub proof fn lemma_rows_matching_update(
    rows: Seq<Seq<Cell>>,
    y: int,
    r: Seq<Cell>,
    p: spec_fn(Cell) -> bool,
)
    requires
        0 <= y < rows.len(),
    ensures
        rows_matching(rows.update(y, r), p) as int == rows_matching(rows, p) as int
            - cells_matching(rows[y], p) as int + cells_matching(r, p) as int,
    decreases rows.len(),
{
    let g2 = rows.update(y, r);
    if y == rows.len() - 1 {
        assert(g2.drop_last() =~= rows.drop_last());
    } else {
        lemma_rows_matching_update(rows.drop_last(), y, r, p);
        assert(g2.drop_last() =~= rows.drop_last().update(y, r));
    }
}

/// Changing one cell of a grid changes the count of any kind of cell by at most that cell.
pub proof fn lemma_grid_update_count(
    rows: Seq<Seq<Cell>>,
    x: int,
    y: int,
    c: Cell,
    p: spec_fn(Cell) -> bool,
)
    requires
        0 <= y < rows.len(),
        0 <= x < rows[y].len(),
    ensures
        rows_matching(rows.update(y, rows[y].update(x, c)), p) as int == rows_matching(rows, p) as int
            - (if p(rows[y][x]) { 1int } else { 0int }) + (if p(c) { 1int } else { 0int }),
{
    lemma_cells_matching_update(rows[y], x, c, p);
    lemma_rows_matching_update(rows, y, rows[y].update(x, c), p);
}

/// Once every safe cell is revealed, revealing more keeps it so.
proof fn lemma_all_safe_stays(b1: GameBoard, b2: GameBoard)
    requires
        b2.width == b1.width,
        b2.height == b1.height,
        b2.contents_same(&b1),
        b2.states_advanced(&b1),
        b1.all_safe_revealed(),
    ensures
        b2.all_safe_revealed(),
{
    assert forall|i: int, j: int|
        b2.in_bounds(i, j) && (#[trigger] b2.cell(i, j)).state is Hidden implies b2.is_mine(i, j) by {
        assert(b1.cell(i, j).state is Hidden);
        assert(b1.is_mine(i, j));
    }
}

/// A neighbour of an empty cell on a board whose numbers are right is no mine.
proof fn lemma_empty_has_no_mine_neighbour(b: GameBoard, x: int, y: int, k: int, l: int)
    requires
        b.numbers_consistent(),
        b.in_bounds(x, y),
        b.cell(x, y).content is Empty,
        adjacent(x, y, k, l),
    ensures
        !b.is_mine(k, l),
{
    assert(!b.is_mine(x, y));
    assert(b.number_right(x, y));
    assert(b.adjacent_mines(x, y) == 0);
}

/// The numbers depend on where the mines are alone, so keeping every content keeps them right.
proof fn lemma_numbers_kept(b1: GameBoard, b2: GameBoard)
    requires
        b2.width == b1.width,
        b2.height == b1.height,
        b2.contents_same(&b1),
        b1.numbers_consistent(),
    ensures
        b2.numbers_consistent(),
{
    assert forall|x: int, y: int| b2.in_bounds(x, y) && !b2.is_mine(x, y) implies #[trigger] b2.number_right(
        x,
        y,
    ) by {
        assert(b2.cell(x, y).content == b1.cell(x, y).content);
        assert(b1.number_right(x, y));
        assert(b2.adjacent_mines(x, y) == b1.adjacent_mines(x, y)) by {
            assert(b2.cell(x - 1, y - 1).content == b1.cell(x - 1, y - 1).content || !b2.in_bounds(x - 1, y - 1));
            assert(b2.cell(x, y - 1).content == b1.cell(x, y - 1).content || !b2.in_bounds(x, y - 1));
            assert(b2.cell(x + 1, y - 1).content == b1.cell(x + 1, y - 1).content || !b2.in_bounds(x + 1, y - 1));
            assert(b2.cell(x - 1, y).content == b1.cell(x - 1, y).content || !b2.in_bounds(x - 1, y));
            assert(b2.cell(x + 1, y).content == b1.cell(x + 1, y).content || !b2.in_bounds(x + 1, y));
            assert(b2.cell(x - 1, y + 1).content == b1.cell(x - 1, y + 1).content || !b2.in_bounds(x - 1, y + 1));
            assert(b2.cell(x, y + 1).content == b1.cell(x, y + 1).content || !b2.in_bounds(x, y + 1));
            assert(b2.cell(x + 1, y + 1).content == b1.cell(x + 1, y + 1).content || !b2.in_bounds(x + 1, y + 1));
        }
    }
}

/// A reveal started at a hidden neighbour `(nx, ny)` of the empty revealed cell `(x, y)`
/// extends the cascade from `(x, y)`.
proof fn lemma_cascade_extend(
    b0: GameBoard,
    b1: GameBoard,
    b2: GameBoard,
    x: int,
    y: int,
    nx: int,
    ny: int,
)
    requires
        b1.width == b0.width,
        b1.height == b0.height,
        b2.width == b0.width,
        b2.height == b0.height,
        b0.in_bounds(x, y),
        b0.cell(x, y).state is Revealed,
        b0.cell(x, y).content is Empty,
        adjacent(x, y, nx, ny),
        b0.in_bounds(nx, ny),
        b1.contents_same(&b0),
        b1.states_advanced(&b0),
        b1.cascade_from(&b0, x, y),
        b2.contents_same(&b1),
        b2.states_advanced(&b1),
        b1.cell(nx, ny).state is Hidden,
        b2.cell(nx, ny).state is Revealed,
        b2.cascade_from(&b1, nx, ny),
    ensures
        b2.contents_same(&b0),
        b2.states_advanced(&b0),
        b2.cascade_from(&b0, x, y),
{
    assert(b2.contents_same(&b0)) by {
        assert forall|i: int, j: int| b2.in_bounds(i, j) implies #[trigger] b2.cell(i, j).content
            == b0.cell(i, j).content by {
            assert(b1.cell(i, j).content == b0.cell(i, j).content);
        }
    }
    assert(b2.states_advanced(&b0)) by {
        assert forall|i: int, j: int| b2.in_bounds(i, j) implies {
            let s0 = b0.cell(i, j).state;
            let s2 = (#[trigger] b2.cell(i, j)).state;
            s2 == s0 || (s0 is Hidden && s2 is Revealed)
        } by {
            assert(b1.cell(i, j).state == b1.cell(i, j).state);
        }
    }
    assert forall|i: int, j: int| #[trigger] b2.newly_revealed(&b0, i, j) implies !b2.is_mine(i, j) by {
        if b1.newly_revealed(&b0, i, j) {
            assert(!b1.is_mine(i, j));
            assert(b2.cell(i, j).content == b1.cell(i, j).content);
        } else {
            assert(b2.newly_revealed(&b1, i, j));
        }
    }
    assert forall|i: int, j: int, k: int, l: int|
        #[trigger] b2.newly_revealed(&b0, i, j) && b2.cell(i, j).content is Empty && #[trigger] adjacent(
            i,
            j,
            k,
            l,
        ) && b2.in_bounds(k, l) implies !(b2.cell(k, l).state is Hidden) by {
        assert(b2.cell(k, l).state == b2.cell(k, l).state);
        if b1.newly_revealed(&b0, i, j) {
            assert(b1.cell(i, j).content == b2.cell(i, j).content);
            assert(!(b1.cell(k, l).state is Hidden));
            assert(b1.cell(k, l).state == b1.cell(k, l).state);
        } else {
            assert(b2.newly_revealed(&b1, i, j));
        }
    }
    let r1 = choose|r: spec_fn(int, int) -> nat| #[trigger] b1.linked_by(&b0, x, y, r);
    let r2 = choose|r: spec_fn(int, int) -> nat| #[trigger] b2.linked_by(&b1, nx, ny, r);
    let rank = |i: int, j: int|
        if b1.newly_revealed(&b0, i, j) {
            r1(i, j)
        } else if i == nx && j == ny {
            0nat
        } else {
            r2(i, j) + 1
        };
    assert forall|i: int, j: int| #[trigger] b2.newly_revealed(&b0, i, j) && (i != x || j != y) implies exists|
        k: int,
        l: int,
    | #[trigger] b2.links_back(&b0, x, y, rank, i, j, k, l) by {
        if b1.newly_revealed(&b0, i, j) {
            let (k, l) = choose|k: int, l: int| #[trigger] b1.links_back(&b0, x, y, r1, i, j, k, l);
            assert(b1.in_bounds(k, l));
            assert(b2.cell(k, l).content == b1.cell(k, l).content);
            assert(b2.cell(k, l).state == b2.cell(k, l).state);
            assert(b2.links_back(&b0, x, y, rank, i, j, k, l));
        } else {
            assert(b2.newly_revealed(&b1, i, j));
            assert(b1.cell(i, j).state == b1.cell(i, j).state);
            assert(b0.cell(i, j).state is Hidden);
            if i == nx && j == ny {
                assert(adjacent(i, j, x, y));
                assert(b2.cell(x, y).content == b0.cell(x, y).content);
                assert(b2.links_back(&b0, x, y, rank, i, j, x, y));
            } else {
                let (k, l) = choose|k: int, l: int| #[trigger] b2.links_back(&b1, nx, ny, r2, i, j, k, l);
                assert(b2.cell(k, l).state == b2.cell(k, l).state);
                assert(b1.cell(k, l).state == b1.cell(k, l).state);
                assert(b0.cell(k, l).state == b0.cell(k, l).state);
                if k == nx && l == ny {
                    assert(b2.newly_revealed(&b1, nx, ny));
                }
                assert(b2.newly_revealed(&b0, k, l));
                assert(!b1.newly_revealed(&b0, k, l));
                assert(b2.links_back(&b0, x, y, rank, i, j, k, l));
            }
        }
    }
    assert(b2.linked_by(&b0, x, y, rank));
}

proof fn lemma_cells_matching_same(r1: Seq<Cell>, r2: Seq<Cell>, p: spec_fn(Cell) -> bool)
    requires
        r1.len() == r2.len(),
        forall|i: int| 0 <= i < r1.len() ==> p(#[trigger] r1[i]) == p(r2[i]),
    ensures
        cells_matching(r1, p) == cells_matching(r2, p),
    decreases r1.len(),
{
    if r1.len() > 0 {
        lemma_cells_matching_same(r1.drop_last(), r2.drop_last(), p);
    }
}

proof fn lemma_rows_matching_same(g1: Seq<Seq<Cell>>, g2: Seq<Seq<Cell>>, p: spec_fn(Cell) -> bool)
    requires
        g1.len() == g2.len(),
        forall|y: int| 0 <= y < g1.len() ==> (#[trigger] g1[y]).len() == g2[y].len(),
        forall|y: int, x: int|
            0 <= y < g1.len() && 0 <= x < g1[y].len() ==> p(#[trigger] g1[y][x]) == p(g2[y][x]),
    ensures
        rows_matching(g1, p) == rows_matching(g2, p),
    decreases g1.len(),
{
    if g1.len() > 0 {
        let l = g1.len() - 1;
        assert forall|i: int| 0 <= i < g1[l].len() implies p(#[trigger] g1[l][i]) == p(g2[l][i]) by {}
        lemma_cells_matching_same(g1[l], g2[l], p);
        lemma_rows_matching_same(g1.drop_last(), g2.drop_last(), p);
    }
}

/// Boards with the same contents hold the same number of mines.
proof fn lemma_mine_total_same(a: GameBoard, b: GameBoard)
    requires
        a.shape_ok(),
        b.shape_ok(),
        b.width == a.width,
        b.height == a.height,
        b.contents_same(&a),
    ensures
        b.mine_total() == a.mine_total(),
{
    assert forall|y: int, x: int|
        0 <= y < a.grid().len() && 0 <= x < a.grid()[y].len() implies is_mine_cell()(
        #[trigger] a.grid()[y][x],
    ) == is_mine_cell()(b.grid()[y][x]) by {
        a.lemma_grid_cell(x, y);
        b.lemma_grid_cell(x, y);
        assert(b.cell(x, y).content == a.cell(x, y).content);
    }
    assert forall|y: int| 0 <= y < a.grid().len() implies (#[trigger] a.grid()[y]).len()
        == b.grid()[y].len() by {
        assert(a.board@[y]@.len() == a.width);
        assert(b.board@[y]@.len() == b.width);
    }
    lemma_rows_matching_same(a.grid(), b.grid(), is_mine_cell());
}

/// Contents kept twice are kept.
proof fn lemma_contents_chain(a: GameBoard, b: GameBoard, c: GameBoard)
    requires
        b.width == a.width,
        b.height == a.height,
        c.width == a.width,
        c.height == a.height,
        b.contents_same(&a),
        c.contents_same(&b),
    ensures
        c.contents_same(&a),
{
    assert forall|i: int, j: int| c.in_bounds(i, j) implies #[trigger] c.cell(i, j).content
        == a.cell(i, j).content by {
        assert(b.cell(i, j).content == a.cell(i, j).content);
    }
}

/// The facts about mine placement that an accepted reveal reports, carried from the board
/// right after placement (`placed`) to the final one.
proof fn lemma_reveal_bookkeeping(before: GameBoard, placed: GameBoard, fin: GameBoard, x: int, y: int)
    requires
        before.shape_ok(),
        placed.shape_ok(),
        fin.shape_ok(),
        placed.width == before.width,
        placed.height == before.height,
        placed.mine_count == before.mine_count,
        fin.width == before.width,
        fin.height == before.height,
        fin.contents_same(&placed),
        before.first_click ==> placed.placed_mines_from(&before, x, y),
        !before.first_click ==> placed.contents_same(&before),
    ensures
        before.first_click ==> fin.placed_mines_from(&before, x, y),
        !before.first_click ==> fin.contents_same(&before),
{
    lemma_mine_total_same(placed, fin);
    if before.first_click {
        assert forall|i: int, j: int| #[trigger] before.is_mine(i, j) implies fin.is_mine(i, j) by {
            assert(placed.is_mine(i, j));
            assert(fin.cell(i, j).content == placed.cell(i, j).content);
        }
        assert(fin.cell(x, y).content == placed.cell(x, y).content || !fin.in_bounds(x, y));
    } else {
        lemma_contents_chain(before, placed, fin);
    }
}

/// Revealing the hidden cell `(x, y)` and nothing else.
proof fn lemma_reveal_target(before: GameBoard, mid: GameBoard, x: int, y: int)
    requires
        mid.width == before.width,
        mid.height == before.height,
        before.in_bounds(x, y),
        before.cell(x, y).state is Hidden,
        mid.cell(x, y).state is Revealed,
        forall|i: int, j: int|
            mid.in_bounds(i, j) && (i != x || j != y) ==> #[trigger] mid.cell(i, j).state == before.cell(
                i,
                j,
            ).state,
    ensures
        mid.states_advanced(&before),
        forall|i: int, j: int| #[trigger] mid.newly_revealed(&before, i, j) ==> i == x && j == y,
{
    assert forall|i: int, j: int| mid.in_bounds(i, j) implies {
        let s0 = before.cell(i, j).state;
        let s1 = (#[trigger] mid.cell(i, j)).state;
        s1 == s0 || (s0 is Hidden && s1 is Revealed)
    } by {}
}

/// A reveal that stops at a numbered cell is a cascade of that cell alone.
proof fn lemma_single_reveal(before: GameBoard, mid: GameBoard, x: int, y: int)
    requires
        mid.width == before.width,
        mid.height == before.height,
        mid.in_bounds(x, y),
        mid.cell(x, y).content is Number,
        forall|i: int, j: int| #[trigger] mid.newly_revealed(&before, i, j) ==> i == x && j == y,
    ensures
        mid.cascade_from(&before, x, y),
{
    assert forall|i: int, j: int| #[trigger] mid.newly_revealed(&before, i, j) implies !mid.is_mine(i, j) by {}
    assert(mid.linked_by(&before, x, y, |i: int, j: int| 0nat));
}

/// The reveal of the empty cell `(x, y)` (taking `before` to `mid`) followed by the reveal of
/// its neighbours (taking `mid` to `fin`) is one cascade from `(x, y)`.
proof fn lemma_cascade_through(before: GameBoard, mid: GameBoard, fin: GameBoard, x: int, y: int)
    requires
        mid.width == before.width,
        mid.height == before.height,
        fin.width == before.width,
        fin.height == before.height,
        mid.in_bounds(x, y),
        mid.cell(x, y).state is Revealed,
        mid.cell(x, y).content is Empty,
        mid.states_advanced(&before),
        forall|i: int, j: int| #[trigger] mid.newly_revealed(&before, i, j) ==> i == x && j == y,
        fin.contents_same(&mid),
        fin.states_advanced(&mid),
        fin.cascade_from(&mid, x, y),
        forall|k: int, l: int|
            #[trigger] adjacent(x, y, k, l) && fin.in_bounds(k, l) ==> !(fin.cell(k, l).state is Hidden),
    ensures
        fin.states_advanced(&before),
        fin.cascade_from(&before, x, y),
{
    assert(fin.cell(x, y).state == mid.cell(x, y).state);
    assert(fin.cell(x, y).content == mid.cell(x, y).content);
    assert forall|i: int, j: int| #[trigger] fin.newly_revealed(&before, i, j) implies !fin.is_mine(i, j) by {
        if i != x || j != y {
            assert(mid.cell(i, j).state == mid.cell(i, j).state);
            assert(!mid.newly_revealed(&before, i, j));
            assert(fin.newly_revealed(&mid, i, j));
        }
    }
    assert forall|i: int, j: int, k: int, l: int|
        #[trigger] fin.newly_revealed(&before, i, j) && fin.cell(i, j).content is Empty && #[trigger] adjacent(
            i,
            j,
            k,
            l,
        ) && fin.in_bounds(k, l) implies !(fin.cell(k, l).state is Hidden) by {
        if i != x || j != y {
            assert(mid.cell(i, j).state == mid.cell(i, j).state);
            assert(!mid.newly_revealed(&before, i, j));
            assert(fin.newly_revealed(&mid, i, j));
        }
    }
    let rank = choose|r: spec_fn(int, int) -> nat| #[trigger] fin.linked_by(&mid, x, y, r);
    assert forall|i: int, j: int| #[trigger] fin.newly_revealed(&before, i, j) && (i != x || j != y) implies exists|
        k: int,
        l: int,
    | #[trigger] fin.links_back(&before, x, y, rank, i, j, k, l) by {
        assert(mid.cell(i, j).state == mid.cell(i, j).state);
        assert(!mid.newly_revealed(&before, i, j));
        assert(fin.newly_revealed(&mid, i, j));
        let (k, l) = choose|k: int, l: int| #[trigger] fin.links_back(&mid, x, y, rank, i, j, k, l);
        assert(fin.cell(k, l).state == fin.cell(k, l).state);
        assert(mid.cell(k, l).state == mid.cell(k, l).state);
        assert(fin.links_back(&before, x, y, rank, i, j, k, l));
    }
    assert(fin.linked_by(&before, x, y, rank));
    assert forall|i: int, j: int| fin.in_bounds(i, j) implies {
        let s0 = before.cell(i, j).state;
        let s2 = (#[trigger] fin.cell(i, j)).state;
        s2 == s0 || (s0 is Hidden && s2 is Revealed)
    } by {
        assert(mid.cell(i, j).state == mid.cell(i, j).state);
    }
}

/// Boards that differ in their flags alone agree on everything said of their cells.
proof fn lemma_same_cells(a: GameBoard, b: GameBoard, before: GameBoard, x: int, y: int)
    requires
        b.board == a.board,
        b.width == a.width,
        b.height == a.height,
    ensures
        b.contents_same(&a),
        a.states_advanced(&before) ==> b.states_advanced(&before),
        a.cascade_from(&before, x, y) ==> b.cascade_from(&before, x, y),
        a.all_safe_revealed() == b.all_safe_revealed(),
        b.hidden_total() == a.hidden_total(),
        b.mine_total() == a.mine_total(),
        b.cell(x, y) == a.cell(x, y),
        b.is_mine(x, y) == a.is_mine(x, y),
{
    assert forall|i: int, j: int| #![trigger b.cell(i, j)] #![trigger a.cell(i, j)] true implies b.cell(i, j) == a.cell(i, j) by {}
    if a.states_advanced(&before) {
        assert forall|i: int, j: int| b.in_bounds(i, j) implies {
            let s0 = before.cell(i, j).state;
            let s1 = (#[trigger] b.cell(i, j)).state;
            s1 == s0 || (s0 is Hidden && s1 is Revealed)
        } by {
            assert(a.cell(i, j) == b.cell(i, j));
        }
    }
    if a.cascade_from(&before, x, y) {
        assert forall|i: int, j: int| #[trigger] b.newly_revealed(&before, i, j) implies !b.is_mine(i, j) by {
            assert(a.newly_revealed(&before, i, j));
        }
        assert forall|i: int, j: int, k: int, l: int|
            #[trigger] b.newly_revealed(&before, i, j) && b.cell(i, j).content is Empty && #[trigger] adjacent(
                i,
                j,
                k,
                l,
            ) && b.in_bounds(k, l) implies !(b.cell(k, l).state is Hidden) by {
            assert(a.newly_revealed(&before, i, j));
            assert(a.cell(k, l) == b.cell(k, l));
        }
        let rank = choose|r: spec_fn(int, int) -> nat| #[trigger] a.linked_by(&before, x, y, r);
        assert forall|i: int, j: int| #[trigger] b.newly_revealed(&before, i, j) && (i != x || j != y) implies exists|
            k: int,
            l: int,
        | #[trigger] b.links_back(&before, x, y, rank, i, j, k, l) by {
            assert(a.newly_revealed(&before, i, j));
            let (k, l) = choose|k: int, l: int| #[trigger] a.links_back(&before, x, y, rank, i, j, k, l);
            assert(a.cell(k, l) == b.cell(k, l));
            assert(b.links_back(&before, x, y, rank, i, j, k, l));
        }
        assert(b.linked_by(&before, x, y, rank));
    }
    assert(a.all_safe_revealed() ==> b.all_safe_revealed()) by {
        if a.all_safe_revealed() {
            assert forall|i: int, j: int|
                b.in_bounds(i, j) && (#[trigger] b.cell(i, j)).state is Hidden implies b.is_mine(i, j) by {
                assert(a.cell(i, j) == b.cell(i, j));
            }
        }
    }
    assert(b.all_safe_revealed() ==> a.all_safe_revealed()) by {
        if b.all_safe_revealed() {
            assert forall|i: int, j: int|
                a.in_bounds(i, j) && (#[trigger] a.cell(i, j)).state is Hidden implies a.is_mine(i, j) by {
                assert(a.cell(i, j) == b.cell(i, j));
            }
        }
    }
    assert(b.grid() == a.grid());
}

proof fn lemma_blank_row_has_no_mine(w: nat)
    ensures
        cells_matching(Seq::new(w, |_x: int| Cell::blank()), is_mine_cell()) == 0,
    decreases w,
{
    if w > 0 {
        lemma_blank_row_has_no_mine((w - 1) as nat);
        assert(Seq::new(w, |_x: int| Cell::blank()).drop_last() =~= Seq::new(
            (w - 1) as nat,
            |_x: int| Cell::blank(),
        ));
    }
}

/// A blank grid holds no mine.
proof fn lemma_blank_grid_has_no_mine(w: nat, h: nat)
    ensures
        rows_matching(blank_grid(w, h), is_mine_cell()) == 0,
    decreases h,
{
    if h > 0 {
        lemma_blank_grid_has_no_mine(w, (h - 1) as nat);
        lemma_blank_row_has_no_mine(w);
        assert(blank_grid(w, h).drop_last() =~= blank_grid(w, (h - 1) as nat));
    }
}

/// Flagging a hidden cell and toggling it again gives back the same board.
pub proof fn lemma_toggle_flag_twice(
    b0: GameBoard,
    b1: GameBoard,
    b2: GameBoard,
    x: int,
    y: int,
    r1: bool,
    r2: bool,
)
    requires
        b0.wf(),
        b1.flag_toggle_result(&b0, x, y, r1),
        b2.flag_toggle_result(&b1, x, y, r2),
        b0.in_bounds(x, y),
        b0.game_started,
        !b0.game_over,
        b0.cell(x, y).state is Hidden,
    ensures
        r1,
        r2,
        b1.cell(x, y).state is Flagged,
        b2.cell(x, y).state is Hidden,
        b2.grid() == b0.grid(),
        b2.same_settings(&b0),
{
    b0.lemma_grid_cell(x, y);
    b1.lemma_grid_cell(x, y);
    b2.lemma_grid_cell(x, y);
    let c0 = b0.cell(x, y);
    let c1 = Cell { state: CellState::Flagged, content: c0.content };
    assert(b1.grid()[y] == b0.grid()[y].update(x, c1));
    assert(b1.cell(x, y) == c1);
    let c2 = Cell { state: CellState::Hidden, content: c0.content };
    assert(c2 == c0);
    assert(b2.grid()[y] =~= b0.grid()[y]);
    assert(b2.grid() =~= b0.grid());
}

/// A reset board equals a newly built one of the same size and mine count.
pub proof fn lemma_reset_matches_new(reset: GameBoard, fresh: GameBoard)
    requires
        reset.is_fresh(fresh.width as nat, fresh.height as nat, fresh.mine_count as nat),
        fresh.is_fresh(fresh.width as nat, fresh.height as nat, fresh.mine_count as nat),
    ensures
        reset.grid() == fresh.grid(),
        reset.same_settings(&fresh),
        forall|x: int, y: int| reset.in_bounds(x, y) ==> #[trigger] reset.cell(x, y) == fresh.cell(x, y),
{
    assert forall|x: int, y: int| reset.in_bounds(x, y) implies #[trigger] reset.cell(x, y) == fresh.cell(
        x,
        y,
    ) by {
        reset.lemma_grid_cell(x, y);
        fresh.lemma_grid_cell(x, y);
    }
}

/// Revealing a mine loses the game: it is over, not won, and every mine is revealed.
pub proof fn lemma_mine_loses(before: GameBoard, after: GameBoard, x: int, y: int)
    requires
        after.revealed_after(&before, x, y),
        after.is_mine(x, y),
    ensures
        after.game_over,
        !after.game_won,
        forall|i: int, j: int| #[trigger] after.is_mine(i, j) ==> after.cell(i, j).state is Revealed,
{
    assert forall|i: int, j: int| #[trigger] after.is_mine(i, j) implies after.cell(i, j).state is Revealed by {
        assert(after.in_bounds(i, j));
    }
}

/// The minefield: a grid of `height` rows of `width` cells and the state of one game on it.
#[derive(Debug, Clone)]
pub struct GameBoard {
    pub board: Vec<Vec<Cell>>,
    pub width: usize,
    pub height: usize,
    pub mine_count: usize,
    pub game_over: bool,
    pub game_won: bool,
    pub first_click: bool,
    pub game_started: bool,
}

/// Relies on rand's `Rng::gen_range` on the thread-local generator: a value in `0..bound`
/// (it panics only on an empty range).
#[verifier::external_body]
fn random_below(bound: usize) -> (r: usize)
    requires
        bound > 0,
    ensures
        r < bound,
{
    rand::thread_rng().gen_range(0..bound)
}

impl GameBoard {
    /// The cells as rows of values.
    pub open spec fn grid(&self) -> Seq<Seq<Cell>> {
        self.board@.map_values(|r: Vec<Cell>| r@)
    }

    pub open spec fn in_bounds(&self, x: int, y: int) -> bool {
        0 <= x < self.width && 0 <= y < self.height
    }

    pub open spec fn cell(&self, x: int, y: int) -> Cell {
        self.board@[y]@[x]
    }

    /// The grid has exactly `height` rows of `width` cells.
    pub open spec fn shape_ok(&self) -> bool {
        &&& self.board@.len() == self.height
        &&& forall|y: int| 0 <= y < self.height ==> #[trigger] self.board@[y]@.len() == self.width
    }

    /// The cells of the grid can be counted in a `usize`.
    pub open spec fn size_fits(&self) -> bool {
        self.width * self.height <= usize::MAX
    }

    /// The invariants of a board in play.
    pub open spec fn wf(&self) -> bool {
        &&& self.shape_ok()
        &&& self.size_fits()
        &&& self.game_won ==> self.game_over
        &&& !self.first_click ==> self.numbers_consistent()
    }

    /// Everything but the cells is equal.
    pub open spec fn same_settings(&self, other: &GameBoard) -> bool {
        &&& self.width == other.width
        &&& self.height == other.height
        &&& self.mine_count == other.mine_count
        &&& self.game_over == other.game_over
        &&& self.game_won == other.game_won
        &&& self.first_click == other.first_click
        &&& self.game_started == other.game_started
    }

    pub open spec fn is_mine(&self, x: int, y: int) -> bool {
        self.in_bounds(x, y) && self.cell(x, y).content is Mine
    }

    pub open spec fn mine_at(&self, x: int, y: int) -> nat {
        if self.is_mine(x, y) {
            1
        } else {
            0
        }
    }

    /// Mines among the (up to eight) neighbours of `(x, y)` that lie on the grid.
    pub open spec fn adjacent_mines(&self, x: int, y: int) -> nat {
        self.mine_at(x - 1, y - 1) + self.mine_at(x, y - 1) + self.mine_at(x + 1, y - 1)
            + self.mine_at(x - 1, y) + self.mine_at(x + 1, y)
            + self.mine_at(x - 1, y + 1) + self.mine_at(x, y + 1) + self.mine_at(x + 1, y + 1)
    }

    /// The cell at `(x, y)` shows the number of its adjacent mines.
    pub open spec fn number_right(&self, x: int, y: int) -> bool {
        self.cell(x, y).content == content_for(self.adjacent_mines(x, y))
    }

    /// Every cell that is not a mine shows the number of its adjacent mines.
    pub open spec fn numbers_consistent(&self) -> bool {
        forall|x: int, y: int|
            self.in_bounds(x, y) && !self.is_mine(x, y) ==> #[trigger] self.number_right(x, y)
    }

    /// Each cell keeps its content.
    pub open spec fn contents_same(&self, before: &GameBoard) -> bool {
        forall|i: int, j: int|
            self.in_bounds(i, j) ==> #[trigger] self.cell(i, j).content == before.cell(i, j).content
    }

    /// Each cell keeps its state, or went from hidden to revealed.
    pub open spec fn states_advanced(&self, before: &GameBoard) -> bool {
        forall|i: int, j: int|
            self.in_bounds(i, j) ==> {
                let s0 = before.cell(i, j).state;
                let s1 = (#[trigger] self.cell(i, j)).state;
                s1 == s0 || (s0 is Hidden && s1 is Revealed)
            }
    }

    /// `(i, j)` was hidden in `before` and is revealed now.
    pub open spec fn newly_revealed(&self, before: &GameBoard, i: int, j: int) -> bool {
        self.in_bounds(i, j) && before.cell(i, j).state is Hidden && self.cell(i, j).state is Revealed
    }

    /// What a cascade that started at `(x, y)` left since `before`: it revealed no mine; every
    /// empty cell it revealed has no hidden neighbour left; and every cell it revealed is
    /// reached from `(x, y)` through empty cells that it revealed.
    pub open spec fn cascade_from(&self, before: &GameBoard, x: int, y: int) -> bool {
        &&& forall|i: int, j: int| #[trigger] self.newly_revealed(before, i, j) ==> !self.is_mine(i, j)
        &&& forall|i: int, j: int, k: int, l: int|
            #[trigger] self.newly_revealed(before, i, j) && self.cell(i, j).content is Empty
                && #[trigger] adjacent(i, j, k, l) && self.in_bounds(k, l) ==> !(self.cell(
                k,
                l,
            ).state is Hidden)
        &&& exists|rank: spec_fn(int, int) -> nat| #[trigger] self.linked_by(before, x, y, rank)
    }

    /// `(k, l)` is an empty neighbour of `(i, j)` that is `(x, y)` itself, or was revealed since
    /// `before` with a smaller `rank` than `(i, j)`.
    pub open spec fn links_back(
        &self,
        before: &GameBoard,
        x: int,
        y: int,
        rank: spec_fn(int, int) -> nat,
        i: int,
        j: int,
        k: int,
        l: int,
    ) -> bool {
        &&& adjacent(i, j, k, l)
        &&& self.cell(k, l).content is Empty
        &&& ((k == x && l == y) || (self.newly_revealed(before, k, l) && rank(k, l) < rank(i, j)))
    }

    /// Every cell revealed since `before`, but `(x, y)`, links back to an empty neighbour; as
    /// `rank` falls along the links, following them from any such cell ends at `(x, y)`.
    pub open spec fn linked_by(&self, before: &GameBoard, x: int, y: int, rank: spec_fn(int, int) -> nat) -> bool {
        forall|i: int, j: int|
            #[trigger] self.newly_revealed(before, i, j) && (i != x || j != y) ==> exists|k: int, l: int|
                #[trigger] self.links_back(before, x, y, rank, i, j, k, l)
    }

    /// No cell that is not a mine is still hidden.
    pub open spec fn all_safe_revealed(&self) -> bool {
        forall|i: int, j: int|
            self.in_bounds(i, j) && (#[trigger] self.cell(i, j)).state is Hidden ==> self.is_mine(i, j)
    }

    /// Mines were placed as `place_mines(x, y)` places them on `before`.
    pub open spec fn placed_mines_from(&self, before: &GameBoard, x: int, y: int) -> bool {
        &&& self.mine_total() == before.mine_total() + vstd::math::min(
            before.mine_count as int,
            before.free_cells(x, y),
        )
        &&& self.is_mine(x, y) == before.is_mine(x, y)
        &&& forall|i: int, j: int| #[trigger] before.is_mine(i, j) ==> self.is_mine(i, j)
    }

    /// What an accepted reveal of `(x, y)` leaves, compared with `before`. Mines are placed
    /// first if none were yet; the cell is revealed. A mine ends the game as lost and shows every
    /// mine. Otherwise the cascade runs, and the game is won once every cell that is not a
    /// mine is revealed.
    pub open spec fn revealed_after(&self, before: &GameBoard, x: int, y: int) -> bool {
        &&& self.width == before.width
        &&& self.height == before.height
        &&& self.mine_count == before.mine_count
        &&& self.game_started == before.game_started
        &&& !self.first_click
        &&& self.hidden_total() < before.hidden_total()
        &&& self.cell(x, y).state is Revealed
        &&& before.first_click ==> self.placed_mines_from(before, x, y)
        &&& !before.first_click ==> self.contents_same(before)
        &&& if self.is_mine(x, y) {
            &&& self.game_over
            &&& !self.game_won
            &&& forall|i: int, j: int|
                self.in_bounds(i, j) ==> (#[trigger] self.cell(i, j)).state == if self.is_mine(i, j) {
                    CellState::Revealed
                } else {
                    before.cell(i, j).state
                }
        } else {
            &&& self.states_advanced(before)
            &&& self.cascade_from(before, x, y)
            &&& self.game_won == (before.game_won || self.all_safe_revealed())
            &&& self.game_over == (before.game_over || self.all_safe_revealed())
        }
    }

    /// What `toggle_flag(x, y)` returning `r` leaves, compared with `before`: on a game in
    /// progress a hidden cell becomes flagged and a flagged one hidden; nothing else changes.
    pub open spec fn flag_toggle_result(&self, before: &GameBoard, x: int, y: int, r: bool) -> bool {
        &&& r == (before.in_bounds(x, y) && !before.game_over && before.game_started && (before.cell(
            x,
            y,
        ).state is Hidden || before.cell(x, y).state is Flagged))
        &&& !r ==> *self == *before
        &&& r ==> {
            &&& self.shape_ok()
            &&& self.same_settings(before)
            &&& self.grid() == before.grid().update(
                y,
                before.grid()[y].update(
                    x,
                    Cell { state: toggled(before.cell(x, y).state), content: before.cell(x, y).content },
                ),
            )
            &&& forall|i: int, j: int|
                self.in_bounds(i, j) ==> #[trigger] self.cell(i, j) == if i == x && j == y {
                    Cell { state: toggled(before.cell(x, y).state), content: before.cell(x, y).content }
                } else {
                    before.cell(i, j)
                }
        }
    }

    /// Number of cells that hold a mine.
    pub open spec fn mine_total(&self) -> nat {
        rows_matching(self.grid(), is_mine_cell())
    }

    /// Number of cells still hidden.
    pub open spec fn hidden_total(&self) -> nat {
        rows_matching(self.grid(), is_hidden_cell())
    }

    /// A board as `new` builds it: blank cells, no game started.
    pub open spec fn is_fresh(&self, width: nat, height: nat, mine_count: nat) -> bool {
        &&& self.shape_ok()
        &&& self.width == width
        &&& self.height == height
        &&& self.mine_count == mine_count
        &&& self.grid() == blank_grid(width, height)
        &&& forall|x: int, y: int| self.in_bounds(x, y) ==> #[trigger] self.cell(x, y) == Cell::blank()
        &&& !self.game_over
        &&& !self.game_won
        &&& self.first_click
        &&& !self.game_started
    }

    proof fn lemma_grid_cell(&self, x: int, y: int)
        requires
            self.shape_ok(),
            self.in_bounds(x, y),
        ensures
            self.grid().len() == self.height,
            self.grid()[y].len() == self.width,
            self.grid()[y][x] == self.cell(x, y),
    {
        assert(self.board@[y]@.len() == self.width);
    }

    /// A `height` by `width` grid of hidden, empty cells.
    fn blank_rows(width: usize, height: usize) -> (rows: Vec<Vec<Cell>>)
        ensures
            rows@.len() == height,
            forall|y: int| 0 <= y < height ==> #[trigger] rows@[y]@.len() == width,
            rows@.map_values(|r: Vec<Cell>| r@) == blank_grid(width as nat, height as nat),
    {
        let mut rows: Vec<Vec<Cell>> = Vec::new();
        let mut y: usize = 0;
        while y < height
            invariant
                y <= height,
                rows@.len() == y,
                forall|j: int| 0 <= j < y ==> #[trigger] rows@[j]@ == Seq::new(
                    width as nat,
                    |_x: int| Cell::blank(),
                ),
            decreases height - y,
        {
            let mut row: Vec<Cell> = Vec::new();
            let mut x: usize = 0;
            while x < width
                invariant
                    x <= width,
                    row@ == Seq::new(x as nat, |_x: int| Cell::blank()),
                decreases width - x,
            {
                row.push(Cell::default());
                x += 1;
                assert(row@ =~= Seq::new(x as nat, |_x: int| Cell::blank()));
            }
            rows.push(row);
            y += 1;
        }
        assert(rows@.map_values(|r: Vec<Cell>| r@) =~= blank_grid(width as nat, height as nat));
        rows
    }

    /// A `width` by `height` board of hidden, empty cells; mines are placed on the first reveal.
    pub fn new(width: usize, height: usize, mine_count: usize) -> (r: Self)
        ensures
            width * height <= usize::MAX ==> r.wf(),
            r.is_fresh(width as nat, height as nat, mine_count as nat),
    {
        let r = GameBoard {
            board: Self::blank_rows(width, height),
            width,
            height,
            mine_count,
            game_over: false,
            game_won: false,
            first_click: true,
            game_started: false,
        };
        proof {
            r.lemma_blank_cells();
        }
        r
    }

    proof fn lemma_blank_cells(&self)
        requires
            self.shape_ok(),
            self.grid() == blank_grid(self.width as nat, self.height as nat),
        ensures
            forall|x: int, y: int| self.in_bounds(x, y) ==> #[trigger] self.cell(x, y) == Cell::blank(),
    {
        assert forall|x: int, y: int| self.in_bounds(x, y) implies #[trigger] self.cell(x, y)
            == Cell::blank() by {
            self.lemma_grid_cell(x, y);
            Self::lemma_fresh_cell(self.width, self.height, self.mine_count, x, y);
        }
    }

    /// 1 when the neighbour `(x + dx - 1, y + dy - 1)` lies on the grid and holds a mine.
    fn mine_at_offset(&self, x: usize, y: usize, dx: usize, dy: usize) -> (r: u8)
        requires
            self.shape_ok(),
            self.in_bounds(x as int, y as int),
            dx <= 2,
            dy <= 2,
        ensures
            r == self.mine_at(x + dx - 1, y + dy - 1),
    {
        if (x == 0 && dx == 0) || (y == 0 && dy == 0) {
            return 0;
        }
        if (dx == 2 && x + 1 >= self.width) || (dy == 2 && y + 1 >= self.height) {
            return 0;
        }
        let nx = x + dx - 1;
        let ny = y + dy - 1;
        proof {
            self.lemma_grid_cell(nx as int, ny as int);
        }
        if matches!(self.board[ny][nx].content, CellContent::Mine) {
            1
        } else {
            0
        }
    }

    /// Counts the mines among the neighbours of `(x, y)` that lie on the grid.
    pub fn count_adjacent_mines(&self, x: usize, y: usize) -> (r: u8)
        requires
            self.shape_ok(),
            self.in_bounds(x as int, y as int),
        ensures
            r == self.adjacent_mines(x as int, y as int),
            r <= 8,
    {
        self.mine_at_offset(x, y, 0, 0) + self.mine_at_offset(x, y, 1, 0) + self.mine_at_offset(
            x,
            y,
            2,
            0,
        ) + self.mine_at_offset(x, y, 0, 1) + self.mine_at_offset(x, y, 2, 1)
            + self.mine_at_offset(x, y, 0, 2) + self.mine_at_offset(x, y, 1, 2)
            + self.mine_at_offset(x, y, 2, 2)
    }

    /// Gives every cell that is not a mine the number of its adjacent mines.
    pub fn calculate_numbers(&mut self)
        requires
            old(self).shape_ok(),
        ensures
            final(self).shape_ok(),
            final(self).same_settings(old(self)),
            final(self).numbers_consistent(),
            final(self).mine_total() == old(self).mine_total(),
            final(self).hidden_total() == old(self).hidden_total(),
            forall|x: int, y: int|
                final(self).in_bounds(x, y) ==> {
                    &&& (#[trigger] final(self).cell(x, y)).state == old(self).cell(x, y).state
                    &&& final(self).is_mine(x, y) == old(self).is_mine(x, y)
                },
    {
        let height = self.height;
        let width = self.width;
        let mut y: usize = 0;
        while y < height
            invariant
                height == self.height,
                width == self.width,
                y <= height,
                self.shape_ok(),
                self.same_settings(old(self)),
                self.mine_total() == old(self).mine_total(),
                self.hidden_total() == old(self).hidden_total(),
                forall|i: int, j: int|
                    self.in_bounds(i, j) ==> {
                        &&& (#[trigger] self.cell(i, j)).state == old(self).cell(i, j).state
                        &&& self.is_mine(i, j) == old(self).is_mine(i, j)
                    },
                forall|i: int, j: int|
                    self.in_bounds(i, j) && j < y && !self.is_mine(i, j) ==> #[trigger] self.cell(
                        i,
                        j,
                    ).content == content_for(old(self).adjacent_mines(i, j)),
            decreases height - y,
        {
            let mut x: usize = 0;
            while x < width
                invariant
                    height == self.height,
                    width == self.width,
                    y < height,
                    x <= width,
                    self.shape_ok(),
                    self.same_settings(old(self)),
                    self.mine_total() == old(self).mine_total(),
                    self.hidden_total() == old(self).hidden_total(),
                    forall|i: int, j: int|
                        self.in_bounds(i, j) ==> {
                            &&& (#[trigger] self.cell(i, j)).state == old(self).cell(i, j).state
                            &&& self.is_mine(i, j) == old(self).is_mine(i, j)
                        },
                    forall|i: int, j: int|
                        self.in_bounds(i, j) && (j < y || (j == y && i < x)) && !self.is_mine(i, j)
                            ==> #[trigger] self.cell(i, j).content == content_for(
                            old(self).adjacent_mines(i, j),
                        ),
                decreases width - x,
            {
                proof {
                    self.lemma_grid_cell(x as int, y as int);
                }
                let c = self.board[y][x];
                if !matches!(c.content, CellContent::Mine) {
                    let n = self.count_adjacent_mines(x, y);
                    assert(self.adjacent_mines(x as int, y as int) == old(self).adjacent_mines(
                        x as int,
                        y as int,
                    ));
                    let content = if n > 0 {
                        CellContent::Number(n)
                    } else {
                        CellContent::Empty
                    };
                    proof {
                        lemma_grid_update_count(
                            self.grid(),
                            x as int,
                            y as int,
                            Cell { state: c.state, content },
                            is_mine_cell(),
                        );
                        lemma_grid_update_count(
                            self.grid(),
                            x as int,
                            y as int,
                            Cell { state: c.state, content },
                            is_hidden_cell(),
                        );
                    }
                    self.set_cell(x, y, Cell { state: c.state, content });
                }
                x += 1;
            }
            y += 1;
        }
        assert forall|x: int, y: int|
            self.in_bounds(x, y) && !self.is_mine(x, y) implies #[trigger] self.number_right(x, y) by {
            assert(self.cell(x, y).content == content_for(old(self).adjacent_mines(x, y)));
            assert(self.adjacent_mines(x, y) == old(self).adjacent_mines(x, y));
        }
    }

    /// The content of the cell at `(x, y)`.
    pub fn get_cell_content(&self, x: usize, y: usize) -> (r: CellContent)
        requires
            self.shape_ok(),
            self.in_bounds(x as int, y as int),
        ensures
            r == self.cell(x as int, y as int).content,
    {
        proof {
            self.lemma_grid_cell(x as int, y as int);
        }
        self.board[y][x].content
    }

    /// The state of the cell at `(x, y)`.
    pub fn get_cell_state(&self, x: usize, y: usize) -> (r: CellState)
        requires
            self.shape_ok(),
            self.in_bounds(x as int, y as int),
        ensures
            r == self.cell(x as int, y as int).state,
    {
        proof {
            self.lemma_grid_cell(x as int, y as int);
        }
        self.board[y][x].state
    }

    /// Puts a mine at `(x, y)` without touching the numbers around it.
    pub fn set_mine(&mut self, x: usize, y: usize)
        requires
            old(self).shape_ok(),
            old(self).in_bounds(x as int, y as int),
        ensures
            final(self).shape_ok(),
            final(self).same_settings(old(self)),
            forall|i: int, j: int|
                final(self).in_bounds(i, j) ==> #[trigger] final(self).cell(i, j) == if i == x && j
                    == y {
                    Cell { state: old(self).cell(i, j).state, content: CellContent::Mine }
                } else {
                    old(self).cell(i, j)
                },
    {
        proof {
            self.lemma_grid_cell(x as int, y as int);
        }
        let state = self.board[y][x].state;
        self.set_cell(x, y, Cell { state, content: CellContent::Mine });
    }

    /// Counts the cells that hold a mine.
    pub fn count_total_mines(&self) -> (r: usize)
        requires
            self.shape_ok(),
            self.size_fits(),
        ensures
            r == self.mine_total(),
    {
        let ghost g = self.grid();
        let mut count: usize = 0;
        let mut y: usize = 0;
        while y < self.height
            invariant
                self.shape_ok(),
                self.size_fits(),
                g == self.grid(),
                y <= self.height,
                count <= y * self.width,
                count == rows_matching(g.take(y as int), is_mine_cell()),
            decreases self.height - y,
        {
            assert(g[y as int] == self.board@[y as int]@);
            assert(self.board@[y as int]@.len() == self.width);
            let ghost row = g[y as int];
            let mut x: usize = 0;
            let ghost before = count;
            while x < self.width
                invariant
                    self.shape_ok(),
                    self.size_fits(),
                    g == self.grid(),
                    y < self.height,
                    x <= self.width,
                    row == g[y as int],
                    row.len() == self.width,
                    before == rows_matching(g.take(y as int), is_mine_cell()),
                    before <= y * self.width,
                    count == before + cells_matching(row.take(x as int), is_mine_cell()),
                    count <= y * self.width + x,
                decreases self.width - x,
            {
                proof {
                    self.lemma_grid_cell(x as int, y as int);
                    assert(row.take(x + 1).drop_last() =~= row.take(x as int));
                }
                if matches!(self.board[y][x].content, CellContent::Mine) {
                    assert(y * self.width + x + 1 <= self.width * self.height) by (nonlinear_arith)
                        requires
                            y < self.height,
                            x < self.width,
                    ;
                    count += 1;
                }
                x += 1;
            }
            proof {
                assert(row.take(self.width as int) =~= row);
                assert(g.take(y + 1).drop_last() =~= g.take(y as int));
                assert((y + 1) * self.width == y * self.width + self.width) by (nonlinear_arith);
            }
            y += 1;
        }
        assert(g.take(self.height as int) =~= g);
        count
    }

    /// Cells that can still receive a mine: on the grid, not yet a mine, and not `(ex, ey)`.
    pub open spec fn free_cells(&self, ex: int, ey: int) -> int {
        self.width * self.height - self.mine_total() - (if self.in_bounds(ex, ey) && !self.is_mine(
            ex,
            ey,
        ) {
            1int
        } else {
            0int
        })
    }

    /// The positions of all free cells in row-major order, and the proof that they number
    /// `free_cells(ex, ey)`.
    fn collect_free_cells(&self, ex: usize, ey: usize) -> (free: Vec<(usize, usize)>)
        requires
            self.shape_ok(),
        ensures
            free@.len() == self.free_cells(ex as int, ey as int),
            forall|k: int|
                0 <= k < free@.len() ==> {
                    &&& self.in_bounds((#[trigger] free@[k]).0 as int, free@[k].1 as int)
                    &&& !self.is_mine(free@[k].0 as int, free@[k].1 as int)
                    &&& free@[k] != (ex, ey)
                },
            forall|a: int, b: int| 0 <= a < b < free@.len() ==> #[trigger] free@[a] != #[trigger] free@[b],
            forall|i: int, j: int|
                #![trigger self.cell(i, j)]
                self.in_bounds(i, j) && !self.is_mine(i, j) && (i, j) != (ex as int, ey as int)
                    ==> free@.contains((i as usize, j as usize)),
    {
        let ghost g = self.grid();
        let ghost ex_free = self.in_bounds(ex as int, ey as int) && !self.is_mine(ex as int, ey as int);
        let mut free: Vec<(usize, usize)> = Vec::new();
        let mut y: usize = 0;
        while y < self.height
            invariant
                self.shape_ok(),
                g == self.grid(),
                ex_free == (self.in_bounds(ex as int, ey as int) && !self.is_mine(ex as int, ey as int)),
                y <= self.height,
                free@.len() + rows_matching(g.take(y as int), is_mine_cell()) + (if ex_free && ey < y {
                    1int
                } else {
                    0int
                }) == y * self.width,
                forall|k: int|
                    0 <= k < free@.len() ==> {
                        &&& self.in_bounds((#[trigger] free@[k]).0 as int, free@[k].1 as int)
                        &&& !self.is_mine(free@[k].0 as int, free@[k].1 as int)
                        &&& free@[k] != (ex, ey)
                        &&& free@[k].1 < y
                    },
                forall|a: int, b: int| 0 <= a < b < free@.len() ==> #[trigger] free@[a] != #[trigger] free@[b],
                forall|i: int, j: int|
                    #![trigger self.cell(i, j)]
                    self.in_bounds(i, j) && j < y && !self.is_mine(i, j) && (i, j) != (ex as int, ey as int)
                        ==> free@.contains((i as usize, j as usize)),
            decreases self.height - y,
        {
            assert(g[y as int] == self.board@[y as int]@);
            assert(self.board@[y as int]@.len() == self.width);
            let ghost row = g[y as int];
            let ghost before = rows_matching(g.take(y as int), is_mine_cell());
            let mut x: usize = 0;
            while x < self.width
                invariant
                    self.shape_ok(),
                    g == self.grid(),
                    ex_free == (self.in_bounds(ex as int, ey as int) && !self.is_mine(ex as int, ey as int)),
                    y < self.height,
                    x <= self.width,
                    row == g[y as int],
                    row.len() == self.width,
                    before == rows_matching(g.take(y as int), is_mine_cell()),
                    free@.len() + before + cells_matching(row.take(x as int), is_mine_cell()) + (if ex_free
                        && (ey < y || (ey == y && ex < x)) {
                        1int
                    } else {
                        0int
                    }) == y * self.width + x,
                    forall|k: int|
                        0 <= k < free@.len() ==> {
                            &&& self.in_bounds((#[trigger] free@[k]).0 as int, free@[k].1 as int)
                            &&& !self.is_mine(free@[k].0 as int, free@[k].1 as int)
                            &&& free@[k] != (ex, ey)
                            &&& (free@[k].1 < y || (free@[k].1 == y && free@[k].0 < x))
                        },
                    forall|a: int, b: int|
                        0 <= a < b < free@.len() ==> #[trigger] free@[a] != #[trigger] free@[b],
                    forall|i: int, j: int|
                        #![trigger self.cell(i, j)]
                        self.in_bounds(i, j) && (j < y || (j == y && i < x)) && !self.is_mine(i, j) && (
                        i, j) != (ex as int, ey as int) ==> free@.contains((i as usize, j as usize)),
                decreases self.width - x,
            {
                proof {
                    self.lemma_grid_cell(x as int, y as int);
                    assert(row.take(x + 1).drop_last() =~= row.take(x as int));
                }
                if !matches!(self.board[y][x].content, CellContent::Mine) && (x != ex || y != ey) {
                    let ghost prev = free@;
                    free.push((x, y));
                    assert forall|i: int, j: int|
                        #![trigger self.cell(i, j)]
                        self.in_bounds(i, j) && (j < y || (j == y && i < x + 1)) && !self.is_mine(i, j)
                            && (i, j) != (ex as int, ey as int) implies free@.contains(
                        (i as usize, j as usize),
                    ) by {
                        if j == y && i == x {
                            assert(free@[prev.len() as int] == (i as usize, j as usize));
                        } else {
                            assert(prev.contains((i as usize, j as usize)));
                            let k = choose|k: int| 0 <= k < prev.len() && prev[k] == (i as usize, j as usize);
                            assert(free@[k] == prev[k]);
                        }
                    }
                }
                x += 1;
            }
            proof {
                assert(row.take(self.width as int) =~= row);
                assert(g.take(y + 1).drop_last() =~= g.take(y as int));
                assert((y + 1) * self.width == y * self.width + self.width) by (nonlinear_arith);
            }
            y += 1;
        }
        assert(g.take(self.height as int) =~= g);
        assert(self.height * self.width == self.width * self.height) by (nonlinear_arith);
        free
    }

    /// Places `mine_count` further mines on cells chosen uniformly at random among those that
    /// are neither mines already nor `(exclude_x, exclude_y)` (every such cell, if there are
    /// fewer), then recomputes the numbers of all other cells.
    pub fn place_mines(&mut self, exclude_x: usize, exclude_y: usize)
        requires
            old(self).shape_ok(),
        ensures
            final(self).shape_ok(),
            final(self).same_settings(old(self)),
            final(self).numbers_consistent(),
            final(self).hidden_total() == old(self).hidden_total(),
            final(self).mine_total() == old(self).mine_total() + vstd::math::min(
                old(self).mine_count as int,
                old(self).free_cells(exclude_x as int, exclude_y as int),
            ),
            final(self).is_mine(exclude_x as int, exclude_y as int) == old(self).is_mine(
                exclude_x as int,
                exclude_y as int,
            ),
            old(self).mine_total() == 0 && old(self).mine_count < old(self).width * old(self).height
                && old(self).in_bounds(exclude_x as int, exclude_y as int) ==> final(self).mine_total()
                == old(self).mine_count,
            forall|x: int, y: int|
                final(self).in_bounds(x, y) ==> {
                    &&& (#[trigger] final(self).cell(x, y)).state == old(self).cell(x, y).state
                    &&& old(self).is_mine(x, y) ==> final(self).is_mine(x, y)
                },
    {
        let mut free = self.collect_free_cells(exclude_x, exclude_y);
        let ghost f0 = free@.len();
        let mut placed: usize = 0;
        while placed < self.mine_count && free.len() > 0
            invariant
                self.shape_ok(),
                self.same_settings(old(self)),
                placed <= self.mine_count,
                free@.len() + placed == f0,
                f0 == old(self).free_cells(exclude_x as int, exclude_y as int),
                self.mine_total() == old(self).mine_total() + placed,
                self.hidden_total() == old(self).hidden_total(),
                self.is_mine(exclude_x as int, exclude_y as int) == old(self).is_mine(
                    exclude_x as int,
                    exclude_y as int,
                ),
                forall|x: int, y: int|
                    self.in_bounds(x, y) ==> {
                        &&& (#[trigger] self.cell(x, y)).state == old(self).cell(x, y).state
                        &&& old(self).is_mine(x, y) ==> self.is_mine(x, y)
                    },
                forall|k: int|
                    0 <= k < free@.len() ==> {
                        &&& self.in_bounds((#[trigger] free@[k]).0 as int, free@[k].1 as int)
                        &&& !self.is_mine(free@[k].0 as int, free@[k].1 as int)
                        &&& free@[k] != (exclude_x, exclude_y)
                    },
                forall|a: int, b: int| 0 <= a < b < free@.len() ==> #[trigger] free@[a] != #[trigger] free@[b],
            decreases free@.len(),
        {
            let k = random_below(free.len());
            let ghost prev = free@;
            let (x, y) = free.swap_remove(k);
            assert(prev[k as int] == (x, y));
            proof {
                self.lemma_grid_cell(x as int, y as int);
            }
            let state = self.board[y][x].state;
            proof {
                lemma_grid_update_count(
                    self.grid(),
                    x as int,
                    y as int,
                    Cell { state, content: CellContent::Mine },
                    is_mine_cell(),
                );
                lemma_grid_update_count(
                    self.grid(),
                    x as int,
                    y as int,
                    Cell { state, content: CellContent::Mine },
                    is_hidden_cell(),
                );
            }
            self.set_cell(x, y, Cell { state, content: CellContent::Mine });
            placed += 1;
            assert forall|k2: int| 0 <= k2 < free@.len() implies {
                &&& self.in_bounds((#[trigger] free@[k2]).0 as int, free@[k2].1 as int)
                &&& !self.is_mine(free@[k2].0 as int, free@[k2].1 as int)
                &&& free@[k2] != (exclude_x, exclude_y)
            } by {
                let src = if k2 == k { prev.len() - 1 } else { k2 };
                assert(free@[k2] == prev[src]);
                assert(src != k as int);
                if src < k {
                    assert(prev[src] != prev[k as int]);
                } else {
                    assert(prev[k as int] != prev[src]);
                }
            }
            assert forall|a: int, b: int| 0 <= a < b < free@.len() implies #[trigger] free@[a]
                != #[trigger] free@[b] by {
                let sa = if a == k { prev.len() - 1 } else { a };
                let sb = if b == k { prev.len() - 1 } else { b };
                assert(free@[a] == prev[sa]);
                assert(free@[b] == prev[sb]);
                if sa < sb {
                    assert(prev[sa] != prev[sb]);
                } else {
                    assert(prev[sb] != prev[sa]);
                }
            }
        }
        proof {
            let mt = old(self).mine_total();
            if mt == 0 && old(self).mine_count < old(self).width * old(self).height && old(
                self,
            ).in_bounds(exclude_x as int, exclude_y as int) {
                assert(!old(self).is_mine(exclude_x as int, exclude_y as int)) by {
                    if old(self).is_mine(exclude_x as int, exclude_y as int) {
                        old(self).lemma_grid_cell(exclude_x as int, exclude_y as int);
                        lemma_grid_update_count(
                            old(self).grid(),
                            exclude_x as int,
                            exclude_y as int,
                            Cell::blank(),
                            is_mine_cell(),
                        );
                    }
                }
            }
        }
        self.calculate_numbers();
    }

    /// Reveals every mine, for the display at the end of a lost game.
    fn reveal_all_mines(&mut self)
        requires
            old(self).shape_ok(),
        ensures
            final(self).shape_ok(),
            final(self).same_settings(old(self)),
            final(self).contents_same(old(self)),
            final(self).mine_total() == old(self).mine_total(),
            final(self).hidden_total() <= old(self).hidden_total(),
            forall|i: int, j: int|
                final(self).in_bounds(i, j) ==> (#[trigger] final(self).cell(i, j)).state == if old(
                    self,
                ).is_mine(i, j) {
                    CellState::Revealed
                } else {
                    old(self).cell(i, j).state
                },
    {
        let height = self.height;
        let width = self.width;
        let mut y: usize = 0;
        while y < height
            invariant
                height == self.height,
                width == self.width,
                y <= height,
                self.shape_ok(),
                self.same_settings(old(self)),
                self.contents_same(old(self)),
                self.mine_total() == old(self).mine_total(),
                self.hidden_total() <= old(self).hidden_total(),
                forall|i: int, j: int|
                    self.in_bounds(i, j) ==> (#[trigger] self.cell(i, j)).state == if old(
                        self,
                    ).is_mine(i, j) && j < y {
                        CellState::Revealed
                    } else {
                        old(self).cell(i, j).state
                    },
            decreases height - y,
        {
            let mut x: usize = 0;
            while x < width
                invariant
                    height == self.height,
                    width == self.width,
                    y < height,
                    x <= width,
                    self.shape_ok(),
                    self.same_settings(old(self)),
                    self.contents_same(old(self)),
                    self.mine_total() == old(self).mine_total(),
                    self.hidden_total() <= old(self).hidden_total(),
                    forall|i: int, j: int|
                        self.in_bounds(i, j) ==> (#[trigger] self.cell(i, j)).state == if old(
                            self,
                        ).is_mine(i, j) && (j < y || (j == y && i < x)) {
                            CellState::Revealed
                        } else {
                            old(self).cell(i, j).state
                        },
                decreases width - x,
            {
                proof {
                    self.lemma_grid_cell(x as int, y as int);
                }
                let c = self.board[y][x];
                if matches!(c.content, CellContent::Mine) {
                    let revealed = Cell { state: CellState::Revealed, content: c.content };
                    proof {
                        lemma_grid_update_count(
                            self.grid(),
                            x as int,
                            y as int,
                            revealed,
                            is_mine_cell(),
                        );
                        lemma_grid_update_count(
                            self.grid(),
                            x as int,
                            y as int,
                            revealed,
                            is_hidden_cell(),
                        );
                    }
                    self.set_cell(x, y, revealed);
                }
                x += 1;
            }
            y += 1;
        }
    }

    /// Ends the game as won once no hidden cell is left that is not a mine.
    fn check_win_condition(&mut self)
        requires
            old(self).shape_ok(),
            old(self).size_fits(),
        ensures
            final(self).board == old(self).board,
            final(self).width == old(self).width,
            final(self).height == old(self).height,
            final(self).mine_count == old(self).mine_count,
            final(self).first_click == old(self).first_click,
            final(self).game_started == old(self).game_started,
            final(self).game_won == (old(self).game_won || old(self).all_safe_revealed()),
            final(self).game_over == (old(self).game_over || old(self).all_safe_revealed()),
    {
        let mut unrevealed_non_mines: usize = 0;
        let mut y: usize = 0;
        while y < self.height
            invariant
                self.shape_ok(),
                self.size_fits(),
                y <= self.height,
                unrevealed_non_mines <= y * self.width,
                (unrevealed_non_mines == 0) == (forall|i: int, j: int|
                    self.in_bounds(i, j) && j < y && (#[trigger] self.cell(i, j)).state is Hidden
                        ==> self.is_mine(i, j)),
            decreases self.height - y,
        {
            let mut x: usize = 0;
            while x < self.width
                invariant
                    self.shape_ok(),
                    self.size_fits(),
                    y < self.height,
                    x <= self.width,
                    unrevealed_non_mines <= y * self.width + x,
                    (unrevealed_non_mines == 0) == (forall|i: int, j: int|
                        self.in_bounds(i, j) && (j < y || (j == y && i < x)) && (#[trigger] self.cell(
                            i,
                            j,
                        )).state is Hidden ==> self.is_mine(i, j)),
                decreases self.width - x,
            {
                proof {
                    self.lemma_grid_cell(x as int, y as int);
                }
                let c = self.board[y][x];
                if matches!(c.state, CellState::Hidden) && !matches!(c.content, CellContent::Mine) {
                    assert(y * self.width + x + 1 <= self.width * self.height) by (nonlinear_arith)
                        requires
                            y < self.height,
                            x < self.width,
                    ;
                    unrevealed_non_mines += 1;
                }
                x += 1;
            }
            assert((y + 1) * self.width == y * self.width + self.width) by (nonlinear_arith);
            y += 1;
        }
        if unrevealed_non_mines == 0 {
            self.game_won = true;
            self.game_over = true;
        }
    }

    /// The neighbour `(x + dx - 1, y + dy - 1)` of `(x, y)`, if it lies on the grid.
    fn neighbour(&self, x: usize, y: usize, dx: usize, dy: usize) -> (r: Option<(usize, usize)>)
        requires
            self.in_bounds(x as int, y as int),
            dx <= 2,
            dy <= 2,
        ensures
            match r {
                Some((nx, ny)) => {
                    &&& nx == x + dx - 1
                    &&& ny == y + dy - 1
                    &&& self.in_bounds(nx as int, ny as int)
                },
                None => !self.in_bounds(x + dx - 1, y + dy - 1),
            },
    {
        if (x == 0 && dx == 0) || (y == 0 && dy == 0) {
            return None;
        }
        if (dx == 2 && x + 1 >= self.width) || (dy == 2 && y + 1 >= self.height) {
            return None;
        }
        Some((x + dx - 1, y + dy - 1))
    }

    /// Reveals the cell at `(x, y)`. Nothing happens, and the result is `false`, when the cell
    /// is off the grid, the game has not started, or the cell is not hidden. The first reveal
    /// of a game places the mines, never on `(x, y)`. An empty cell reveals its hidden
    /// neighbours in turn.
    pub fn reveal_cell(&mut self, x: usize, y: usize) -> (r: bool)
        requires
            old(self).wf(),
        ensures
            final(self).wf(),
            r == (old(self).in_bounds(x as int, y as int) && old(self).game_started && old(self).cell(
                x as int,
                y as int,
            ).state is Hidden),
            !r ==> *final(self) == *old(self),
            r ==> final(self).revealed_after(old(self), x as int, y as int),
        decreases 2 * old(self).hidden_total() + 1,
    {
        if x >= self.width || y >= self.height || !self.game_started {
            return false;
        }
        proof {
            self.lemma_grid_cell(x as int, y as int);
        }
        let cell_state = self.board[y][x].state;
        match cell_state {
            CellState::Hidden => {
                if self.first_click {
                    self.first_click = false;
                    self.place_mines(x, y);
                }
                let ghost placed = *self;
                proof {
                    if !old(self).first_click {
                        assert(placed.board == old(self).board);
                        assert(placed.contents_same(old(self)));
                        lemma_numbers_kept(*old(self), placed);
                    }
                    self.lemma_grid_cell(x as int, y as int);
                }
                let content = self.board[y][x].content;
                let revealed = Cell { state: CellState::Revealed, content };
                proof {
                    lemma_grid_update_count(self.grid(), x as int, y as int, revealed, is_hidden_cell());
                    lemma_grid_update_count(self.grid(), x as int, y as int, revealed, is_mine_cell());
                }
                self.set_cell(x, y, revealed);
                let ghost mid = *self;
                proof {
                    assert(mid.contents_same(&placed)) by {
                        assert forall|i: int, j: int| mid.in_bounds(i, j) implies #[trigger] mid.cell(
                            i,
                            j,
                        ).content == placed.cell(i, j).content by {
                            if i == x && j == y {
                                assert(mid.cell(i, j) == revealed);
                            }
                        }
                    }
                    lemma_numbers_kept(placed, mid);
                    assert forall|i: int, j: int|
                        mid.in_bounds(i, j) && (i != x || j != y) implies #[trigger] mid.cell(i, j).state
                        == old(self).cell(i, j).state by {
                        assert(placed.cell(i, j).state == old(self).cell(i, j).state);
                    }
                    lemma_reveal_target(*old(self), mid, x as int, y as int);
                }
                match content {
                    CellContent::Mine => {
                        self.game_won = false;
                        self.game_over = true;
                        self.reveal_all_mines();
                        proof {
                            let fin = *self;
                            lemma_numbers_kept(mid, fin);
                            lemma_contents_chain(placed, mid, fin);
                            assert forall|i: int, j: int| fin.in_bounds(i, j) implies (#[trigger] fin.cell(
                                i,
                                j,
                            )).state == if fin.is_mine(i, j) {
                                CellState::Revealed
                            } else {
                                old(self).cell(i, j).state
                            } by {
                                assert(mid.cell(i, j).state == mid.cell(i, j).state);
                                assert(placed.cell(i, j).state == old(self).cell(i, j).state);
                                assert(fin.cell(i, j).content == mid.cell(i, j).content);
                            }
                            lemma_reveal_bookkeeping(*old(self), placed, fin, x as int, y as int);
                        }
                        return true;
                    },
                    CellContent::Empty => {
                        self.reveal_adjacent_cells(x, y);
                        proof {
                            lemma_cascade_through(*old(self), mid, *self, x as int, y as int);
                        }
                    },
                    CellContent::Number(_) => {
                        proof {
                            lemma_single_reveal(*old(self), mid, x as int, y as int);
                        }
                    },
                }
                let ghost before_check = *self;
                self.check_win_condition();
                proof {
                    let fin = *self;
                    lemma_same_cells(before_check, fin, *old(self), x as int, y as int);
                    lemma_numbers_kept(before_check, fin);
                    lemma_contents_chain(mid, before_check, fin);
                    lemma_contents_chain(placed, mid, fin);
                    lemma_reveal_bookkeeping(*old(self), placed, fin, x as int, y as int);
                }
                true
            },
            _ => false,
        }
    }

    /// Reveals every neighbour of the empty, revealed cell `(x, y)` that is still hidden.
    fn reveal_adjacent_cells(&mut self, x: usize, y: usize)
        requires
            old(self).wf(),
            !old(self).first_click,
            old(self).game_started,
            old(self).in_bounds(x as int, y as int),
            old(self).cell(x as int, y as int).state is Revealed,
            old(self).cell(x as int, y as int).content is Empty,
        ensures
            final(self).wf(),
            final(self).width == old(self).width,
            final(self).height == old(self).height,
            final(self).mine_count == old(self).mine_count,
            final(self).game_started == old(self).game_started,
            !final(self).first_click,
            final(self).hidden_total() <= old(self).hidden_total(),
            final(self).contents_same(old(self)),
            final(self).states_advanced(old(self)),
            final(self).cascade_from(old(self), x as int, y as int),
            forall|k: int, l: int|
                #[trigger] adjacent(x as int, y as int, k, l) && final(self).in_bounds(k, l)
                    ==> !(final(self).cell(k, l).state is Hidden),
            old(self).game_won ==> final(self).game_won,
            final(self).game_won ==> old(self).game_won || final(self).all_safe_revealed(),
            old(self).game_over ==> final(self).game_over,
            final(self).game_over ==> old(self).game_over || final(self).all_safe_revealed(),
        decreases 2 * old(self).hidden_total() + 2,
    {
        assert(self.linked_by(old(self), x as int, y as int, |i: int, j: int| 0nat));
        let mut dy: usize = 0;
        while dy < 3
            invariant
                0 <= dy <= 3,
                old(self).in_bounds(x as int, y as int),
                old(self).cell(x as int, y as int).state is Revealed,
                old(self).cell(x as int, y as int).content is Empty,
                old(self).wf(),
                !old(self).first_click,
                old(self).game_started,
                self.wf(),
                self.width == old(self).width,
                self.height == old(self).height,
                self.mine_count == old(self).mine_count,
                self.game_started == old(self).game_started,
                !self.first_click,
                self.hidden_total() <= old(self).hidden_total(),
                self.contents_same(old(self)),
                self.states_advanced(old(self)),
                self.cascade_from(old(self), x as int, y as int),
                forall|k: int, l: int|
                    #[trigger] adjacent(x as int, y as int, k, l) && self.in_bounds(k, l) && l < y + dy - 1
                        ==> !(self.cell(k, l).state is Hidden),
                old(self).game_won ==> self.game_won,
                self.game_won ==> old(self).game_won || self.all_safe_revealed(),
                old(self).game_over ==> self.game_over,
                self.game_over ==> old(self).game_over || self.all_safe_revealed(),
            decreases 3 - dy,
        {
            let mut dx: usize = 0;
            while dx < 3
                invariant
                    0 <= dy < 3,
                    0 <= dx <= 3,
                    old(self).in_bounds(x as int, y as int),
                    old(self).cell(x as int, y as int).state is Revealed,
                    old(self).cell(x as int, y as int).content is Empty,
                    old(self).wf(),
                    !old(self).first_click,
                    old(self).game_started,
                    self.wf(),
                    self.width == old(self).width,
                    self.height == old(self).height,
                    self.mine_count == old(self).mine_count,
                    self.game_started == old(self).game_started,
                    !self.first_click,
                    self.hidden_total() <= old(self).hidden_total(),
                    self.contents_same(old(self)),
                    self.states_advanced(old(self)),
                    self.cascade_from(old(self), x as int, y as int),
                    forall|k: int, l: int|
                        #[trigger] adjacent(x as int, y as int, k, l) && self.in_bounds(k, l) && (l < y + dy
                            - 1 || (l == y + dy - 1 && k < x + dx - 1)) ==> !(self.cell(k, l).state is Hidden),
                    old(self).game_won ==> self.game_won,
                    self.game_won ==> old(self).game_won || self.all_safe_revealed(),
                    old(self).game_over ==> self.game_over,
                    self.game_over ==> old(self).game_over || self.all_safe_revealed(),
                decreases 3 - dx,
            {
                if dx != 1 || dy != 1 {
                    if let Some((nx, ny)) = self.neighbour(x, y, dx, dy) {
                        let ghost s0 = *self;
                        proof {
                            assert(adjacent(x as int, y as int, nx as int, ny as int));
                            lemma_empty_has_no_mine_neighbour(
                                *old(self),
                                x as int,
                                y as int,
                                nx as int,
                                ny as int,
                            );
                            assert(s0.cell(nx as int, ny as int).content == old(self).cell(
                                nx as int,
                                ny as int,
                            ).content);
                        }
                        let accepted = self.reveal_cell(nx, ny);
                        proof {
                            let s1 = *self;
                            if accepted {
                                assert(!s1.is_mine(nx as int, ny as int));
                                lemma_cascade_extend(
                                    *old(self),
                                    s0,
                                    s1,
                                    x as int,
                                    y as int,
                                    nx as int,
                                    ny as int,
                                );
                                if s0.game_won || s0.game_over {
                                    if s0.all_safe_revealed() {
                                        lemma_all_safe_stays(s0, s1);
                                    }
                                }
                            }
                            assert(!(s1.cell(nx as int, ny as int).state is Hidden));
                            assert forall|k: int, l: int|
                                #[trigger] adjacent(x as int, y as int, k, l) && s1.in_bounds(k, l) && (l < y
                                    + dy - 1 || (l == y + dy - 1 && k < x + dx)) implies !(s1.cell(
                                k,
                                l,
                            ).state is Hidden) by {
                                if k != nx || l != ny {
                                    assert(!(s0.cell(k, l).state is Hidden));
                                    assert(s1.cell(k, l).state == s1.cell(k, l).state);
                                }
                            }
                        }
                    }
                }
                dx += 1;
            }
            dy += 1;
        }
    }

    /// A board as `new` builds it; with `show_mines` set (a debugging aid) the mines are
    /// placed at once, away from one random cell, so that they can be shown before play.
    pub fn new_with_debug(width: usize, height: usize, mine_count: usize, show_mines: bool) -> (r: Self)
        ensures
            width * height <= usize::MAX ==> r.wf(),
            r.shape_ok(),
            r.width == width,
            r.height == height,
            r.mine_count == mine_count,
            !r.game_over,
            !r.game_won,
            !r.game_started,
            !(show_mines && width > 0 && height > 0) ==> r.is_fresh(
                width as nat,
                height as nat,
                mine_count as nat,
            ),
            show_mines && width > 0 && height > 0 ==> {
                &&& !r.first_click
                &&& r.mine_total() == vstd::math::min(mine_count as int, width * height - 1)
                &&& forall|x: int, y: int|
                    r.in_bounds(x, y) ==> (#[trigger] r.cell(x, y)).state is Hidden
            },
    {
        let mut board = Self::new(width, height, mine_count);
        if show_mines && width > 0 && height > 0 {
            let exclude_x = random_below(width);
            let exclude_y = random_below(height);
            proof {
                lemma_blank_grid_has_no_mine(width as nat, height as nat);
                board.lemma_grid_cell(exclude_x as int, exclude_y as int);
                assert(board.cell(exclude_x as int, exclude_y as int) == Cell::blank());
            }
            board.first_click = false;
            board.place_mines(exclude_x, exclude_y);
            proof {
                assert forall|x: int, y: int| board.in_bounds(x, y) implies (#[trigger] board.cell(
                    x,
                    y,
                )).state is Hidden by {
                    Self::lemma_fresh_cell(width, height, mine_count, x, y);
                }
            }
        }
        board
    }

    proof fn lemma_fresh_cell(width: usize, height: usize, mine_count: usize, x: int, y: int)
        requires
            0 <= x < width,
            0 <= y < height,
        ensures
            blank_grid(width as nat, height as nat)[y][x] == Cell::blank(),
    {
    }

    /// Flags a hidden cell or unflags a flagged one, on a game in progress. Returns `false`,
    /// changing nothing, off the grid, before the game starts, once it is over, or on a
    /// revealed cell.
    pub fn toggle_flag(&mut self, x: usize, y: usize) -> (r: bool)
        requires
            old(self).wf(),
        ensures
            final(self).wf(),
            final(self).flag_toggle_result(old(self), x as int, y as int, r),
    {
        if x >= self.width || y >= self.height || self.game_over || !self.game_started {
            return false;
        }
        proof {
            self.lemma_grid_cell(x as int, y as int);
        }
        let cell = self.board[y][x];
        match cell.state {
            CellState::Hidden => {
                self.set_cell(x, y, Cell { state: CellState::Flagged, content: cell.content });
            },
            CellState::Flagged => {
                self.set_cell(x, y, Cell { state: CellState::Hidden, content: cell.content });
            },
            _ => {
                return false;
            },
        }
        proof {
            assert(self.contents_same(old(self)));
            if !self.first_click {
                lemma_numbers_kept(*old(self), *self);
            }
        }
        true
    }

    /// Clears the board for a new game of the same size and mine count.
    pub fn reset(&mut self)
        requires
            old(self).shape_ok(),
        ensures
            old(self).size_fits() ==> final(self).wf(),
            final(self).is_fresh(old(self).width as nat, old(self).height as nat, old(self).mine_count as nat),
    {
        self.board = Self::blank_rows(self.width, self.height);
        self.game_over = false;
        self.game_won = false;
        self.first_click = true;
        self.game_started = false;
        proof {
            self.lemma_blank_cells();
        }
    }

    /// Starts the game: reveals and flags are accepted from now on.
    pub fn start_game(&mut self)
        requires
            old(self).wf(),
        ensures
            final(self).wf(),
            final(self).game_started,
            final(self).board == old(self).board,
            forall|x: int, y: int| #[trigger] final(self).cell(x, y) == old(self).cell(x, y),
            final(self).width == old(self).width,
            final(self).height == old(self).height,
            final(self).mine_count == old(self).mine_count,
            final(self).game_over == old(self).game_over,
            final(self).game_won == old(self).game_won,
            final(self).first_click == old(self).first_click,
    {
        self.game_started = true;
        proof {
            if !self.first_click {
                lemma_numbers_kept(*old(self), *self);
            }
        }
    }

    /// Writes one cell.
    fn set_cell(&mut self, x: usize, y: usize, c: Cell)
        requires
            old(self).shape_ok(),
            old(self).in_bounds(x as int, y as int),
        ensures
            final(self).shape_ok(),
            final(self).same_settings(old(self)),
            final(self).grid() == old(self).grid().update(
                y as int,
                old(self).grid()[y as int].update(x as int, c),
            ),
            forall|i: int, j: int|
                final(self).in_bounds(i, j) ==> #[trigger] final(self).cell(i, j) == if i == x && j
                    == y {
                    c
                } else {
                    old(self).cell(i, j)
                },
    {
        proof {
            self.lemma_grid_cell(x as int, y as int);
        }
        self.board[y][x] = c;
        assert(self.grid() =~= old(self).grid().update(
            y as int,
            old(self).grid()[y as int].update(x as int, c),
        ));
        assert forall|j: int| 0 <= j < self.height implies #[trigger] self.board@[j]@.len()
            == self.width by {
            assert(old(self).board@[j]@.len() == self.width);
        }
    }
}

} // verus!
