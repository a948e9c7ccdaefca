//! Percolation on a square grid, decided with a disjoint-set structure.
//!
//! Every square of an `L` by `L` grid is black or white.  Two white squares
//! are neighbours when they share a side.  Whenever a square is turned white
//! it is united with its white neighbours, so that asking whether some white
//! square of the first row is connected to some white square of the last row
//! takes nothing but queries to the structure.
//!
//! The structure knows nothing of the grid: squares are mapped to the dense
//! indices `0..L*L` before it is asked anything.

use vstd::prelude::*;
use crate::union_find::Node;
use crate::union_find::balance::{balanced, labels};
use crate::union_find::partition::{
    joined,
    lemma_same_partition_is_equivalence,
    lemma_unites_tracks_merge_all,
    merge_all,
    same_partition,
    unites,
};
use crate::union_find::pc_quick_union;

verus! {

/// The side of the grid.
pub const L: usize = 20;

/// The number of squares of the grid.
pub const CELLS: usize = 400;

/// The colour of one square.
#[derive(Debug, Copy, Clone, PartialEq, Eq, Structural)]
pub enum Square {
    White,
    Black,
}

/// One row of squares.
#[derive(Copy, Clone)]
pub struct Row {
    pub sqs: [Square; L],
}

/// The grid, row by row.
#[derive(Copy, Clone)]
pub struct Grid {
    pub rows: [Row; L],
}

/// The position of a square: its row, then its place in the row.
#[derive(Debug, Copy, Clone, PartialEq, Eq, Structural)]
pub struct Coords(pub usize, pub usize);

/// The four sides of a square.
#[derive(Debug, Copy, Clone, PartialEq, Eq, Structural)]
pub enum Dir {
    Left,
    Right,
    Up,
    Down,
}

impl Coords {
    /// The position lies on the grid.
    pub open spec fn inside(self) -> bool {
        self.0 < L && self.1 < L
    }

    /// The dense index of the position.
    pub open spec fn idx(self) -> int {
        self.0 + self.1 * L
    }

    /// The position one step away in direction `dir`, or the position itself
    /// where the grid ends.
    pub open spec fn step(self, dir: Dir) -> Coords {
        match dir {
            Dir::Left => if self.0 == 0 {
                self
            } else {
                Coords((self.0 - 1) as usize, self.1)
            },
            Dir::Right => if self.0 == L - 1 {
                self
            } else {
                Coords((self.0 + 1) as usize, self.1)
            },
            Dir::Up => if self.1 == 0 {
                self
            } else {
                Coords(self.0, (self.1 - 1) as usize)
            },
            Dir::Down => if self.1 == L - 1 {
                self
            } else {
                Coords(self.0, (self.1 + 1) as usize)
            },
        }
    }
}

impl Grid {
    /// The colour of the square at `coords`.
    pub open spec fn color(self, coords: Coords) -> Square {
        self.rows[coords.0 as int].sqs[coords.1 as int]
    }

    /// The square at `coords` is white.
    pub open spec fn white(self, coords: Coords) -> bool {
        self.color(coords) == Square::White
    }

    /// `other` differs from this grid in that the square at `coords` is
    /// white, and in nothing else.
    pub open spec fn whitened(self, coords: Coords, other: Grid) -> bool {
        &&& other.white(coords)
        &&& forall|c: Coords| c.inside() && c != coords ==> other.color(c) == self.color(c)
    }

    /// A grid of black squares.
    pub fn new() -> (grid: Grid)
        ensures
            forall|c: Coords| c.inside() ==> !grid.white(c),
    {
        Grid { rows: [Row { sqs: [Square::Black; L] }; L] }
    }
}

/// Whether the colour is white.
pub fn is_white(sq: Square) -> (r: bool)
    ensures
        r == (sq == Square::White),
{
    match sq {
        Square::White => true,
        Square::Black => false,
    }
}

/// The neighbour of `c` in direction `dir`; at the border of the grid, `c`
/// itself.
pub fn neighbour(c: &Coords, dir: &Dir) -> (r: Coords)
    requires
        c.inside(),
    ensures
        r == c.step(*dir),
        r.inside(),
{
    let bound = L - 1;
    let coords = *c;
    match *dir {
        Dir::Left => if coords.0 == 0 {
            coords
        } else {
            Coords(coords.0 - 1, coords.1)
        },
        Dir::Right => if coords.0 == bound {
            coords
        } else {
            Coords(coords.0 + 1, coords.1)
        },
        Dir::Up => if coords.1 == 0 {
            coords
        } else {
            Coords(coords.0, coords.1 - 1)
        },
        Dir::Down => if coords.1 == bound {
            coords
        } else {
            Coords(coords.0, coords.1 + 1)
        },
    }
}

/// The colour of the square at `coords`.
pub fn get_color(grid: &Grid, coords: &Coords) -> (sq: Square)
    requires
        coords.inside(),
    ensures
        sq == grid.color(*coords),
{
    grid.rows[coords.0].sqs[coords.1]
}

/// Turns the square at `coords` white.
pub fn set_white(grid: &mut Grid, coords: &Coords)
    requires
        coords.inside(),
    ensures
        old(grid).whitened(*coords, *final(grid)),
{
    grid.rows[coords.0].sqs[coords.1] = Square::White;
}

/// The dense index of the square at `coords`.  Different squares of the grid
/// have different indices, and every index below `L*L` is taken.
pub fn coord_to_idx(coords: &Coords) -> (out: usize)
    requires
        coords.idx() < L * L,
    ensures
        out == coords.idx(),
        out < CELLS,
{
    coords.0 + coords.1 * L
}

/// On the grid the dense index is a bijection onto `0..L*L`.
pub proof fn lemma_idx_is_bijective(a: Coords, b: Coords, k: int)
    requires
        a.inside(),
        b.inside(),
    ensures
        0 <= a.idx() < CELLS,
        a.idx() == b.idx() ==> a == b,
        0 <= k < CELLS ==> Coords((k % 20) as usize, (k / 20) as usize).inside() && Coords(
            (k % 20) as usize,
            (k / 20) as usize,
        ).idx() == k,
{
}

/// The merges that turning `coords` white asks for so far: `pairs`, and one
/// more if the neighbour in direction `dir` is white.
pub open spec fn extend(pairs: Seq<(int, int)>, grid: Grid, coords: Coords, dir: Dir) -> Seq<
    (int, int),
> {
    if grid.white(coords.step(dir)) {
        pairs.push((coords.idx(), coords.step(dir).idx()))
    } else {
        pairs
    }
}

/// The merges that turning `coords` white asks for: one with each white
/// neighbour, looking left, right, up and down in that order.
pub open spec fn white_links(grid: Grid, coords: Coords) -> Seq<(int, int)> {
    extend(
        extend(
            extend(extend(Seq::empty(), grid, coords, Dir::Left), grid, coords, Dir::Right),
            grid,
            coords,
            Dir::Up,
        ),
        grid,
        coords,
        Dir::Down,
    )
}

/// Unites the square at `coords` with its neighbour in direction `dir` if
/// that neighbour is white.
fn join_neighbour(grid: &Grid, sets: &mut [Node], coords: &Coords, dir: &Dir)
    requires
        coords.inside(),
        old(sets)@.len() == CELLS,
        balanced(old(sets)@),
    ensures
        final(sets)@.len() == CELLS,
        balanced(final(sets)@),
        grid.white(coords.step(*dir)) ==> unites(
            labels(old(sets)@),
            labels(final(sets)@),
            coords.idx(),
            coords.step(*dir).idx(),
        ),
        !grid.white(coords.step(*dir)) ==> final(sets)@ == old(sets)@,
{
    let idx = coord_to_idx(coords);
    let d_coords = neighbour(coords, dir);
    match get_color(grid, &d_coords) {
        Square::White => {
            pc_quick_union::union(sets, idx, coord_to_idx(&d_coords));
        },
        Square::Black => (),
    }
}

/// Turns the square at `coords` white and unites it with each of its white
/// neighbours, so that grid and structure stay in step.
pub fn set_sym_white(grid: &mut Grid, sets: &mut [Node], coords: &Coords)
    requires
        coords.inside(),
        old(sets)@.len() == CELLS,
        balanced(old(sets)@),
    ensures
        old(grid).whitened(*coords, *final(grid)),
        final(sets)@.len() == CELLS,
        balanced(final(sets)@),
        same_partition(
            labels(final(sets)@),
            merge_all(labels(old(sets)@), white_links(*final(grid), *coords)),
        ),
{
    set_white(grid, coords);
    let ghost start = labels(sets@);
    let ghost none = Seq::<(int, int)>::empty();
    proof {
        lemma_same_partition_is_equivalence(start, start, start);
    }
    let ghost at_start = sets@;
    join_neighbour(grid, sets, coords, &Dir::Left);
    let ghost after_left = extend(none, *grid, *coords, Dir::Left);
    proof {
        lemma_extended(start, none, *grid, *coords, Dir::Left, labels(at_start), labels(sets@));
    }
    let ghost at_left = sets@;
    join_neighbour(grid, sets, coords, &Dir::Right);
    let ghost after_right = extend(after_left, *grid, *coords, Dir::Right);
    proof {
        lemma_extended(start, after_left, *grid, *coords, Dir::Right, labels(at_left), labels(sets@));
    }
    let ghost at_right = sets@;
    join_neighbour(grid, sets, coords, &Dir::Up);
    let ghost after_up = extend(after_right, *grid, *coords, Dir::Up);
    proof {
        lemma_extended(start, after_right, *grid, *coords, Dir::Up, labels(at_right), labels(sets@));
    }
    let ghost at_up = sets@;
    join_neighbour(grid, sets, coords, &Dir::Down);
    proof {
        lemma_extended(start, after_up, *grid, *coords, Dir::Down, labels(at_up), labels(sets@));
    }
}

proof fn lemma_extended(
    start: Seq<int>,
    pairs: Seq<(int, int)>,
    grid: Grid,
    coords: Coords,
    dir: Dir,
    before: Seq<int>,
    after: Seq<int>,
)
    requires
        coords.inside(),
        start.len() == CELLS,
        crate::union_find::partition::pairs_within(pairs, CELLS as nat),
        same_partition(before, merge_all(start, pairs)),
        grid.white(coords.step(dir)) ==> unites(
            before,
            after,
            coords.idx(),
            coords.step(dir).idx(),
        ),
        !grid.white(coords.step(dir)) ==> after == before,
    ensures
        crate::union_find::partition::pairs_within(
            extend(pairs, grid, coords, dir),
            CELLS as nat,
        ),
        same_partition(after, merge_all(start, extend(pairs, grid, coords, dir))),
{
    if grid.white(coords.step(dir)) {
        let next = extend(pairs, grid, coords, dir);
        assert(next.drop_last() =~= pairs);
        lemma_unites_tracks_merge_all(start, next, before, after);
    }
}

/// Some white square of the first row and some white square of the last row
/// belong to the same group of `labels`.
pub open spec fn spans(grid: Grid, labels: Seq<int>) -> bool {
    exists|i: int, j: int|
        0 <= i < L && 0 <= j < L && #[trigger] grid.white(Coords(0, i as usize))
            && #[trigger] grid.white(Coords((L - 1) as usize, j as usize)) && joined(
            labels,
            Coords(0, i as usize).idx(),
            Coords((L - 1) as usize, j as usize).idx(),
        )
}

/// Whether the grid percolates: whether any white square of the first row is
/// connected to any white square of the last row.  A single such pair is
/// enough.  The structure may compress its paths but keeps its partition.
pub fn percolates(grid: &Grid, sets: &mut [Node]) -> (out: bool)
    requires
        old(sets)@.len() == CELLS,
        balanced(old(sets)@),
    ensures
        out == spans(*grid, labels(old(sets)@)),
        final(sets)@.len() == CELLS,
        balanced(final(sets)@),
        labels(final(sets)@) == labels(old(sets)@),
{
    let ghost start = labels(sets@);
    let mut out = false;
    let mut i: usize = 0;
    while i < L && !out
        invariant
            i <= L,
            sets@.len() == CELLS,
            balanced(sets@),
            labels(sets@) == start,
            out ==> spans(*grid, start),
            !out ==> forall|a: int, b: int|
                0 <= a < i && 0 <= b < L && #[trigger] grid.white(Coords(0, a as usize))
                    && #[trigger] grid.white(Coords((L - 1) as usize, b as usize)) ==> !joined(
                    start,
                    Coords(0, a as usize).idx(),
                    Coords((L - 1) as usize, b as usize).idx(),
                ),
        decreases L - i, if out { 0int } else { 1int },
    {
        let top_coords = Coords(0, i);
        match get_color(grid, &top_coords) {
            Square::White => {
                let mut j: usize = 0;
                while j < L && !out
                    invariant
                        i < L,
                        j <= L,
                        top_coords == Coords(0, i),
                        grid.white(top_coords),
                        sets@.len() == CELLS,
                        balanced(sets@),
                        labels(sets@) == start,
                        out ==> spans(*grid, start),
                        !out ==> forall|b: int|
                            0 <= b < j && #[trigger] grid.white(
                                Coords((L - 1) as usize, b as usize),
                            ) ==> !joined(
                                start,
                                top_coords.idx(),
                                Coords((L - 1) as usize, b as usize).idx(),
                            ),
                    decreases L - j, if out { 0int } else { 1int },
                {
                    let low_coords = Coords(L - 1, j);
                    let top_idx = coord_to_idx(&top_coords);
                    let low_idx = coord_to_idx(&low_coords);
                    match get_color(grid, &low_coords) {
                        Square::White => if pc_quick_union::connected(sets, top_idx, low_idx) {
                            out = true;
                            proof {
                                let a = i as int;
                                let b = j as int;
                                assert(grid.white(Coords(0, a as usize)));
                                assert(grid.white(Coords((L - 1) as usize, b as usize)));
                            }
                        },
                        Square::Black => (),
                    }
                    if !out {
                        j = j + 1;
                    }
                }
            },
            Square::Black => (),
        }
        if !out {
            i = i + 1;
        }
    }
    out
}

/// A run of the experiment: a grid, the structure that mirrors it, and the
/// number of squares that have been opened.
pub struct Simulation {
    pub grid: Grid,
    pub sets: Vec<Node>,
    pub opened: usize,
}

impl Simulation {
    /// Grid and structure have the same number of squares, and the structure
    /// is balanced.
    pub open spec fn wf(&self) -> bool {
        &&& self.sets@.len() == CELLS
        &&& balanced(self.sets@)
    }

    /// A black grid over singleton groups.
    pub fn new() -> (sim: Simulation)
        ensures
            sim.wf(),
            sim.opened == 0,
            forall|c: Coords| c.inside() ==> !sim.grid.white(c),
            labels(sim.sets@) == crate::union_find::partition::singletons(CELLS as nat),
    {
        Simulation { grid: Grid::new(), sets: pc_quick_union::new(CELLS), opened: 0 }
    }

    /// Whether the square at `coords` can still be opened: whether it is not
    /// white yet.
    pub fn is_candidate(&self, coords: &Coords) -> (r: bool)
        requires
            coords.inside(),
        ensures
            r == !self.grid.white(*coords),
    {
        !is_white(get_color(&self.grid, coords))
    }

    /// Opens the square at `coords` and says whether the run is over: whether
    /// the grid percolates now, or as many squares as the grid has had been
    /// opened before this one.
    pub fn open(&mut self, coords: &Coords) -> (done: bool)
        requires
            old(self).wf(),
            coords.inside(),
            old(self).opened < usize::MAX,
        ensures
            final(self).wf(),
            final(self).opened == old(self).opened + 1,
            old(self).grid.whitened(*coords, final(self).grid),
            same_partition(
                labels(final(self).sets@),
                merge_all(labels(old(self).sets@), white_links(final(self).grid, *coords)),
            ),
            done == (spans(final(self).grid, labels(final(self).sets@)) || old(self).opened
                == CELLS),
    {
        set_sym_white(&mut self.grid, self.sets.as_mut_slice(), coords);
        let perco = percolates(&self.grid, self.sets.as_mut_slice());
        let done = perco || self.opened == L * L;
        self.opened = self.opened + 1;
        done
    }
}

} // verus!
