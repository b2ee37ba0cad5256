//! The tiles of the vacuum world and the world itself: a grid of tiles, the
//! position of the vacuum, and the dirt that is left.

use vstd::prelude::*;
use vstd::string::StringExecFns;
use crate::text::{chars_of, decimal, push_decimal, texts};

verus! {

/// What a tile holds.
#[derive(Debug, PartialEq, Eq, Structural, Copy, Clone, Hash)]
pub enum TileState {
    Clean,
    Dirty,
    Blocked,
}

/// What the vacuum can do.
#[derive(Debug, PartialEq, Eq, Structural, Copy, Clone)]
pub enum Action {
    Vacuum,
    West,
    South,
    East,
    North,
}

/// A tile: its state and the cost of entering it.
#[derive(PartialEq, Eq, Structural, Copy, Clone, Hash)]
pub struct Tile {
    state: TileState,
    g: u32,
}

impl Tile {
    /// The state of the tile.
    pub closed spec fn state(&self) -> TileState {
        self.state
    }

    /// The cost of the tile.
    pub closed spec fn cost(&self) -> u32 {
        self.g
    }

    /// A tile in state `state` with cost `cost`.
    pub fn new(state: TileState, cost: u32) -> (tile: Tile)
        ensures
            tile.state() == state,
            tile.cost() == cost,
    {
        Tile { state: state, g: cost }
    }

    /// Puts the tile into state `state`; its cost stays.
    pub fn set_state(&mut self, state: TileState)
        ensures
            final(self).state() == state,
            final(self).cost() == old(self).cost(),
    {
        self.state = state;
    }

    /// The state of the tile.
    pub fn get_state(&self) -> (state: TileState)
        ensures
            state == self.state(),
    {
        self.state
    }

    /// The cost of the tile.
    pub fn get_cost(&self) -> (cost: u32)
        ensures
            cost == self.cost(),
    {
        self.g
    }
}

/// The number of dirty tiles in a row.
pub open spec fn row_dirt(row: Seq<TileState>) -> nat
    decreases row.len(),
{
    if row.len() == 0 {
        0
    } else {
        row_dirt(row.drop_last()) + if row.last() is Dirty {
            1nat
        } else {
            0nat
        }
    }
}

/// The number of dirty tiles in a grid.
pub open spec fn grid_dirt(grid: Seq<Seq<TileState>>) -> nat
    decreases grid.len(),
{
    if grid.len() == 0 {
        0
    } else {
        grid_dirt(grid.drop_last()) + row_dirt(grid.last())
    }
}

/// Changing one tile of a row changes its dirt by that tile alone.
pub proof fn lemma_row_dirt_update(row: Seq<TileState>, c: int, s: TileState)
    requires
        0 <= c < row.len(),
    ensures
        row_dirt(row.update(c, s)) + (if row[c] is Dirty {
            1nat
        } else {
            0nat
        }) == row_dirt(row) + (if s is Dirty {
            1nat
        } else {
            0nat
        }),
    decreases row.len(),
{
    let changed = row.update(c, s);
    if c == row.len() - 1 {
        assert(changed.drop_last() =~= row.drop_last());
    } else {
        assert(changed.drop_last() =~= row.drop_last().update(c, s));
        lemma_row_dirt_update(row.drop_last(), c, s);
    }
}

/// Changing one row of a grid changes its dirt by that row alone.
pub proof fn lemma_grid_dirt_update(grid: Seq<Seq<TileState>>, r: int, row: Seq<TileState>)
    requires
        0 <= r < grid.len(),
    ensures
        grid_dirt(grid.update(r, row)) + row_dirt(grid[r]) == grid_dirt(grid) + row_dirt(row),
    decreases grid.len(),
{
    let changed = grid.update(r, row);
    if r == grid.len() - 1 {
        assert(changed.drop_last() =~= grid.drop_last());
    } else {
        assert(changed.drop_last() =~= grid.drop_last().update(r, row));
        lemma_grid_dirt_update(grid.drop_last(), r, row);
    }
}

/// A row holds no more dirt than tiles, and none exactly where no tile is dirty.
pub proof fn lemma_row_dirt_bounds(row: Seq<TileState>)
    ensures
        row_dirt(row) <= row.len(),
        row_dirt(row) == 0 <==> forall|c: int| 0 <= c < row.len() ==> !(row[c] is Dirty),
    decreases row.len(),
{
    if row.len() > 0 {
        lemma_row_dirt_bounds(row.drop_last());
        if row_dirt(row) == 0 {
            assert forall|c: int| 0 <= c < row.len() implies !(row[c] is Dirty) by {
                if c < row.len() - 1 {
                    assert(row.drop_last()[c] == row[c]);
                }
            }
        } else {
            if row.last() is Dirty {
            } else {
                let c = choose|c: int| 0 <= c < row.len() - 1 && row.drop_last()[c] is Dirty;
                assert(row[c] is Dirty);
            }
        }
    }
}

/// A grid of `rows` rows of `columns` tiles holds no more dirt than tiles, and
/// none exactly where no tile is dirty.
pub proof fn lemma_grid_dirt_bounds(grid: Seq<Seq<TileState>>, columns: nat)
    requires
        forall|r: int| 0 <= r < grid.len() ==> (#[trigger] grid[r]).len() == columns,
    ensures
        grid_dirt(grid) <= grid.len() * columns,
        grid_dirt(grid) == 0 <==> forall|r: int, c: int|
            0 <= r < grid.len() && 0 <= c < columns ==> !(#[trigger] grid[r][c] is Dirty),
    decreases grid.len(),
{
    if grid.len() > 0 {
        let rest = grid.drop_last();
        assert forall|r: int| 0 <= r < rest.len() implies (#[trigger] rest[r]).len() == columns by {
            assert(rest[r] == grid[r]);
        }
        lemma_grid_dirt_bounds(rest, columns);
        lemma_row_dirt_bounds(grid.last());
        assert(grid.len() * columns == rest.len() * columns + columns) by (nonlinear_arith)
            requires
                grid.len() == rest.len() + 1,
        ;
        if grid_dirt(grid) == 0 {
            assert forall|r: int, c: int|
                0 <= r < grid.len() && 0 <= c < columns implies !(#[trigger] grid[r][c]
                is Dirty) by {
                if r < grid.len() - 1 {
                    assert(rest[r] == grid[r]);
                    assert(!(rest[r][c] is Dirty));
                }
            }
        } else {
            if row_dirt(grid.last()) != 0 {
                let c = choose|c: int| 0 <= c < grid.last().len() && grid.last()[c] is Dirty;
                assert(grid[grid.len() - 1][c] is Dirty);
            } else {
                let (r, c) = choose|r: int, c: int|
                    0 <= r < rest.len() && 0 <= c < columns && (#[trigger] rest[r][c] is Dirty);
                assert(grid[r][c] is Dirty);
            }
        }
    }
}

/// `x + 1` in a `u32`, wrapping around at the top.
pub open spec fn up(x: u32) -> u32 {
    if x == u32::MAX {
        0
    } else {
        (x + 1) as u32
    }
}

/// The action that takes a move back.
pub open spec fn opposite(a: Action) -> Action {
    match a {
        Action::Vacuum => Action::Vacuum,
        Action::North => Action::South,
        Action::South => Action::North,
        Action::East => Action::West,
        Action::West => Action::East,
    }
}

/// The abstract value of a world.
pub struct WorldView {
    /// The states of the tiles, row by row; row 0 is the northernmost.
    pub tiles: Seq<Seq<TileState>>,
    /// The number of rows that the world was made for.
    pub rows: nat,
    /// The number of columns that the world was made for.
    pub columns: nat,
    /// The number of dirty tiles, as the world counts them.
    pub dirt: nat,
    /// The row of the vacuum.
    pub row: nat,
    /// The column of the vacuum.
    pub col: nat,
    /// The cost of the actions so far; it wraps around.
    pub cost: u32,
    /// The estimated cost that is left.
    pub estimate: u32,
    /// The last action that was tried.
    pub prev_action: Option<Action>,
}

impl WorldView {
    /// The grid has the size it was made for, the vacuum stands on a tile that
    /// is not blocked, and the dirt count is right.
    pub open spec fn well_formed(self) -> bool {
        &&& self.tiles.len() == self.rows
        &&& forall|r: int| 0 <= r < self.rows ==> (#[trigger] self.tiles[r]).len() == self.columns
        &&& self.row < self.rows
        &&& self.col < self.columns
        &&& !(self.tiles[self.row as int][self.col as int] is Blocked)
        &&& self.dirt == grid_dirt(self.tiles)
        &&& self.rows * self.columns <= u32::MAX
    }

    /// The world with the tile at (`r`, `c`) in state `s`.
    pub open spec fn with_tile(self, r: int, c: int, s: TileState) -> WorldView {
        WorldView { tiles: self.tiles.update(r, self.tiles[r].update(c, s)), ..self }
    }

    /// Whether action `a` can be performed: there is dirt to vacuum, or the
    /// neighbouring tile exists and is not blocked.
    #[verifier::opaque]
    pub open spec fn can(self, a: Action) -> bool {
        let r = self.row as int;
        let c = self.col as int;
        match a {
            Action::Vacuum => self.tiles[r][c] is Dirty,
            Action::North => r != 0 && !(self.tiles[r - 1][c] is Blocked),
            Action::South => r != self.rows - 1 && !(self.tiles[r + 1][c] is Blocked),
            Action::East => c != self.columns - 1 && !(self.tiles[r][c + 1] is Blocked),
            Action::West => c != 0 && !(self.tiles[r][c - 1] is Blocked),
        }
    }

    /// What action `a` does to tiles, vacuum and dirt where it can be performed.
    #[verifier::opaque]
    pub open spec fn moved(self, a: Action) -> WorldView {
        match a {
            Action::Vacuum => WorldView {
                dirt: (self.dirt - 1) as nat,
                ..self.with_tile(self.row as int, self.col as int, TileState::Clean)
            },
            Action::North => WorldView { row: (self.row - 1) as nat, ..self },
            Action::South => WorldView { row: self.row + 1, ..self },
            Action::East => WorldView { col: self.col + 1, ..self },
            Action::West => WorldView { col: (self.col - 1) as nat, ..self },
        }
    }

    /// The world after `do_action(a)`: the action is recorded as the last one
    /// tried; where it can be performed it is, at a cost of one.
    #[verifier::opaque]
    pub open spec fn after_do(self, a: Action) -> WorldView {
        if self.can(a) {
            WorldView { cost: up(self.cost), prev_action: Some(a), ..self.moved(a) }
        } else {
            WorldView { prev_action: Some(a), ..self }
        }
    }

    /// Whether `undo_action(a)` succeeds: the tile under the vacuum is clean
    /// and can be made dirty again, or the move back can be performed.
    #[verifier::opaque]
    pub open spec fn can_undo(self, a: Action) -> bool {
        match a {
            Action::Vacuum => self.tiles[self.row as int][self.col as int] is Clean,
            _ => self.can(opposite(a)),
        }
    }

    /// The world after `undo_action(a)`. Undoing a vacuuming makes the clean
    /// tile under the vacuum dirty again, at a cost of one. Undoing a move
    /// costs one and then performs the opposite move as `do_action` does.
    #[verifier::opaque]
    pub open spec fn after_undo(self, a: Action) -> WorldView {
        match a {
            Action::Vacuum => if self.can_undo(a) {
                WorldView {
                    dirt: self.dirt + 1,
                    cost: up(self.cost),
                    ..self.with_tile(self.row as int, self.col as int, TileState::Dirty)
                }
            } else {
                self
            },
            _ => (WorldView { cost: up(self.cost), ..self }).after_do(opposite(a)),
        }
    }

    /// The world after `test_undo(a)`: as `after_undo`, but a move back is made
    /// without being recorded as an action, at a cost of one.
    #[verifier::opaque]
    pub open spec fn after_test_undo(self, a: Action) -> WorldView {
        match a {
            Action::Vacuum => self.after_undo(a),
            _ => if self.can(opposite(a)) {
                WorldView { cost: up(self.cost), ..self.moved(opposite(a)) }
            } else {
                self
            },
        }
    }

    /// Two worlds are alike if the vacuum stands at one place in both and as
    /// much dirt is left.
    pub open spec fn alike(self, other: WorldView) -> bool {
        self.row == other.row && self.col == other.col && self.dirt == other.dirt
    }

    /// No dirt is left.
    pub open spec fn solved(self) -> bool {
        self.dirt == 0
    }
}

/// The vacuum world.
pub struct World {
    tiles: Vec<Vec<Tile>>,
    rows: usize,
    columns: usize,
    total_dirt: u32,
    vac_row: usize,
    vac_col: usize,
    g: u32,
    h: u32,
    /// The last action that was tried.
    pub prev_action: Option<Action>,
}

/// The states of a row of tiles.
pub closed spec fn states_of(row: Seq<Tile>) -> Seq<TileState> {
    Seq::new(row.len(), |c: int| row[c].state)
}

impl View for World {
    type V = WorldView;

    closed spec fn view(&self) -> WorldView {
        WorldView {
            tiles: Seq::new(self.tiles.len() as nat, |r: int| states_of(self.tiles[r]@)),
            rows: self.rows as nat,
            columns: self.columns as nat,
            dirt: self.total_dirt as nat,
            row: self.vac_row as nat,
            col: self.vac_col as nat,
            cost: self.g,
            estimate: self.h,
            prev_action: self.prev_action,
        }
    }
}

impl World {
    /// A world made for `r` rows and `c` columns, without tiles yet.
    pub fn new(r: usize, c: usize) -> (world: World)
        ensures
            world@ == (WorldView {
                tiles: Seq::empty(),
                rows: r as nat,
                columns: c as nat,
                dirt: 0,
                row: 0,
                col: 0,
                cost: 0,
                estimate: 0,
                prev_action: None,
            }),
    {
        let world = World {
            tiles: Vec::with_capacity(r),
            rows: r,
            columns: c,
            total_dirt: 0,
            vac_row: 0,
            vac_col: 0,
            g: 0,
            h: 0,
            prev_action: None,
        };
        assert(world@.tiles =~= Seq::<Seq<TileState>>::empty());
        world
    }

    /// The last action that was tried.
    pub fn last_action(&self) -> (a: Option<Action>)
        ensures
            a == self@.prev_action,
    {
        self.prev_action
    }

    /// Records `a` as the last action that was tried.
    pub fn set_last_action(&mut self, a: Option<Action>)
        ensures
            final(self)@ == (WorldView { prev_action: a, ..old(self)@ }),
    {
        self.prev_action = a;
        assert(self@.tiles =~= old(self)@.tiles);
    }

    /// The place of the vacuum: its row and its column.
    pub fn position(&self) -> (place: (usize, usize))
        ensures
            place.0 == self@.row,
            place.1 == self@.col,
    {
        (self.vac_row, self.vac_col)
    }

    /// The number of dirty tiles that are left.
    pub fn dirt(&self) -> (dirt: u32)
        ensures
            dirt == self@.dirt,
    {
        self.total_dirt
    }

    /// The cost of the actions so far.
    pub fn cost(&self) -> (cost: u32)
        ensures
            cost == self@.cost,
    {
        self.g
    }

    /// Is the world clean?
    pub fn is_solved(&self) -> (solved: bool)
        ensures
            solved == self@.solved(),
    {
        self.total_dirt == 0
    }

    fn set_tile_state(&mut self, r: usize, c: usize, s: TileState)
        requires
            r < old(self)@.tiles.len(),
            c < old(self)@.tiles[r as int].len(),
        ensures
            final(self)@ == old(self)@.with_tile(r as int, c as int, s),
    {
        self.tiles[r][c].set_state(s);
        proof {
            assert(self@.tiles[r as int] =~= old(self)@.tiles[r as int].update(c as int, s));
            assert(self@.tiles =~= old(self)@.with_tile(r as int, c as int, s).tiles);
        }
    }

    fn get_tile_state(&self, r: usize, c: usize) -> (s: TileState)
        requires
            r < self@.tiles.len(),
            c < self@.tiles[r as int].len(),
        ensures
            s == self@.tiles[r as int][c as int],
    {
        self.tiles[r][c].state
    }
}

impl WorldView {
    /// The world after action `a` was tried and, where it could be performed,
    /// undone again: that is how `expand` finds out what can be done.
    pub open spec fn tried(self, a: Action) -> WorldView {
        if self.can(a) {
            self.after_do(a).after_undo(a)
        } else {
            self.after_do(a)
        }
    }

    /// The actions that can be performed, in the order in which they are
    /// tried: vacuum, west, south, east, north.
    pub open spec fn options(self) -> Seq<Action> {
        let v = if self.can(Action::Vacuum) {
            seq![Action::Vacuum]
        } else {
            Seq::empty()
        };
        let w = if self.can(Action::West) {
            v.push(Action::West)
        } else {
            v
        };
        let s = if self.can(Action::South) {
            w.push(Action::South)
        } else {
            w
        };
        let e = if self.can(Action::East) {
            s.push(Action::East)
        } else {
            s
        };
        if self.can(Action::North) {
            e.push(Action::North)
        } else {
            e
        }
    }

    /// The world after its actions were listed: each was tried in turn, and the
    /// last action tried is put back as it was.
    pub open spec fn expanded(self) -> WorldView {
        WorldView {
            prev_action: self.prev_action,
            ..self.tried(Action::Vacuum).tried(Action::West).tried(Action::South).tried(
                Action::East,
            ).tried(Action::North)
        }
    }

    /// Tiles, vacuum and dirt are the same in both worlds.
    pub open spec fn same_place(self, other: WorldView) -> bool {
        &&& self.tiles == other.tiles
        &&& self.rows == other.rows
        &&& self.columns == other.columns
        &&& self.row == other.row
        &&& self.col == other.col
        &&& self.dirt == other.dirt
    }
}

/// An action keeps the world well formed.
pub proof fn lemma_do_well_formed(w: WorldView, a: Action)
    requires
        w.well_formed(),
    ensures
        w.after_do(a).well_formed(),
{
    reveal(WorldView::can);
    reveal(WorldView::moved);
    reveal(WorldView::after_do);
    reveal(WorldView::can_undo);
    reveal(WorldView::after_undo);
    reveal(WorldView::after_test_undo);
    if w.can(a) && a is Vacuum {
        let r = w.row as int;
        let c = w.col as int;
        let next = w.after_do(a);
        lemma_row_dirt_update(w.tiles[r], c, TileState::Clean);
        lemma_grid_dirt_update(w.tiles, r, w.tiles[r].update(c, TileState::Clean));
        assert forall|q: int| 0 <= q < next.rows implies (#[trigger] next.tiles[q]).len()
            == next.columns by {
            assert(w.tiles[q].len() == w.columns);
        }
    }
}

/// Undoing keeps the world well formed.
pub proof fn lemma_undo_well_formed(w: WorldView, a: Action)
    requires
        w.well_formed(),
    ensures
        w.after_undo(a).well_formed(),
        w.after_test_undo(a).well_formed(),
        a is Vacuum && w.can_undo(a) ==> w.dirt < u32::MAX,
{
    reveal(WorldView::can);
    reveal(WorldView::moved);
    reveal(WorldView::after_do);
    reveal(WorldView::can_undo);
    reveal(WorldView::after_undo);
    reveal(WorldView::after_test_undo);
    if a is Vacuum {
        if w.can_undo(a) {
            let r = w.row as int;
            let c = w.col as int;
            let next = w.after_undo(a);
            lemma_row_dirt_update(w.tiles[r], c, TileState::Dirty);
            lemma_grid_dirt_update(w.tiles, r, w.tiles[r].update(c, TileState::Dirty));
            assert forall|q: int| 0 <= q < next.rows implies (#[trigger] next.tiles[q]).len()
                == next.columns by {
                assert(w.tiles[q].len() == w.columns);
            }
            lemma_grid_dirt_bounds(next.tiles, next.columns);
        }
    } else {
        lemma_do_well_formed(WorldView { cost: up(w.cost), ..w }, opposite(a));
    }
}

/// **Undo restores.** An action that was performed can be undone, and undoing
/// it puts tiles, vacuum and dirt back as they were.
pub proof fn law_undo_restores(w: WorldView, a: Action)
    requires
        w.well_formed(),
        w.can(a),
    ensures
        w.after_do(a).can_undo(a),
        w.after_do(a).after_undo(a).same_place(w),
        w.after_do(a).after_test_undo(a).same_place(w),
{
    reveal(WorldView::can);
    reveal(WorldView::moved);
    reveal(WorldView::after_do);
    reveal(WorldView::can_undo);
    reveal(WorldView::after_undo);
    reveal(WorldView::after_test_undo);
    let r = w.row as int;
    let c = w.col as int;
    let done = w.after_do(a);
    lemma_do_well_formed(w, a);
    match a {
        Action::Vacuum => {
            let back = done.after_undo(a);
            lemma_grid_dirt_bounds(w.tiles, w.columns);
            assert(w.tiles[r][c] is Dirty);
            assert(w.dirt >= 1);
            assert(done.tiles[r][c] is Clean);
            assert(back.tiles[r] =~= w.tiles[r]);
            assert(back.tiles =~= w.tiles);
            assert(done.after_test_undo(a) == back);
        },
        _ => {},
    }
}

/// What can be done and what it does depends on tiles, vacuum and dirt alone.
pub proof fn lemma_same_place(w1: WorldView, w2: WorldView, a: Action)
    requires
        w1.same_place(w2),
    ensures
        w1.can(a) == w2.can(a),
        w1.can_undo(a) == w2.can_undo(a),
        w1.after_do(a).same_place(w2.after_do(a)),
        w1.after_undo(a).same_place(w2.after_undo(a)),
        w1.well_formed() == w2.well_formed(),
        w1.solved() == w2.solved(),
{
    reveal(WorldView::can);
    reveal(WorldView::moved);
    reveal(WorldView::after_do);
    reveal(WorldView::can_undo);
    reveal(WorldView::after_undo);
}

/// Trying an action leaves tiles, vacuum and dirt alone.
pub proof fn lemma_tried_keeps_place(w: WorldView, a: Action)
    requires
        w.well_formed(),
    ensures
        w.tried(a).same_place(w),
        w.tried(a).well_formed(),
{
    lemma_do_well_formed(w, a);
    if w.can(a) {
        law_undo_restores(w, a);
        lemma_undo_well_formed(w.after_do(a), a);
    } else {
        reveal(WorldView::after_do);
    }
}

impl World {
    /// Tries to perform action `a` and says whether it could. The action is
    /// recorded as the last one tried either way; where it is performed it costs
    /// one.
    pub fn do_action(&mut self, a: Action) -> (done: bool)
        requires
            old(self)@.well_formed(),
        ensures
            done == old(self)@.can(a),
            final(self)@ == old(self)@.after_do(a),
            final(self)@.well_formed(),
    {
        let r = self.vac_row;
        let c = self.vac_col;
        proof {
            reveal(WorldView::can);
            reveal(WorldView::moved);
            reveal(WorldView::after_do);
            reveal(WorldView::can_undo);
            reveal(WorldView::after_undo);
            reveal(WorldView::after_test_undo);
            lemma_do_well_formed(self@, a);
            assert(self@.tiles[r as int].len() == self@.columns);
            if r > 0 {
                assert(self@.tiles[r as int - 1].len() == self@.columns);
            }
            if r + 1 < self.rows {
                assert(self@.tiles[r as int + 1].len() == self@.columns);
            }
        }
        self.g = if self.g == u32::MAX {
            0
        } else {
            self.g + 1
        };
        self.prev_action = Some(a);
        assert(self@.tiles =~= old(self)@.tiles);
        match a {
            Action::Vacuum => {
                if self.get_tile_state(r, c) == TileState::Dirty {
                    proof {
                        lemma_grid_dirt_bounds(self@.tiles, self@.columns);
                    }
                    self.set_tile_state(r, c, TileState::Clean);
                    self.total_dirt -= 1;
                    assert(self@.tiles =~= old(self)@.after_do(a).tiles);
                    return true
                }
            },
            Action::North => {
                if r != 0 && self.get_tile_state(r - 1, c) != TileState::Blocked {
                    self.vac_row = r - 1;
                    assert(self@.tiles =~= old(self)@.tiles);
                    return true
                }
            },
            Action::South => {
                if r != self.rows - 1 && self.get_tile_state(r + 1, c) != TileState::Blocked {
                    self.vac_row = r + 1;
                    assert(self@.tiles =~= old(self)@.tiles);
                    return true
                }
            },
            Action::East => {
                if c != self.columns - 1 && self.get_tile_state(r, c + 1) != TileState::Blocked {
                    self.vac_col = c + 1;
                    assert(self@.tiles =~= old(self)@.tiles);
                    return true
                }
            },
            Action::West => {
                if c != 0 && self.get_tile_state(r, c - 1) != TileState::Blocked {
                    self.vac_col = c - 1;
                    assert(self@.tiles =~= old(self)@.tiles);
                    return true
                }
            },
        }
        self.g = if self.g == 0 {
            u32::MAX
        } else {
            self.g - 1
        };
        assert(self@.tiles =~= old(self)@.tiles);
        false
    }

    /// Tries to undo action `a` and says whether it could. A vacuuming is
    /// undone by making the clean tile under the vacuum dirty again; a move by
    /// performing the opposite move.
    pub fn undo_action(&mut self, a: Action) -> (undone: bool)
        requires
            old(self)@.well_formed(),
        ensures
            undone == old(self)@.can_undo(a),
            final(self)@ == old(self)@.after_undo(a),
            final(self)@.well_formed(),
    {
        let r = self.vac_row;
        let c = self.vac_col;
        proof {
            reveal(WorldView::can);
            reveal(WorldView::moved);
            reveal(WorldView::after_do);
            reveal(WorldView::can_undo);
            reveal(WorldView::after_undo);
            reveal(WorldView::after_test_undo);
            lemma_undo_well_formed(self@, a);
            assert(self@.tiles[r as int].len() == self@.columns);
        }
        self.g = if self.g == u32::MAX {
            0
        } else {
            self.g + 1
        };
        assert(self@.tiles =~= old(self)@.tiles);
        match a {
            Action::Vacuum => {
                if self.get_tile_state(r, c) == TileState::Clean {
                    self.set_tile_state(r, c, TileState::Dirty);
                    self.total_dirt += 1;
                    assert(self@.tiles =~= old(self)@.after_undo(a).tiles);
                    return true
                }
            },
            Action::North => return self.do_action(Action::South),
            Action::South => return self.do_action(Action::North),
            Action::East => return self.do_action(Action::West),
            Action::West => return self.do_action(Action::East),
        }
        self.g = if self.g == 0 {
            u32::MAX
        } else {
            self.g - 1
        };
        assert(self@.tiles =~= old(self)@.tiles);
        false
    }

    /// Tries to take action `a` back without recording a new action: the clean
    /// tile under the vacuum is made dirty again, or the vacuum is moved back.
    pub fn test_undo(&mut self, a: Action) -> (undone: bool)
        requires
            old(self)@.well_formed(),
        ensures
            undone == old(self)@.can_undo(a),
            final(self)@ == old(self)@.after_test_undo(a),
            final(self)@.well_formed(),
    {
        let r = self.vac_row;
        let c = self.vac_col;
        proof {
            reveal(WorldView::can);
            reveal(WorldView::moved);
            reveal(WorldView::after_do);
            reveal(WorldView::can_undo);
            reveal(WorldView::after_undo);
            reveal(WorldView::after_test_undo);
            lemma_undo_well_formed(self@, a);
            assert(self@.tiles[r as int].len() == self@.columns);
            if r > 0 {
                assert(self@.tiles[r as int - 1].len() == self@.columns);
            }
            if r + 1 < self.rows {
                assert(self@.tiles[r as int + 1].len() == self@.columns);
            }
        }
        self.g = if self.g == u32::MAX {
            0
        } else {
            self.g + 1
        };
        assert(self@.tiles =~= old(self)@.tiles);
        match a {
            Action::Vacuum => {
                if self.get_tile_state(r, c) == TileState::Clean {
                    self.set_tile_state(r, c, TileState::Dirty);
                    self.total_dirt += 1;
                    assert(self@.tiles =~= old(self)@.after_undo(a).tiles);
                    return true
                }
            },
            Action::South => {
                if r != 0 && self.get_tile_state(r - 1, c) != TileState::Blocked {
                    self.vac_row = r - 1;
                    assert(self@.tiles =~= old(self)@.tiles);
                    return true
                }
            },
            Action::North => {
                if r != self.rows - 1 && self.get_tile_state(r + 1, c) != TileState::Blocked {
                    self.vac_row = r + 1;
                    assert(self@.tiles =~= old(self)@.tiles);
                    return true
                }
            },
            Action::West => {
                if c != self.columns - 1 && self.get_tile_state(r, c + 1) != TileState::Blocked {
                    self.vac_col = c + 1;
                    assert(self@.tiles =~= old(self)@.tiles);
                    return true
                }
            },
            Action::East => {
                if c != 0 && self.get_tile_state(r, c - 1) != TileState::Blocked {
                    self.vac_col = c - 1;
                    assert(self@.tiles =~= old(self)@.tiles);
                    return true
                }
            },
        }
        self.g = if self.g == 0 {
            u32::MAX
        } else {
            self.g - 1
        };
        assert(self@.tiles =~= old(self)@.tiles);
        false
    }

    /// Finds out whether action `a` can be performed: the action is tried and,
    /// where it could be performed, undone again.
    fn try_action(&mut self, a: Action) -> (can: bool)
        requires
            old(self)@.well_formed(),
        ensures
            can == old(self)@.can(a),
            final(self)@ == old(self)@.tried(a),
            final(self)@.well_formed(),
            final(self)@.same_place(old(self)@),
    {
        proof {
            lemma_tried_keeps_place(self@, a);
        }
        if self.do_action(a) {
            self.undo_action(a);
            true
        } else {
            false
        }
    }

    /// Lists the actions that can be performed, in the order vacuum, west,
    /// south, east, north: the order decides what the vacuum prefers. Each
    /// action is tried and undone, so tiles, vacuum and dirt are left as they
    /// were, and so is the last action tried; the cost has grown.
    pub fn expand(&mut self) -> (can_actions: Vec<Action>)
        requires
            old(self)@.well_formed(),
        ensures
            can_actions@ == old(self)@.options(),
            final(self)@ == old(self)@.expanded(),
            final(self)@.same_place(old(self)@),
            final(self)@.well_formed(),
    {
        let mut can_actions: Vec<Action> = Vec::with_capacity(5);
        let save_action = self.prev_action;
        let ghost w0 = self@;
        let ghost w1 = w0.tried(Action::Vacuum);
        let ghost w2 = w1.tried(Action::West);
        let ghost w3 = w2.tried(Action::South);
        let ghost w4 = w3.tried(Action::East);
        let ghost w5 = w4.tried(Action::North);
        if self.try_action(Action::Vacuum) {
            can_actions.push(Action::Vacuum);
        }
        assert(self@ == w1);
        proof {
            lemma_same_place(w1, w0, Action::West);
        }
        if self.try_action(Action::West) {
            can_actions.push(Action::West);
        }
        assert(self@ == w2);
        proof {
            lemma_same_place(w2, w0, Action::South);
        }
        if self.try_action(Action::South) {
            can_actions.push(Action::South);
        }
        assert(self@ == w3);
        proof {
            lemma_same_place(w3, w0, Action::East);
        }
        if self.try_action(Action::East) {
            can_actions.push(Action::East);
        }
        assert(self@ == w4);
        proof {
            lemma_same_place(w4, w0, Action::North);
        }
        if self.try_action(Action::North) {
            can_actions.push(Action::North);
        }
        assert(self@ == w5);
        assert(can_actions@ =~= w0.options());
        self.prev_action = save_action;
        assert(self@.tiles =~= w5.tiles);
        can_actions
    }
}

/// The tile that a character of a world description stands for: `_` clean,
/// `*` dirty, `#` blocked, `@` the vacuum on a clean tile; nothing for any
/// other character.
pub open spec fn tile_of(c: char) -> Option<TileState> {
    if c == '_' {
        Some(TileState::Clean)
    } else if c == '*' {
        Some(TileState::Dirty)
    } else if c == '#' {
        Some(TileState::Blocked)
    } else if c == '@' {
        Some(TileState::Clean)
    } else {
        None
    }
}

/// The tiles that a line describes: one for each character that stands for a
/// tile, the others passed over.
pub open spec fn tiles_of(line: Seq<char>) -> Seq<TileState>
    decreases line.len(),
{
    if line.len() == 0 {
        Seq::empty()
    } else {
        let before = tiles_of(line.drop_last());
        match tile_of(line.last()) {
            Some(t) => before.push(t),
            None => before,
        }
    }
}

/// The column of the vacuum in a line: that of the last `@`.
pub open spec fn robot_in(line: Seq<char>) -> Option<nat>
    decreases line.len(),
{
    if line.len() == 0 {
        None
    } else if line.last() == '@' {
        Some(tiles_of(line.drop_last()).len())
    } else {
        robot_in(line.drop_last())
    }
}

/// The number of `*` in a line.
pub open spec fn stars_in(line: Seq<char>) -> nat
    decreases line.len(),
{
    if line.len() == 0 {
        0
    } else {
        stars_in(line.drop_last()) + if line.last() == '*' {
            1nat
        } else {
            0nat
        }
    }
}

/// The rows that the first `upto` lines describe.
pub open spec fn rows_upto(lines: Seq<Seq<char>>, upto: nat) -> Seq<Seq<TileState>>
    decreases upto,
{
    if upto == 0 {
        Seq::empty()
    } else {
        rows_upto(lines, (upto - 1) as nat).push(tiles_of(lines[upto - 1]))
    }
}

/// The place of the vacuum in the first `upto` lines: that of the last `@`,
/// as row (counted from the first line) and column.
pub open spec fn robot_upto(lines: Seq<Seq<char>>, upto: nat) -> Option<(nat, nat)>
    decreases upto,
{
    if upto == 0 {
        None
    } else {
        match robot_in(lines[upto - 1]) {
            Some(c) => Some(((upto - 1) as nat, c)),
            None => robot_upto(lines, (upto - 1) as nat),
        }
    }
}

/// The number of `*` in the first `upto` lines.
pub open spec fn stars_upto(lines: Seq<Seq<char>>, upto: nat) -> nat
    decreases upto,
{
    if upto == 0 {
        0
    } else {
        stars_upto(lines, (upto - 1) as nat) + stars_in(lines[upto - 1])
    }
}

impl World {
    /// Reads the tiles of the world from its description: each line is a row,
    /// each character a tile. The rows are added below those that are there;
    /// the vacuum is put where the last `@` stands, its row counted from the
    /// first of these lines; the dirt count becomes the number of `*`, modulo
    /// 2^32. Nothing is checked: `is_valid` says whether the world can be used.
    pub fn gen_tiles(&mut self, lines: Vec<String>)
        ensures
            final(self)@ == (WorldView {
                tiles: old(self)@.tiles + rows_upto(texts(lines@), lines.len() as nat),
                dirt: stars_upto(texts(lines@), lines.len() as nat) % 0x1_0000_0000,
                row: match robot_upto(texts(lines@), lines.len() as nat) {
                    Some(place) => place.0,
                    None => old(self)@.row,
                },
                col: match robot_upto(texts(lines@), lines.len() as nat) {
                    Some(place) => place.1,
                    None => old(self)@.col,
                },
                ..old(self)@
            }),
    {
        let mut dirts: u32 = 0;
        let mut row: usize = 0;
        let ghost all = texts(lines@);
        assert(self@.tiles =~= old(self)@.tiles + rows_upto(all, 0));
        while row < lines.len()
            invariant
                row <= lines.len(),
                all == texts(lines@),
                self@.tiles == old(self)@.tiles + rows_upto(all, row as nat),
                dirts == stars_upto(all, row as nat) % 0x1_0000_0000,
                self@.rows == old(self)@.rows,
                self@.columns == old(self)@.columns,
                self@.cost == old(self)@.cost,
                self@.estimate == old(self)@.estimate,
                self@.prev_action == old(self)@.prev_action,
                self@.row == (match robot_upto(all, row as nat) {
                    Some(place) => place.0,
                    None => old(self)@.row,
                }),
                self@.col == (match robot_upto(all, row as nat) {
                    Some(place) => place.1,
                    None => old(self)@.col,
                }),
            decreases lines.len() - row,
        {
            let line = lines[row].as_str();
            let ghost text = line@;
            assert(text == all[row as int]);
            let chars = chars_of(line);
            let n = chars.len();
            let mut row_tiles: Vec<Tile> = Vec::new();
            let mut i: usize = 0;
            let ghost start_stars = stars_upto(all, row as nat);
            let ghost before_rows = self@.tiles;
            assert(text.take(0) =~= Seq::<char>::empty());
            assert(states_of(row_tiles@) =~= tiles_of(text.take(0)));
            while i < n
                invariant
                    i <= n,
                    n == text.len(),
                    text == line@,
                    chars@ == text,
                    row < lines.len(),
                    states_of(row_tiles@) == tiles_of(text.take(i as int)),
                    row_tiles.len() <= i,
                    dirts == (start_stars + stars_in(text.take(i as int))) % 0x1_0000_0000,
                    self@.tiles == before_rows,
                    self@.rows == old(self)@.rows,
                    self@.columns == old(self)@.columns,
                    self@.cost == old(self)@.cost,
                    self@.estimate == old(self)@.estimate,
                    self@.prev_action == old(self)@.prev_action,
                    self@.row == (match robot_in(text.take(i as int)) {
                        Some(c) => row as nat,
                        None => match robot_upto(all, row as nat) {
                            Some(place) => place.0,
                            None => old(self)@.row,
                        },
                    }),
                    self@.col == (match robot_in(text.take(i as int)) {
                        Some(c) => c,
                        None => match robot_upto(all, row as nat) {
                            Some(place) => place.1,
                            None => old(self)@.col,
                        },
                    }),
                decreases n - i,
            {
                let c = chars[i];
                proof {
                    assert(text.take(i as int + 1).drop_last() =~= text.take(i as int));
                    assert(text.take(i as int + 1).last() == c);
                }
                let ghost seen = states_of(row_tiles@);
                if c == '_' {
                    row_tiles.push(Tile::new(TileState::Clean, 1));
                    assert(states_of(row_tiles@) =~= seen.push(TileState::Clean));
                } else if c == '*' {
                    row_tiles.push(Tile::new(TileState::Dirty, 1));
                    dirts = if dirts == u32::MAX {
                        0
                    } else {
                        dirts + 1
                    };
                    assert(states_of(row_tiles@) =~= seen.push(TileState::Dirty));
                } else if c == '#' {
                    row_tiles.push(Tile::new(TileState::Blocked, 1));
                    assert(states_of(row_tiles@) =~= seen.push(TileState::Blocked));
                } else if c == '@' {
                    let col = row_tiles.len();
                    row_tiles.push(Tile::new(TileState::Clean, 1));
                    self.vac_row = row;
                    self.vac_col = col;
                    assert(states_of(row_tiles@) =~= seen.push(TileState::Clean));
                    assert(self@.tiles =~= before_rows);
                }
                i += 1;
            }
            assert(text.take(n as int) =~= text);
            let ghost row_states = states_of(row_tiles@);
            self.tiles.push(row_tiles);
            proof {
                assert(self@.tiles =~= before_rows.push(row_states));
                assert(self@.tiles =~= old(self)@.tiles + rows_upto(all, row as nat + 1));
            }
            row += 1;
        }
        self.total_dirt = dirts;
        assert(self@.tiles =~= old(self)@.tiles + rows_upto(all, lines.len() as nat));
    }

    /// Whether the world can be used: its grid has the size it was made for,
    /// the vacuum stands on a tile that is not blocked, and the dirt count is
    /// right.
    pub fn is_valid(&self) -> (valid: bool)
        ensures
            valid == self@.well_formed(),
    {
        if self.tiles.len() != self.rows || self.vac_row >= self.rows || self.vac_col
            >= self.columns {
            return false;
        }
        if self.rows > 0xffff_ffff || self.columns > 0xffff_ffff {
            proof {
                assert(self.rows * self.columns > u32::MAX) by (nonlinear_arith)
                    requires
                        self.rows >= 1,
                        self.columns >= 1,
                        self.rows > 0xffff_ffff || self.columns > 0xffff_ffff,
                ;
            }
            return false;
        }
        assert(self.rows * self.columns <= 0xffff_ffff * 0xffff_ffff) by (nonlinear_arith)
            requires
                self.rows <= 0xffff_ffff,
                self.columns <= 0xffff_ffff,
        ;
        let area: u64 = (self.rows as u64) * (self.columns as u64);
        if area > 0xffff_ffff {
            return false;
        }
        let mut dirt: u64 = 0;
        let mut r: usize = 0;
        assert(self@.tiles.take(0) =~= Seq::<Seq<TileState>>::empty());
        while r < self.rows
            invariant
                r <= self.rows,
                self.tiles.len() == self.rows,
                area == self.rows * self.columns,
                area <= 0xffff_ffff,
                forall|q: int| 0 <= q < r ==> (#[trigger] self@.tiles[q]).len() == self.columns,
                dirt == grid_dirt(self@.tiles.take(r as int)),
                dirt <= r * self.columns,
            decreases self.rows - r,
        {
            if self.tiles[r].len() != self.columns {
                assert(self@.tiles[r as int].len() != self@.columns);
                return false;
            }
            let ghost row_states = self@.tiles[r as int];
            let mut c: usize = 0;
            let mut row_count: u64 = 0;
            assert(row_states.take(0) =~= Seq::<TileState>::empty());
            while c < self.columns
                invariant
                    r < self.rows,
                    self.tiles.len() == self.rows,
                    c <= self.columns,
                    self.tiles[r as int].len() == self.columns,
                    row_states == self@.tiles[r as int],
                    row_count == row_dirt(row_states.take(c as int)),
                    row_count <= c,
                decreases self.columns - c,
            {
                proof {
                    assert(row_states.take(c as int + 1).drop_last() =~= row_states.take(c as int));
                    assert(row_states.take(c as int + 1).last() == row_states[c as int]);
                }
                if self.tiles[r][c].state == TileState::Dirty {
                    row_count += 1;
                }
                c += 1;
            }
            proof {
                assert(row_states.take(c as int) =~= row_states);
                assert(self@.tiles.take(r as int + 1).drop_last() =~= self@.tiles.take(r as int));
                assert(self@.tiles.take(r as int + 1).last() == row_states);
                assert((r + 1) * self.columns == r * self.columns + self.columns)
                    by (nonlinear_arith);
                assert((r + 1) * self.columns <= self.rows * self.columns) by (nonlinear_arith)
                    requires
                        r + 1 <= self.rows,
                ;
            }
            dirt += row_count;
            r += 1;
        }
        assert(self@.tiles.take(r as int) =~= self@.tiles);
        assert(self@.tiles[self.vac_row as int].len() == self.columns);
        self.tiles[self.vac_row][self.vac_col].state != TileState::Blocked && dirt
            == self.total_dirt as u64
    }
}

impl Clone for World {
    /// A copy of the world with all its tiles.
    fn clone(&self) -> (copy: World)
        ensures
            copy@ == self@,
    {
        let mut new_tiles: Vec<Vec<Tile>> = Vec::with_capacity(self.rows);
        let mut r: usize = 0;
        while r < self.tiles.len()
            invariant
                r <= self.tiles.len(),
                new_tiles.len() == r,
                forall|q: int| 0 <= q < r ==> (#[trigger] new_tiles[q])@ == self.tiles[q]@,
            decreases self.tiles.len() - r,
        {
            let row = self.tiles[r].clone();
            assert(row@ =~= self.tiles[r as int]@);
            new_tiles.push(row);
            r += 1;
        }
        let copy = World {
            tiles: new_tiles,
            rows: self.rows,
            columns: self.columns,
            total_dirt: self.total_dirt,
            vac_row: self.vac_row,
            vac_col: self.vac_col,
            g: self.g,
            h: self.h,
            prev_action: self.prev_action,
        };
        assert(copy@.tiles =~= self@.tiles);
        copy
    }
}

impl PartialEq for World {
    /// Two worlds are equal if the vacuum stands at one place in both and as
    /// much dirt is left; the tiles are not compared.
    fn eq(&self, other: &World) -> (alike: bool) {
        self.vac_row == other.vac_row && self.vac_col == other.vac_col && self.total_dirt
            == other.total_dirt
    }
}

impl vstd::std_specs::cmp::PartialEqSpecImpl for World {
    open spec fn obeys_eq_spec() -> bool {
        true
    }

    open spec fn eq_spec(&self, other: &World) -> bool {
        self@.alike(other@)
    }
}

impl World {
    /// The world that action `a` leads to, if the action can be performed.
    pub fn gen_from(&self, a: Action) -> (next: Option<World>)
        requires
            self@.well_formed(),
        ensures
            match next {
                Some(world) => self@.can(a) && world@ == self@.after_do(a) && world@.well_formed(),
                None => !self@.can(a),
            },
    {
        let mut new_node = self.clone();
        if new_node.do_action(a) {
            return Some(new_node);
        }
        None
    }

    /// Whether both worlds hold the same tiles.
    pub fn same_tiles(&self, other: &World) -> (same: bool)
        ensures
            same == (self@.tiles == other@.tiles),
    {
        if self.tiles.len() != other.tiles.len() {
            assert(self@.tiles.len() != other@.tiles.len());
            return false;
        }
        let mut r: usize = 0;
        while r < self.tiles.len()
            invariant
                r <= self.tiles.len(),
                self.tiles.len() == other.tiles.len(),
                forall|q: int| 0 <= q < r ==> self@.tiles[q] == other@.tiles[q],
            decreases self.tiles.len() - r,
        {
            if self.tiles[r].len() != other.tiles[r].len() {
                assert(self@.tiles[r as int].len() != other@.tiles[r as int].len());
                return false;
            }
            let mut c: usize = 0;
            while c < self.tiles[r].len()
                invariant
                    r < self.tiles.len(),
                    self.tiles.len() == other.tiles.len(),
                    c <= self.tiles[r as int].len(),
                    self.tiles[r as int].len() == other.tiles[r as int].len(),
                    forall|p: int| 0 <= p < c ==> self@.tiles[r as int][p] == other@.tiles[r as int][p],
                decreases self.tiles[r as int].len() - c,
            {
                if self.tiles[r][c].state != other.tiles[r][c].state {
                    assert(self@.tiles[r as int][c as int] != other@.tiles[r as int][c as int]);
                    return false;
                }
                c += 1;
            }
            assert(self@.tiles[r as int] =~= other@.tiles[r as int]);
            r += 1;
        }
        assert(self@.tiles =~= other@.tiles);
        true
    }

    /// The estimated total cost: what was spent plus what is estimated to be
    /// left. The cheaper of two worlds is the one that a best-first search
    /// takes first.
    pub fn total_cost(&self) -> (f: u64)
        ensures
            f == self@.cost + self@.estimate,
    {
        self.g as u64 + self.h as u64
    }
}

/// The character that shows a tile.
pub open spec fn tile_char(s: TileState) -> char {
    match s {
        TileState::Clean => '_',
        TileState::Dirty => '*',
        TileState::Blocked => '#',
    }
}

/// The line that shows a row of tiles.
pub open spec fn row_line(row: Seq<TileState>) -> Seq<char> {
    Seq::new(row.len(), |c: int| tile_char(row[c]))
}

/// The first line of the picture of a world.
pub open spec fn vacuum_line(w: WorldView) -> Seq<char> {
    "Vacuum @ row: "@ + decimal(w.row) + ", col: "@ + decimal(w.col) + ", dirt: "@ + decimal(
        w.dirt,
    )
}

/// The picture of a world: where the vacuum is and how much dirt is left, then
/// the first `upto` rows of tiles.
pub open spec fn picture(w: WorldView, upto: nat) -> Seq<Seq<char>>
    decreases upto,
{
    if upto == 0 {
        seq![vacuum_line(w)]
    } else {
        picture(w, (upto - 1) as nat).push(row_line(w.tiles[upto - 1]))
    }
}

impl World {
    /// The picture of the world, line by line.
    pub fn render(&self) -> (lines: Vec<String>)
        ensures
            texts(lines@) == picture(self@, self@.tiles.len()),
    {
        let mut head = "Vacuum @ row: ".to_owned();
        push_decimal(&mut head, self.vac_row);
        head.append(", col: ");
        push_decimal(&mut head, self.vac_col);
        head.append(", dirt: ");
        push_decimal(&mut head, self.total_dirt as usize);
        let mut lines: Vec<String> = Vec::new();
        lines.push(head);
        assert(texts(lines@) =~= picture(self@, 0));
        let mut r: usize = 0;
        while r < self.tiles.len()
            invariant
                r <= self.tiles.len(),
                texts(lines@) == picture(self@, r as nat),
            decreases self.tiles.len() - r,
        {
            let mut line = String::new();
            let mut c: usize = 0;
            let ghost row = self@.tiles[r as int];
            while c < self.tiles[r].len()
                invariant
                    r < self.tiles.len(),
                    row == self@.tiles[r as int],
                    c <= self.tiles[r as int].len(),
                    line@ == row_line(row).take(c as int),
                decreases self.tiles[r as int].len() - c,
            {
                proof {
                    reveal_strlit("_");
                    reveal_strlit("*");
                    reveal_strlit("#");
                }
                let ghost before = line@;
                match self.tiles[r][c].state {
                    TileState::Clean => line.append("_"),
                    TileState::Dirty => line.append("*"),
                    TileState::Blocked => line.append("#"),
                }
                assert(line@ =~= row_line(row).take(c as int + 1));
                c += 1;
            }
            assert(row_line(row).take(c as int) =~= row_line(row));
            let ghost before = texts(lines@);
            lines.push(line);
            assert(texts(lines@) =~= before.push(row_line(row)));
            r += 1;
        }
        lines
    }
}

} // verus!
