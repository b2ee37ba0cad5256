//! The vacuum world on one flat list of tiles, row after row, and the text
//! that describes it.

use vstd::prelude::*;
use vstd::string::StringExecFns;
use crate::text::{chars_of, decimal, number, parse_usize, push_decimal, string_of, texts};

verus! {

/// The searches that can be asked for.
#[derive(Debug, PartialEq, Eq, Structural, Copy, Clone)]
pub enum Algorithm {
    DepthFirst,
    DepthFirstIteratedDeepening,
    BreadthFirst,
    AStar,
}

/// What a tile holds.
#[derive(Debug, PartialEq, Eq, Structural, Copy, Clone)]
pub enum Tile {
    Clean,
    Dirty,
    Blocked,
}

/// What the robot can do.
#[derive(Debug, PartialEq, Eq, Structural, Copy, Clone)]
pub enum Action {
    North,
    South,
    East,
    West,
    Vacuum,
}

impl Action {
    /// The letter that stands for the action.
    pub open spec fn letter(self) -> Seq<char> {
        match self {
            Action::Vacuum => "V"@,
            Action::North => "N"@,
            Action::South => "S"@,
            Action::East => "E"@,
            Action::West => "W"@,
        }
    }

    /// The action as text: its letter.
    pub fn to_text(&self) -> (text: String)
        ensures
            text@ == self.letter(),
    {
        match *self {
            Action::Vacuum => "V".to_owned(),
            Action::North => "N".to_owned(),
            Action::South => "S".to_owned(),
            Action::East => "E".to_owned(),
            Action::West => "W".to_owned(),
        }
    }
}

/// The world: tiles row after row, `x` tiles to a row, and the robot on one
/// of them.
pub struct World {
    tiles: Vec<Tile>,
    x: usize,
    y: usize,
    rob: usize,
    dirt: usize,
}

/// The abstract value of a world.
pub struct WorldView {
    /// The tiles, row after row.
    pub tiles: Seq<Tile>,
    /// The number of tiles to a row.
    pub x: nat,
    /// The number of rows.
    pub y: nat,
    /// The tile of the robot.
    pub rob: nat,
    /// The number of dirty tiles when the world was made.
    pub dirt: nat,
}

/// The number of dirty tiles in a list.
pub open spec fn dirty_count(tiles: Seq<Tile>) -> nat
    decreases tiles.len(),
{
    if tiles.len() == 0 {
        0
    } else {
        dirty_count(tiles.drop_last()) + if tiles.last() is Dirty {
            1nat
        } else {
            0nat
        }
    }
}

impl WorldView {
    /// Whether asking for `action` is defined: the tile it looks at exists.
    /// Looking south of the first tile of the last row is not.
    pub open spec fn defined(self, action: Action) -> bool {
        let rob = self.rob as int;
        let x = self.x as int;
        let n = self.tiles.len() as int;
        match action {
            Action::Vacuum => rob < n,
            Action::North => rob < x || rob - x < n,
            Action::South => rob + x <= usize::MAX && rob + x != n,
            Action::East => x > 0 && rob + 1 <= usize::MAX && ((rob + 1) % x == 0 || rob + 1 < n),
            Action::West => x > 0 && (rob % x == 0 || rob - 1 < n),
        }
    }

    /// Whether `action` can be performed: there is dirt under the robot, or
    /// the neighbouring tile is inside the world and not blocked.
    pub open spec fn can_perform(self, action: Action) -> bool {
        let rob = self.rob as int;
        let x = self.x as int;
        let n = self.tiles.len() as int;
        match action {
            Action::Vacuum => self.tiles[rob] is Dirty,
            Action::North => rob >= x && !(self.tiles[rob - x] is Blocked),
            Action::South => rob + x <= n && !(self.tiles[rob + x] is Blocked),
            Action::East => (rob + 1) % x != 0 && !(self.tiles[rob + 1] is Blocked),
            Action::West => rob % x != 0 && !(self.tiles[rob - 1] is Blocked),
        }
    }

    /// Whether `action` can be carried out as arithmetic on the place of the
    /// robot.
    pub open spec fn doable(self, action: Action) -> bool {
        match action {
            Action::Vacuum => self.rob < self.tiles.len(),
            Action::North => self.rob >= self.x,
            Action::South => self.rob + self.x <= usize::MAX,
            Action::East => self.rob + 1 <= usize::MAX,
            Action::West => self.rob >= 1,
        }
    }

    /// The world after `action`: vacuuming cleans the tile under the robot
    /// (the dirt count of the world stays as it was made); a move takes the
    /// robot one tile on.
    pub open spec fn after(self, action: Action) -> WorldView {
        match action {
            Action::Vacuum => WorldView {
                tiles: self.tiles.update(self.rob as int, Tile::Clean),
                ..self
            },
            Action::North => WorldView { rob: (self.rob - self.x) as nat, ..self },
            Action::South => WorldView { rob: self.rob + self.x, ..self },
            Action::East => WorldView { rob: self.rob + 1, ..self },
            Action::West => WorldView { rob: (self.rob - 1) as nat, ..self },
        }
    }

    /// Whether every question that listing the actions asks is defined.
    pub open spec fn all_defined(self) -> bool {
        &&& self.defined(Action::Vacuum)
        &&& self.defined(Action::West)
        &&& self.defined(Action::South)
        &&& self.defined(Action::East)
        &&& self.defined(Action::North)
    }
}

/// The action that is tried after `action`: vacuum, west, south, east, north,
/// and then none.
pub open spec fn following(action: Action) -> Option<Action> {
    match action {
        Action::Vacuum => Some(Action::West),
        Action::West => Some(Action::South),
        Action::South => Some(Action::East),
        Action::East => Some(Action::North),
        Action::North => None,
    }
}

/// How many actions are tried from `next` on.
pub open spec fn left(next: Option<Action>) -> nat {
    match next {
        Some(Action::Vacuum) => 5,
        Some(Action::West) => 4,
        Some(Action::South) => 3,
        Some(Action::East) => 2,
        Some(Action::North) => 1,
        None => 0,
    }
}

/// The actions from `next` on that can be performed, in the order in which
/// they are tried.
pub open spec fn possible_from(w: WorldView, next: Option<Action>) -> Seq<Action>
    decreases left(next),
{
    match next {
        None => Seq::empty(),
        Some(action) => {
            let rest = possible_from(w, following(action));
            if w.can_perform(action) {
                seq![action] + rest
            } else {
                rest
            }
        },
    }
}

impl View for World {
    type V = WorldView;

    closed spec fn view(&self) -> WorldView {
        WorldView {
            tiles: self.tiles@,
            x: self.x as nat,
            y: self.y as nat,
            rob: self.rob as nat,
            dirt: self.dirt as nat,
        }
    }
}

/// The actions of a world, one after the other. The order of testing is
/// vacuum, west, south, east, north.
pub struct WorldActions<'a> {
    world: &'a World,
    next_action: Option<Action>,
}

impl<'a> WorldActions<'a> {
    /// The world whose actions these are.
    pub closed spec fn world(&self) -> WorldView {
        self.world@
    }

    /// The action that is tested next.
    pub closed spec fn upcoming(&self) -> Option<Action> {
        self.next_action
    }

    /// The next action that can be performed, or `None` when all were tested.
    pub fn next(&mut self) -> (action: Option<Action>)
        requires
            old(self).world().all_defined(),
        ensures
            final(self).world() == old(self).world(),
            possible_from(old(self).world(), old(self).upcoming()) == (match action {
                Some(a) => seq![a] + possible_from(final(self).world(), final(self).upcoming()),
                None => Seq::empty(),
            }),
            action is None ==> final(self).upcoming() is None,
            left(final(self).upcoming()) <= left(old(self).upcoming()),
            action is Some ==> left(final(self).upcoming()) < left(old(self).upcoming()),
        decreases left(old(self).upcoming()),
    {
        if self.next_action == None {
            return None;
        }
        let prev_action = self.next_action.unwrap();
        self.next_action = match prev_action {
            Action::Vacuum => Some(Action::West),
            Action::West => Some(Action::South),
            Action::South => Some(Action::East),
            Action::East => Some(Action::North),
            Action::North => None,
        };
        if self.world.can_perform(prev_action) {
            Some(prev_action)
        } else {
            self.next()
        }
    }

    /// All the actions that are still to come and can be performed.
    pub fn collect(self) -> (actions: Vec<Action>)
        requires
            self.world().all_defined(),
        ensures
            actions@ == possible_from(self.world(), self.upcoming()),
    {
        let mut iter = self;
        let mut actions: Vec<Action> = Vec::new();
        loop
            invariant
                iter.world() == self.world(),
                iter.world().all_defined(),
                actions@ + possible_from(iter.world(), iter.upcoming()) == possible_from(
                    self.world(),
                    self.upcoming(),
                ),
            decreases left(iter.upcoming()),
        {
            let ghost before = actions@;
            match iter.next() {
                Some(a) => {
                    actions.push(a);
                    assert(actions@ + possible_from(iter.world(), iter.upcoming()) =~= before + (
                    seq![a] + possible_from(iter.world(), iter.upcoming())));
                },
                None => {
                    assert(actions@ + Seq::<Action>::empty() =~= actions@);
                    return actions;
                },
            }
        }
    }
}

impl World {
    /// The world of the tiles `tiles`, `x` to a row in `y` rows, with the robot
    /// on tile `rob`. Its dirt is the number of dirty tiles.
    pub fn new(tiles: Vec<Tile>, x: usize, y: usize, rob: usize) -> (world: World)
        ensures
            world@ == (WorldView {
                tiles: tiles@,
                x: x as nat,
                y: y as nat,
                rob: rob as nat,
                dirt: dirty_count(tiles@),
            }),
    {
        let mut dirt_count: usize = 0;
        let mut i: usize = 0;
        assert(tiles@.take(0) =~= Seq::<Tile>::empty());
        while i < tiles.len()
            invariant
                i <= tiles.len(),
                dirt_count == dirty_count(tiles@.take(i as int)),
                dirt_count <= i,
            decreases tiles.len() - i,
        {
            proof {
                assert(tiles@.take(i as int + 1).drop_last() =~= tiles@.take(i as int));
                assert(tiles@.take(i as int + 1).last() == tiles[i as int]);
            }
            if tiles[i] == Tile::Dirty {
                dirt_count += 1;
            }
            i += 1;
        }
        assert(tiles@.take(i as int) =~= tiles@);
        World { tiles: tiles, x: x, y: y, rob: rob, dirt: dirt_count }
    }

    /// Is the world clean? It is if it held no dirt when it was made.
    pub fn is_solved(&self) -> (solved: bool)
        ensures
            solved == (self@.dirt == 0),
    {
        self.dirt == 0
    }

    /// The tile of the robot.
    pub fn robot(&self) -> (rob: usize)
        ensures
            rob == self@.rob,
    {
        self.rob
    }

    /// The tile at place `i`.
    pub fn tile(&self, i: usize) -> (tile: Tile)
        requires
            i < self@.tiles.len(),
        ensures
            tile == self@.tiles[i as int],
    {
        self.tiles[i]
    }

    /// The number of tiles.
    pub fn size(&self) -> (n: usize)
        ensures
            n == self@.tiles.len(),
    {
        self.tiles.len()
    }

    /// Whether listing the actions of this world is defined.
    pub fn is_listable(&self) -> (listable: bool)
        ensures
            listable == self@.all_defined(),
    {
        if self.x == 0 || self.rob >= self.tiles.len() {
            return false;
        }
        if self.rob > usize::MAX - self.x || self.rob + self.x == self.tiles.len() {
            return false;
        }
        if self.rob == usize::MAX {
            return false;
        }
        if (self.rob + 1) % self.x != 0 && self.rob + 1 >= self.tiles.len() {
            return false;
        }
        true
    }

    /// The actions of the world, from the first on.
    pub fn actions(&self) -> (iter: WorldActions<'_>)
        ensures
            iter.world() == self@,
            iter.upcoming() == Some(Action::Vacuum),
    {
        WorldActions { world: self, next_action: Some(Action::Vacuum) }
    }

    /// Determines if an action can be performed.
    pub fn can_perform(&self, action: Action) -> (can: bool)
        requires
            self@.defined(action),
        ensures
            can == self@.can_perform(action),
    {
        match action {
            Action::Vacuum => self.tiles[self.rob] == Tile::Dirty,
            Action::North => {
                if self.rob < self.x {
                    false
                } else {
                    self.tiles[self.rob - self.x] != Tile::Blocked
                }
            },
            Action::South => {
                if self.rob + self.x > self.tiles.len() {
                    false
                } else {
                    self.tiles[self.rob + self.x] != Tile::Blocked
                }
            },
            Action::East => {
                if (self.rob + 1) % self.x == 0 {
                    false
                } else {
                    self.tiles[self.rob + 1] != Tile::Blocked
                }
            },
            Action::West => {
                if self.rob % self.x == 0 {
                    false
                } else {
                    assert(self.rob != 0) by {
                        assert(0int % (self.x as int) == 0) by (nonlinear_arith)
                            requires
                                self.x > 0,
                        ;
                    }
                    self.tiles[self.rob - 1] != Tile::Blocked
                }
            },
        }
    }

    /// Returns a world modified by the action. Assumes that the action can be
    /// performed.
    pub fn do_action(self, action: Action) -> (world: World)
        requires
            self@.doable(action),
        ensures
            world@ == self@.after(action),
    {
        let mut world = self;
        match action {
            Action::Vacuum => {
                let at = world.rob;
                world.tiles[at] = Tile::Clean;
            },
            Action::North => {
                world.rob = world.rob - world.x;
            },
            Action::South => {
                world.rob = world.rob + world.x;
            },
            Action::East => {
                world.rob = world.rob + 1;
            },
            Action::West => {
                world.rob = world.rob - 1;
            },
        };
        world
    }

    /// What depth-first search gives so far: the robot is moved east, and the
    /// actions that can be performed from there are listed.
    pub fn depth_first(world: World, arr: Vec<Action>) -> (plan: Vec<Action>)
        requires
            world@.doable(Action::East),
            world@.after(Action::East).all_defined(),
        ensures
            plan@ == possible_from(world@.after(Action::East), Some(Action::Vacuum)),
    {
        let new_world = world.do_action(Action::East);
        new_world.actions().collect()
    }

    /// Finds a path to a goal state from the given world using the algorithm.
    /// Only depth-first search gives anything yet.
    pub fn path_find(world: World, alg: Algorithm) -> (plan: Vec<Action>)
        requires
            alg is DepthFirst ==> world@.doable(Action::East) && world@.after(
                Action::East,
            ).all_defined(),
        ensures
            plan@ == (match alg {
                Algorithm::DepthFirst => possible_from(
                    world@.after(Action::East),
                    Some(Action::Vacuum),
                ),
                _ => Seq::empty(),
            }),
    {
        match alg {
            Algorithm::DepthFirst => World::depth_first(world, Vec::new()),
            Algorithm::DepthFirstIteratedDeepening => Vec::new(),
            Algorithm::BreadthFirst => Vec::new(),
            Algorithm::AStar => Vec::new(),
        }
    }
}

/// Why a line describes no row of the world.
#[derive(Debug, PartialEq, Eq, Structural, Copy, Clone)]
pub enum LineError {
    /// The line shows a second robot.
    TwoRobots,
    /// The line holds a character that stands for no tile.
    UnknownTile(char),
    /// The line has another number of tiles than the world has columns.
    WrongWidth { found: usize, expected: usize },
}

/// The tiles that a text shows and the column of the robot, if it is shown:
/// `#` blocked, `_` clean, `*` dirty, `@` the robot on a clean tile. The first
/// second robot or unknown character is an error.
pub open spec fn scanned(line: Seq<char>) -> Result<(Seq<Tile>, Option<usize>), LineError>
    decreases line.len(),
{
    if line.len() == 0 {
        Ok((Seq::empty(), None))
    } else {
        match scanned(line.drop_last()) {
            Err(e) => Err(e),
            Ok((tiles, rob)) => {
                let c = line.last();
                if c == '#' {
                    Ok((tiles.push(Tile::Blocked), rob))
                } else if c == '_' {
                    Ok((tiles.push(Tile::Clean), rob))
                } else if c == '*' {
                    Ok((tiles.push(Tile::Dirty), rob))
                } else if c == '@' {
                    if rob is Some {
                        Err(LineError::TwoRobots)
                    } else {
                        Ok((tiles.push(Tile::Clean), Some(tiles.len() as usize)))
                    }
                } else {
                    Err(LineError::UnknownTile(c))
                }
            },
        }
    }
}

/// The row that a line describes in a world of `x` columns.
pub open spec fn world_line(line: Seq<char>, x: usize) -> Result<
    (Seq<Tile>, Option<usize>),
    LineError,
> {
    match scanned(line) {
        Err(e) => Err(e),
        Ok((tiles, rob)) => if tiles.len() != x {
            Err(LineError::WrongWidth { found: tiles.len() as usize, expected: x })
        } else {
            Ok((tiles, rob))
        },
    }
}

/// Receives a line of the world description and reads the tiles it shows.
///
/// `Ok` holds the tiles and the column of the robot if one was found;
/// `Err` says what is wrong with the line.
pub fn parse_world_line(line: &str, x: usize) -> (row: Result<(Vec<Tile>, Option<usize>), LineError>)
    ensures
        match row {
            Ok((tiles, rob)) => world_line(line@, x) == Ok::<_, LineError>((tiles@, rob)),
            Err(e) => world_line(line@, x) == Err::<(Seq<Tile>, Option<usize>), _>(e),
        },
{
    let mut rob: Option<usize> = None;
    let mut world_desc: Vec<Tile> = Vec::new();
    let chars = chars_of(line);
    let n = chars.len();
    let mut i: usize = 0;
    let ghost text = line@;
    assert(text.take(0) =~= Seq::<char>::empty());
    while i < n
        invariant
            i <= n,
            n == text.len(),
            text == line@,
            chars@ == text,
            world_desc.len() == i,
            scanned(text.take(i as int)) == Ok::<_, LineError>((world_desc@, rob)),
        decreases n - i,
    {
        let tile_char = chars[i];
        proof {
            assert(text.take(i as int + 1).drop_last() =~= text.take(i as int));
            assert(text.take(i as int + 1).last() == tile_char);
        }
        let tile = if tile_char == '#' {
            Tile::Blocked
        } else if tile_char == '_' {
            Tile::Clean
        } else if tile_char == '*' {
            Tile::Dirty
        } else if tile_char == '@' {
            if rob.is_some() {
                proof {
                    lemma_scan_error_stays(text, i as int + 1);
                }
                return Err(LineError::TwoRobots);
            } else {
                rob = Some(i);
            }
            Tile::Clean
        } else {
            proof {
                lemma_scan_error_stays(text, i as int + 1);
            }
            return Err(LineError::UnknownTile(tile_char));
        };
        world_desc.push(tile);
        i += 1;
    }
    assert(text.take(n as int) =~= text);
    if world_desc.len() != x {
        return Err(LineError::WrongWidth { found: world_desc.len(), expected: x });
    }
    Ok((world_desc, rob))
}

/// An error in the beginning of a line is the error of the whole line.
proof fn lemma_scan_error_stays(line: Seq<char>, k: int)
    requires
        0 <= k <= line.len(),
        scanned(line.take(k)) is Err,
    ensures
        scanned(line) == scanned(line.take(k)),
    decreases line.len() - k,
{
    if k < line.len() {
        assert(line.take(k + 1).drop_last() =~= line.take(k));
        lemma_scan_error_stays(line, k + 1);
    } else {
        assert(line.take(k) =~= line);
    }
}

impl LineError {
    /// What the error says.
    pub open spec fn text(self) -> Seq<char> {
        match self {
            LineError::TwoRobots => "Found two robots."@,
            LineError::UnknownTile(c) => "Unknown world tile "@ + seq![c],
            LineError::WrongWidth { found, expected } => "Found "@ + decimal(found as nat)
                + " columns, expected "@ + decimal(expected as nat),
        }
    }

    /// The error as a message for the user.
    pub fn message(&self) -> (text: String)
        ensures
            text@ == self.text(),
    {
        match *self {
            LineError::TwoRobots => "Found two robots.".to_owned(),
            LineError::UnknownTile(c) => {
                let mut text = "Unknown world tile ".to_owned();
                let mut letter: Vec<char> = Vec::new();
                letter.push(c);
                let letter = string_of(&letter);
                text.append(letter.as_str());
                assert(letter@ =~= seq![c]);
                text
            },
            LineError::WrongWidth { found, expected } => {
                let mut text = "Found ".to_owned();
                push_decimal(&mut text, found);
                text.append(" columns, expected ");
                push_decimal(&mut text, expected);
                text
            },
        }
    }
}

/// Why a text describes no world.
#[derive(Debug, PartialEq, Eq, Structural, Copy, Clone)]
pub enum WorldError {
    /// The two lines with the numbers of columns and rows cannot be read.
    BadSize,
    /// There are fewer lines than rows.
    UnexpectedEnd,
    /// Row `row` (counted from 0) is wrong.
    BadLine { row: usize, error: LineError },
    /// Two rows show a robot.
    TwoRobots,
    /// No row shows a robot.
    NoRobot,
}

/// The tiles of the first `upto` rows of a description and the tile of the
/// robot, if it was shown; the first thing wrong is the error.
pub open spec fn rows_read(lines: Seq<Seq<char>>, x: usize, upto: nat) -> Result<
    (Seq<Tile>, Option<usize>),
    WorldError,
>
    decreases upto,
{
    if upto == 0 {
        Ok((Seq::empty(), None))
    } else {
        match rows_read(lines, x, (upto - 1) as nat) {
            Err(e) => Err(e),
            Ok((tiles, rob)) => if upto + 1 >= lines.len() {
                Err(WorldError::UnexpectedEnd)
            } else {
                match world_line(lines[upto as int + 1], x) {
                    Err(error) => Err(WorldError::BadLine { row: (upto - 1) as usize, error }),
                    Ok((row_tiles, None)) => Ok((tiles + row_tiles, rob)),
                    Ok((row_tiles, Some(column))) => if rob is Some {
                        Err(WorldError::TwoRobots)
                    } else {
                        Ok((tiles + row_tiles, Some((tiles.len() + column) as usize)))
                    },
                }
            },
        }
    }
}

/// The world that a text describes: the first line holds the number of
/// columns, the second the number of rows, then come the rows.
pub open spec fn world_of(lines: Seq<Seq<char>>) -> Result<WorldView, WorldError> {
    if lines.len() < 2 || number(lines[0]) is None || number(lines[1]) is None {
        Err(WorldError::BadSize)
    } else {
        let x = number(lines[0])->0;
        let y = number(lines[1])->0;
        match rows_read(lines, x, y as nat) {
            Err(e) => Err(e),
            Ok((tiles, None)) => Err(WorldError::NoRobot),
            Ok((tiles, Some(rob))) => Ok(
                WorldView {
                    tiles,
                    x: x as nat,
                    y: y as nat,
                    rob: rob as nat,
                    dirt: dirty_count(tiles),
                },
            ),
        }
    }
}

/// Reads a world from the lines of its description.
pub fn read_world(lines: &Vec<String>) -> (world: Result<World, WorldError>)
    ensures
        match world {
            Ok(w) => world_of(texts(lines@)) == Ok::<_, WorldError>(w@),
            Err(e) => world_of(texts(lines@)) == Err::<WorldView, _>(e),
        },
{
    if lines.len() < 2 {
        return Err(WorldError::BadSize);
    }
    let (x_len, y_len) = match (parse_usize(lines[0].as_str()), parse_usize(lines[1].as_str())) {
        (Some(x), Some(y)) => (x, y),
        _ => {
            return Err(WorldError::BadSize);
        },
    };
    let ghost all = texts(lines@);
    let mut world_desc: Vec<Tile> = Vec::new();
    let mut robot_pos: Option<usize> = None;
    let mut row: usize = 0;
    while row < y_len
        invariant
            row <= y_len,
            all == texts(lines@),
            lines.len() >= 2,
            number(all[0]) == Some(x_len),
            number(all[1]) == Some(y_len),
            rows_read(all, x_len, row as nat) == Ok::<_, WorldError>((world_desc@, robot_pos)),
        decreases y_len - row,
    {
        if row >= lines.len() - 2 {
            proof {
                lemma_rows_error_stays(all, x_len, row as nat + 1, y_len as nat);
            }
            return Err(WorldError::UnexpectedEnd);
        }
        let line = lines[row + 2].as_str();
        assert(line@ == all[row as int + 2]);
        match parse_world_line(line, x_len) {
            Ok((mut world_line, None)) => {
                let ghost before = world_desc@;
                let ghost added = world_line@;
                world_desc.append(&mut world_line);
                assert(world_desc@ =~= before + added);
            },
            Ok((mut world_line, Some(rob))) => {
                match robot_pos {
                    Some(_) => {
                        proof {
                            lemma_rows_error_stays(all, x_len, row as nat + 1, y_len as nat);
                        }
                        return Err(WorldError::TwoRobots);
                    },
                    None => {},
                }
                assert(rob < world_line.len()) by {
                    lemma_scanned_robot(line@);
                }
                let ghost before = world_desc@;
                let ghost added = world_line@;
                let start = world_desc.len();
                world_desc.append(&mut world_line);
                assert(world_desc@ =~= before + added);
                assert(rob < added.len());
                assert(start + rob < world_desc.len());
                robot_pos = Some(start + rob);
            },
            Err(e) => {
                proof {
                    lemma_rows_error_stays(all, x_len, row as nat + 1, y_len as nat);
                }
                return Err(WorldError::BadLine { row, error: e });
            },
        }
        row += 1;
    }
    match robot_pos {
        None => Err(WorldError::NoRobot),
        Some(rob) => Ok(World::new(world_desc, x_len, y_len, rob)),
    }
}

/// The robot of a line stands on one of its tiles.
proof fn lemma_scanned_robot(line: Seq<char>)
    ensures
        scanned(line) matches Ok((tiles, Some(rob))) ==> rob < tiles.len(),
        scanned(line) matches Ok((tiles, rob)) ==> tiles.len() == line.len(),
    decreases line.len(),
{
    if line.len() > 0 {
        lemma_scanned_robot(line.drop_last());
    }
}

/// An error in the first rows is the error of the whole description.
proof fn lemma_rows_error_stays(lines: Seq<Seq<char>>, x: usize, at: nat, upto: nat)
    requires
        at <= upto,
        rows_read(lines, x, at) is Err,
    ensures
        rows_read(lines, x, upto) == rows_read(lines, x, at),
    decreases upto,
{
    if at < upto {
        lemma_rows_error_stays(lines, x, at, (upto - 1) as nat);
    }
}

} // verus!
