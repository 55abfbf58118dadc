use vstd::prelude::*;
use vstd::string::*;

use crate::coord::{opposite, step, Coord, Direction};
use crate::level::{room_at, Level};
use crate::text::{push_char, strs};

verus! {

/// The exits of one passable cell: for each direction, the neighbouring cell
/// if it is passable too.
#[derive(Clone, Copy, Debug, PartialEq, Eq, Structural)]
pub struct RoomMapInfo {
    pub north: Option<Coord>,
    pub east: Option<Coord>,
    pub south: Option<Coord>,
    pub west: Option<Coord>,
}

/// The exit of `info` in direction `d`.
pub open spec fn exit_of(info: RoomMapInfo, d: Direction) -> Option<Coord> {
    match d {
        Direction::North => info.north,
        Direction::East => info.east,
        Direction::West => info.west,
        Direction::South => info.south,
    }
}

impl RoomMapInfo {
    /// The exit in `direction`.
    pub fn from_direction(&self, direction: &Direction) -> (r: Option<Coord>)
        ensures
            r == exit_of(*self, *direction),
    {
        match direction {
            Direction::North => self.north,
            Direction::East => self.east,
            Direction::West => self.west,
            Direction::South => self.south,
        }
    }
}

/// The exits line shown under a room: `Exits:` followed, for north, east,
/// south and west in turn, by the direction's letter or `_` where there is
/// no exit.
pub open spec fn exits_text(info: RoomMapInfo) -> Seq<char> {
    "Exits:"@ + (if info.north is Some {
        " n"@
    } else {
        " _"@
    }) + (if info.east is Some {
        " e"@
    } else {
        " _"@
    }) + (if info.south is Some {
        " s"@
    } else {
        " _"@
    }) + (if info.west is Some {
        " w"@
    } else {
        " _"@
    })
}

/// Renders the exits line shown under a room.
pub fn print_exits(room_map_info: &RoomMapInfo) -> (r: String)
    ensures
        r@ == exits_text(*room_map_info),
{
    let mut exits = String::from_str("Exits:");
    exits.append(if room_map_info.north.is_some() { " n" } else { " _" });
    exits.append(if room_map_info.east.is_some() { " e" } else { " _" });
    exits.append(if room_map_info.south.is_some() { " s" } else { " _" });
    exits.append(if room_map_info.west.is_some() { " w" } else { " _" });
    exits
}

/// The characters of row `y` of layer `z`.
pub open spec fn grid_row(level: Level, z: int, y: int) -> Seq<char> {
    level.maps@[z]@[y]@
}

/// `c` lies on a row of the grids, before that row's end.
pub open spec fn in_grid(level: Level, c: Coord) -> bool {
    &&& c.z < level.maps@.len()
    &&& c.y < level.maps@[c.z as int]@.len()
    &&& c.x < grid_row(level, c.z as int, c.y as int).len()
}

/// The character at `c`.
pub open spec fn cell(level: Level, c: Coord) -> char {
    grid_row(level, c.z as int, c.y as int)[c.x as int]
}

/// `c` is read as a cell: no space (which starts a comment) comes before it
/// on its row.
pub open spec fn scanned(level: Level, c: Coord) -> bool {
    in_grid(level, c) && forall|k: int| 0 <= k < c.x ==> grid_row(level, c.z as int, c.y as int)[k] != ' '
}

/// `c` is a passable cell, marked `.`.
pub open spec fn passable(level: Level, c: Coord) -> bool {
    scanned(level, c) && cell(level, c) == '.'
}

/// `c` holds a character that is neither a cell mark (`.`, `#`, `-`) nor a
/// space.
pub open spec fn bad_cell(level: Level, c: Coord) -> bool {
    scanned(level, c) && cell(level, c) != '.' && cell(level, c) != '#' && cell(level, c) != '-'
        && cell(level, c) != ' '
}

/// `c` comes before position (`z`, `y`, `x`) in reading order: layer by
/// layer, row by row, left to right.
pub open spec fn before(c: Coord, z: int, y: int, x: int) -> bool {
    c.z < z || (c.z == z && (c.y < y || (c.y == y && c.x < x)))
}

/// `a` comes before `b` in reading order.
pub open spec fn read_before(a: Coord, b: Coord) -> bool {
    before(a, b.z as int, b.y as int, b.x as int)
}

/// The exit from `c` in direction `d` that the grids call for.
pub open spec fn expected_exit(level: Level, c: Coord, d: Direction) -> Option<Coord> {
    match step(c, d) {
        Some(n) => if passable(level, n) {
            Some(n)
        } else {
            None
        },
        None => None,
    }
}

/// The exits of `c` that the grids call for.
pub open spec fn expected_info(level: Level, c: Coord) -> RoomMapInfo {
    RoomMapInfo {
        north: expected_exit(level, c, Direction::North),
        east: expected_exit(level, c, Direction::East),
        south: expected_exit(level, c, Direction::South),
        west: expected_exit(level, c, Direction::West),
    }
}

/// A content error in the grids.
#[derive(Debug)]
pub enum MapError {
    /// The first cell, in reading order, holding an unknown character.
    UnknownCharacter(Coord),
    /// Every passable cell that no room is defined for, in reading order.
    MissingRooms(Vec<Coord>),
}

/// The exits of every passable cell of a level, keyed by coordinate.
#[derive(Debug)]
pub struct RoomMap {
    pub entries: Vec<(Coord, RoomMapInfo)>,
}

impl RoomMap {
    /// The entries are exactly the passable cells of `level`, once each, each
    /// with the exits that the grids call for.
    pub open spec fn resolves(&self, level: Level) -> bool {
        &&& forall|i: int, j: int|
            0 <= i < j < self.entries@.len() ==> (#[trigger] self.entries@[i]).0 != (#[trigger] self.entries@[j]).0
        &&& forall|i: int|
            0 <= i < self.entries@.len() ==> passable(level, (#[trigger] self.entries@[i]).0)
                && self.entries@[i].1 == expected_info(level, self.entries@[i].0)
        &&& forall|c: Coord| passable(level, c) ==> exists|i: int| 0 <= i < self.entries@.len() && (#[trigger] self.entries@[i]).0 == c
    }

    /// The exits of the cell at `coord`.
    pub fn get(&self, coord: &Coord) -> (r: Option<RoomMapInfo>)
        ensures
            r matches Some(info) ==> exists|i: int| 0 <= i < self.entries@.len() && #[trigger] self.entries@[i] == (*coord, info),
            r is None ==> forall|i: int| 0 <= i < self.entries@.len() ==> (#[trigger] self.entries@[i]).0 != *coord,
    {
        let mut i: usize = 0;
        while i < self.entries.len()
            invariant
                i <= self.entries@.len(),
                forall|k: int| 0 <= k < i ==> (#[trigger] self.entries@[k]).0 != *coord,
            decreases self.entries@.len() - i,
        {
            if self.entries[i].0 == *coord {
                assert(self.entries@[i as int] == (*coord, self.entries@[i as int].1));
                return Some(self.entries[i].1);
            }
            i += 1;
        }
        None
    }
}

/// Whether `cells` holds `c`.
fn contains_coord(cells: &Vec<Coord>, c: &Coord) -> (r: bool)
    ensures
        r == cells@.contains(*c),
{
    let mut i: usize = 0;
    while i < cells.len()
        invariant
            i <= cells@.len(),
            forall|k: int| 0 <= k < i ==> cells@[k] != *c,
        decreases cells@.len() - i,
    {
        if cells[i] == *c {
            assert(cells@[i as int] == *c);
            return true;
        }
        i += 1;
    }
    false
}

/// The passable cells of every grid in reading order, or the first cell that
/// holds an unknown character.
fn scan_cells(level: &Level) -> (r: Result<Vec<Coord>, Coord>)
    ensures
        match r {
            Ok(cells) => {
                &&& forall|c: Coord| !bad_cell(*level, c)
                &&& forall|c: Coord| passable(*level, c) <==> cells@.contains(c)
                &&& cells@.no_duplicates()
            },
            Err(c) => {
                &&& bad_cell(*level, c)
                &&& forall|b: Coord| bad_cell(*level, b) ==> !read_before(b, c)
            },
        },
{
    let mut cells: Vec<Coord> = Vec::new();
    let mut z: usize = 0;
    while z < level.maps.len()
        invariant
            z <= level.maps@.len(),
            forall|c: Coord| bad_cell(*level, c) ==> !before(c, z as int, 0, 0),
            forall|c: Coord| (passable(*level, c) && before(c, z as int, 0, 0)) <==> cells@.contains(c),
            forall|k: int| 0 <= k < cells@.len() ==> before(#[trigger] cells@[k], z as int, 0, 0),
            cells@.no_duplicates(),
        decreases level.maps@.len() - z,
    {
        let map = &level.maps[z];
        let mut y: usize = 0;
        while y < map.len()
            invariant
                z < level.maps@.len(),
                *map == level.maps@[z as int],
                y <= map@.len(),
                forall|c: Coord| bad_cell(*level, c) ==> !before(c, z as int, y as int, 0),
                forall|c: Coord| (passable(*level, c) && before(c, z as int, y as int, 0)) <==> cells@.contains(c),
                forall|k: int| 0 <= k < cells@.len() ==> before(#[trigger] cells@[k], z as int, y as int, 0),
                cells@.no_duplicates(),
            decreases map@.len() - y,
        {
            let row = map[y].as_str();
            let n = row.unicode_len();
            let mut x: usize = 0;
            let mut ended = false;
            while x < n && !ended
                invariant
                    z < level.maps@.len(),
                    *map == level.maps@[z as int],
                    y < map@.len(),
                    row@ == grid_row(*level, z as int, y as int),
                    n == row@.len(),
                    x <= n,
                    forall|k: int| 0 <= k < x ==> row@[k] != ' ',
                    ended ==> x < n && row@[x as int] == ' ',
                    forall|c: Coord| bad_cell(*level, c) ==> !before(c, z as int, y as int, x as int),
                    forall|c: Coord| (passable(*level, c) && before(c, z as int, y as int, x as int)) <==> cells@.contains(c),
                    forall|k: int| 0 <= k < cells@.len() ==> before(#[trigger] cells@[k], z as int, y as int, x as int),
                    cells@.no_duplicates(),
                decreases 2 * (n - x) + if ended { 0int } else { 1int },
            {
                let ch = row.get_char(x);
                let here = Coord { x, y, z };
                assert(scanned(*level, here));
                if ch == '.' {
                    proof {
                        assert forall|k: int| 0 <= k < cells@.len() implies cells@[k] != here by {
                            assert(before(cells@[k], z as int, y as int, x as int));
                        }
                    }
                    let ghost prev = cells@;
                    cells.push(here);
                    proof {
                        assert forall|c: Coord| (passable(*level, c) && before(c, z as int, y as int, x + 1)) <==> cells@.contains(c) by {
                            if c == here {
                                assert(cells@[prev.len() as int] == here);
                            } else if cells@.contains(c) {
                                let k = choose|k: int| 0 <= k < cells@.len() && cells@[k] == c;
                                assert(prev[k] == c);
                            }
                            if prev.contains(c) {
                                let k = choose|k: int| 0 <= k < prev.len() && prev[k] == c;
                                assert(cells@[k] == c);
                            }
                        }
                    }
                    x += 1;
                } else if ch == '#' || ch == '-' {
                    proof {
                        assert forall|c: Coord| (passable(*level, c) && before(c, z as int, y as int, x + 1)) <==> cells@.contains(c) by {
                            if c == here {
                                assert(!passable(*level, c));
                            }
                        }
                    }
                    x += 1;
                } else if ch == ' ' {
                    ended = true;
                } else {
                    return Err(here);
                }
            }
            proof {
                assert forall|c: Coord| bad_cell(*level, c) implies !before(c, z as int, y as int + 1, 0) by {
                    if c.z == z && c.y == y && c.x >= x {
                        if c.x > x {
                            assert(grid_row(*level, z as int, y as int)[x as int] == ' ');
                        }
                    }
                }
                assert forall|c: Coord| (passable(*level, c) && before(c, z as int, y as int + 1, 0)) <==> cells@.contains(c) by {
                    if c.z == z && c.y == y && c.x >= x && passable(*level, c) {
                        if c.x > x {
                            assert(grid_row(*level, z as int, y as int)[x as int] == ' ');
                        }
                    }
                    if cells@.contains(c) {
                        let k = choose|k: int| 0 <= k < cells@.len() && cells@[k] == c;
                        assert(before(cells@[k], z as int, y as int, x as int));
                    }
                }
                assert forall|k: int| 0 <= k < cells@.len() implies before(#[trigger] cells@[k], z as int, y as int + 1, 0) by {
                    assert(before(cells@[k], z as int, y as int, x as int));
                }
            }
            y += 1;
        }
        proof {
            assert forall|c: Coord| bad_cell(*level, c) implies !before(c, z as int + 1, 0, 0) by {
                assert(!before(c, z as int, y as int, 0));
            }
            assert forall|c: Coord| (passable(*level, c) && before(c, z as int + 1, 0, 0)) <==> cells@.contains(c) by {
                if cells@.contains(c) {
                    let k = choose|k: int| 0 <= k < cells@.len() && cells@[k] == c;
                    assert(before(cells@[k], z as int, y as int, 0));
                }
            }
            assert forall|k: int| 0 <= k < cells@.len() implies before(#[trigger] cells@[k], z as int + 1, 0, 0) by {
                assert(before(cells@[k], z as int, y as int, 0));
            }
        }
        z += 1;
    }
    proof {
        assert forall|c: Coord| passable(*level, c) <==> cells@.contains(c) by {
            if cells@.contains(c) {
                let k = choose|k: int| 0 <= k < cells@.len() && cells@[k] == c;
                assert(before(cells@[k], z as int, 0, 0));
            }
        }
        assert forall|c: Coord| !bad_cell(*level, c) by {
            if bad_cell(*level, c) {
                assert(!before(c, z as int, 0, 0));
            }
        }
    }
    Ok(cells)
}

/// `c` is passable but no room is defined for it.
pub open spec fn missing_room(level: Level, c: Coord) -> bool {
    passable(level, c) && room_at(level.rooms@, c) is None
}

/// The exit from `c` in direction `d`, given every passable cell.
fn neighbor(level: &Level, cells: &Vec<Coord>, c: &Coord, d: Direction) -> (r: Option<Coord>)
    requires
        forall|p: Coord| passable(*level, p) <==> cells@.contains(p),
    ensures
        r == expected_exit(*level, *c, d),
{
    match c.apply(&d) {
        Some(n) => if contains_coord(cells, &n) {
            Some(n)
        } else {
            None
        },
        None => None,
    }
}

/// Resolves the grids of `level` into the exits of every passable cell.
///
/// Fails on the first cell, in reading order, holding an unknown character;
/// otherwise fails with every passable cell that has no room, if there is one.
pub fn parse_map(level: &Level) -> (r: Result<RoomMap, MapError>)
    ensures
        match r {
            Err(MapError::UnknownCharacter(c)) => {
                &&& bad_cell(*level, c)
                &&& forall|b: Coord| bad_cell(*level, b) ==> !read_before(b, c)
            },
            Err(MapError::MissingRooms(v)) => {
                &&& forall|c: Coord| !bad_cell(*level, c)
                &&& v@.len() > 0
                &&& forall|c: Coord| v@.contains(c) <==> missing_room(*level, c)
            },
            Ok(m) => {
                &&& forall|c: Coord| !bad_cell(*level, c)
                &&& forall|c: Coord| !missing_room(*level, c)
                &&& m.resolves(*level)
            },
        },
{
    let cells = match scan_cells(level) {
        Ok(cells) => cells,
        Err(c) => {
            return Err(MapError::UnknownCharacter(c));
        },
    };
    let mut missing: Vec<Coord> = Vec::new();
    let mut i: usize = 0;
    while i < cells.len()
        invariant
            i <= cells@.len(),
            forall|c: Coord|
                missing@.contains(c) <==> exists|k: int|
                    0 <= k < i && #[trigger] cells@[k] == c && room_at(level.rooms@, c) is None,
        decreases cells@.len() - i,
    {
        let c = cells[i];
        let ghost prev = missing@;
        if level.get_room(&c).is_none() {
            missing.push(c);
            proof {
                assert forall|p: Coord|
                    missing@.contains(p) <==> exists|k: int|
                        0 <= k < i + 1 && #[trigger] cells@[k] == p && room_at(level.rooms@, p) is None by {
                    if missing@.contains(p) && p != c {
                        let j = choose|j: int| 0 <= j < missing@.len() && missing@[j] == p;
                        assert(prev[j] == p);
                    }
                    if p == c {
                        assert(missing@[prev.len() as int] == p);
                    }
                    if prev.contains(p) {
                        let j = choose|j: int| 0 <= j < prev.len() && prev[j] == p;
                        assert(missing@[j] == p);
                    }
                }
            }
        } else {
            proof {
                assert forall|p: Coord|
                    missing@.contains(p) <==> exists|k: int|
                        0 <= k < i + 1 && #[trigger] cells@[k] == p && room_at(level.rooms@, p) is None by {
                    if exists|k: int| 0 <= k < i + 1 && #[trigger] cells@[k] == p && room_at(level.rooms@, p) is None {
                        let k = choose|k: int| 0 <= k < i + 1 && #[trigger] cells@[k] == p && room_at(level.rooms@, p) is None;
                        assert(k != i);
                    }
                }
            }
        }
        i += 1;
    }
    proof {
        assert forall|c: Coord| missing@.contains(c) <==> missing_room(*level, c) by {
            if missing_room(*level, c) {
                let k = choose|k: int| 0 <= k < cells@.len() && cells@[k] == c;
                assert(cells@[k] == c);
            }
        }
    }
    if missing.len() > 0 {
        return Err(MapError::MissingRooms(missing));
    }
    proof {
        assert forall|c: Coord| !missing_room(*level, c) by {
            if missing_room(*level, c) {
                assert(missing@.contains(c));
            }
        }
    }
    let mut entries: Vec<(Coord, RoomMapInfo)> = Vec::new();
    let mut i: usize = 0;
    while i < cells.len()
        invariant
            i <= cells@.len(),
            forall|p: Coord| passable(*level, p) <==> cells@.contains(p),
            entries@.len() == i,
            forall|k: int| 0 <= k < i ==> #[trigger] entries@[k] == (cells@[k], expected_info(*level, cells@[k])),
        decreases cells@.len() - i,
    {
        let c = cells[i];
        let info = RoomMapInfo {
            north: neighbor(level, &cells, &c, Direction::North),
            east: neighbor(level, &cells, &c, Direction::East),
            south: neighbor(level, &cells, &c, Direction::South),
            west: neighbor(level, &cells, &c, Direction::West),
        };
        entries.push((c, info));
        i += 1;
    }
    let m = RoomMap { entries };
    proof {
        assert forall|a: int, b: int| 0 <= a < b < m.entries@.len() implies (#[trigger] m.entries@[a]).0 != (#[trigger] m.entries@[b]).0 by {
            assert(m.entries@[a].0 == cells@[a]);
            assert(m.entries@[b].0 == cells@[b]);
        }
        assert forall|k: int| 0 <= k < m.entries@.len() implies passable(*level, (#[trigger] m.entries@[k]).0)
            && m.entries@[k].1 == expected_info(*level, m.entries@[k].0) by {
            assert(m.entries@[k] == (cells@[k], expected_info(*level, cells@[k])));
            assert(cells@.contains(cells@[k]));
        }
        assert forall|c: Coord| passable(*level, c) implies exists|k: int| 0 <= k < m.entries@.len() && (#[trigger] m.entries@[k]).0 == c by {
            let k = choose|k: int| 0 <= k < cells@.len() && cells@[k] == c;
            assert(m.entries@[k] == (cells@[k], expected_info(*level, cells@[k])));
        }
    }
    Ok(m)
}

/// Adjacency is mutual: where the exit of a cell in one direction leads to
/// another cell, that cell's exit in the opposite direction leads back.
pub proof fn lemma_exits_mutual(level: Level, m: RoomMap, a: Coord, d: Direction, i: int)
    requires
        m.resolves(level),
        0 <= i < m.entries@.len(),
        m.entries@[i].0 == a,
    ensures
        exit_of(m.entries@[i].1, d) matches Some(b) ==> exists|j: int|
            0 <= j < m.entries@.len() && (#[trigger] m.entries@[j]).0 == b && exit_of(m.entries@[j].1, opposite(d)) == Some(a),
{
    if let Some(b) = exit_of(m.entries@[i].1, d) {
        assert(m.entries@[i].1 == expected_info(level, a));
        assert(passable(level, b));
        crate::coord::lemma_step_opposite(a, d);
        assert(passable(level, a));
        let j = choose|j: int| 0 <= j < m.entries@.len() && (#[trigger] m.entries@[j]).0 == b;
        assert(m.entries@[j].1 == expected_info(level, b));
    }
}

/// Each exit of a passable cell, spelled out: north is the cell one row up,
/// south one row down, east one column right and west one column left, each
/// present exactly when that cell exists and is passable.
pub proof fn lemma_exits_are_passable_neighbours(level: Level, m: RoomMap, i: int)
    requires
        m.resolves(level),
        0 <= i < m.entries@.len(),
    ensures
        ({
            let c = m.entries@[i].0;
            let info = m.entries@[i].1;
            let north = Coord { x: c.x, y: (c.y - 1) as usize, z: c.z };
            let south = Coord { x: c.x, y: (c.y + 1) as usize, z: c.z };
            let east = Coord { x: (c.x + 1) as usize, y: c.y, z: c.z };
            let west = Coord { x: (c.x - 1) as usize, y: c.y, z: c.z };
            &&& passable(level, c)
            &&& info.north == if c.y > 0 && passable(level, north) { Some(north) } else { None }
            &&& info.south == if c.y < usize::MAX && passable(level, south) { Some(south) } else { None }
            &&& info.east == if c.x < usize::MAX && passable(level, east) { Some(east) } else { None }
            &&& info.west == if c.x > 0 && passable(level, west) { Some(west) } else { None }
        }),
{
    assert(m.entries@[i].1 == expected_info(level, m.entries@[i].0));
}

/// A cell's exit in a direction is the neighbouring cell exactly when that
/// neighbour is passable.
pub proof fn lemma_exit_iff_passable(level: Level, m: RoomMap, d: Direction, i: int)
    requires
        m.resolves(level),
        0 <= i < m.entries@.len(),
    ensures
        forall|n: Coord|
            exit_of(m.entries@[i].1, d) == Some(n) <==> (step(m.entries@[i].0, d) == Some(n) && passable(level, n)),
{
    assert(m.entries@[i].1 == expected_info(level, m.entries@[i].0));
}

/// The report that points at `c` in its grid: the rows of its layer up to
/// and including its row, then a line with a caret under its column. `None`
/// where the layer does not exist.
pub open spec fn issue_lines(level: Level, c: Coord) -> Option<Seq<Seq<char>>> {
    if c.z >= level.maps@.len() {
        None
    } else {
        let rows = strs(level.maps@[c.z as int]@);
        if c.y < rows.len() {
            Some(rows.subrange(0, c.y + 1).push(Seq::new(c.x as nat, |i: int| ' ').push('^')))
        } else {
            Some(rows)
        }
    }
}

/// Renders the report that points at `coord` in its grid.
pub fn print_map_issue(level: &Level, coord: &Coord) -> (r: Option<Vec<String>>)
    ensures
        match r {
            Some(lines) => issue_lines(*level, *coord) == Some(strs(lines@)),
            None => issue_lines(*level, *coord) is None,
        },
{
    if coord.z >= level.maps.len() {
        return None;
    }
    let map = &level.maps[coord.z];
    let mut lines: Vec<String> = Vec::new();
    let mut y: usize = 0;
    while y < map.len()
        invariant
            coord.z < level.maps@.len(),
            *map == level.maps@[coord.z as int],
            y <= map@.len(),
            y <= coord.y,
            strs(lines@) == strs(map@).subrange(0, y as int),
        decreases map@.len() - y,
    {
        let ghost before = lines@;
        lines.push(map[y].clone());
        assert(strs(lines@) =~= strs(before).push(map@[y as int]@));
        assert(strs(lines@) =~= strs(map@).subrange(0, y + 1));
        if y == coord.y {
            let mut caret = String::new();
            let mut i: usize = 0;
            while i < coord.x
                invariant
                    i <= coord.x,
                    caret@ == Seq::new(i as nat, |k: int| ' '),
                decreases coord.x - i,
            {
                push_char(&mut caret, ' ');
                i += 1;
                assert(caret@ =~= Seq::new(i as nat, |k: int| ' '));
            }
            push_char(&mut caret, '^');
            let ghost with_row = lines@;
            lines.push(caret);
            assert(strs(lines@) =~= strs(with_row).push(caret@));
            assert(strs(lines@) =~= strs(map@).subrange(0, coord.y + 1).push(Seq::new(coord.x as nat, |k: int| ' ').push('^')));
            return Some(lines);
        }
        y += 1;
    }
    assert(strs(map@).subrange(0, y as int) =~= strs(map@));
    Some(lines)
}

} // verus!
