//! The static level: a grid of rooms and corridors with their doorways.
//! Each side computes it locally as an immutable constant; it is never
//! synchronized or networked.

use vstd::prelude::*;

verus! {

/// The doorways of one room, as grid deltas toward the neighboring room.
pub type Door = Vec<(i8, i8)>;

/// One cell of the level grid.
#[derive(Debug)]
pub enum Room {
    FullRoom(Door),
    Corridor(Door),
    Empty,
}

/// The level: eight columns of rooms.
#[derive(Debug)]
pub struct Level {
    pub rooms: [Vec<Room>; 8],
}

/// How many rooms each of the eight columns holds.
pub open spec fn spec_rooms_in_col(col: int) -> int {
    if col == 0 || col == 7 {
        1
    } else if col == 1 || col == 6 {
        2
    } else if col == 2 || col == 5 {
        3
    } else {
        4
    }
}

/// A doorway delta points at one of the eight neighboring cells.
pub open spec fn door_ok(d: (i8, i8)) -> bool {
    &&& -1 <= d.0 <= 1
    &&& -1 <= d.1 <= 1
    &&& !(d.0 == 0 && d.1 == 0)
}

/// Every doorway of the room points at a neighboring cell.
pub open spec fn room_ok(r: Room) -> bool {
    match r {
        Room::FullRoom(doors) => forall|k: int|
            0 <= k < doors@.len() ==> door_ok(#[trigger] doors@[k]),
        Room::Corridor(doors) => forall|k: int|
            0 <= k < doors@.len() ==> door_ok(#[trigger] doors@[k]),
        Room::Empty => true,
    }
}

/// The number of rooms in the given column of the eight-column grid.
pub fn rooms_in_col(col: usize) -> (r: usize)
    requires
        col < 8,
    ensures
        r == spec_rooms_in_col(col as int),
{
    match col {
        0 | 7 => 1,
        1 | 6 => 2,
        2 | 5 => 3,
        _ => 4,
    }
}

/// The built-in level layout: column heights match `rooms_in_col`, and
/// every doorway points at a neighboring cell.
pub fn example_level() -> (r: Level)
    ensures
        r.rooms@.len() == 8,
        forall|c: int| 0 <= c < 8 ==> (#[trigger] r.rooms@[c])@.len() == spec_rooms_in_col(c),
        forall|c: int, k: int|
            0 <= c < 8 && 0 <= k < r.rooms@[c]@.len() ==> room_ok(#[trigger] r.rooms@[c]@[k]),
{
    let level = Level {
        rooms: [
            vec![Room::FullRoom(vec![(1, 0)])],
            vec![
                Room::FullRoom(vec![(-1, 0), (0, 1), (1, 0)]),
                Room::Corridor(vec![(0, -1), (1, 0)]),
            ],
            vec![
                Room::FullRoom(vec![(-1, 0), (1, 1)]),
                Room::Corridor(vec![(-1, 0), (0, 1)]),
                Room::FullRoom(vec![(0, -1), (1, 1)]),
            ],
            vec![
                Room::FullRoom(vec![(0, 1), (1, 0)]),
                Room::Corridor(vec![(-1, -1), (0, -1), (1, 0)]),
                Room::Corridor(vec![(1, 0), (0, 1)]),
                Room::Corridor(vec![(-1, -1), (0, -1), (1, 0)]),
            ],
            vec![
                Room::FullRoom(vec![(-1, 0), (0, 1)]),
                Room::FullRoom(vec![(-1, 0), (0, -1), (1, -1)]),
                Room::FullRoom(vec![(-1, 0), (1, -1), (0, 1)]),
                Room::Corridor(vec![(-1, 0), (0, -1)]),
            ],
            vec![
                Room::FullRoom(vec![(-1, 1), (1, 0), (0, 1)]),
                Room::FullRoom(vec![(-1, 1), (0, -1), (1, -1)]),
                Room::Empty,
            ],
            vec![
                Room::FullRoom(vec![(-1, 0), (-1, 1), (1, 0)]),
                Room::Empty,
            ],
            vec![Room::FullRoom(vec![(-1, 0)])],
        ],
    };
    level
}

} // verus!
