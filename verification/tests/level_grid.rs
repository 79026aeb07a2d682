use libplen::level::{example_level, rooms_in_col, Room};

#[test]
fn column_heights() {
    assert_eq!(rooms_in_col(0), 1);
    assert_eq!(rooms_in_col(1), 2);
    assert_eq!(rooms_in_col(2), 3);
    assert_eq!(rooms_in_col(3), 4);
    assert_eq!(rooms_in_col(4), 4);
    assert_eq!(rooms_in_col(5), 3);
    assert_eq!(rooms_in_col(6), 2);
    assert_eq!(rooms_in_col(7), 1);
}

#[test]
fn example_level_matches_column_heights() {
    let level = example_level();
    for col in 0..8 {
        assert_eq!(level.rooms[col].len(), rooms_in_col(col));
    }
}

#[test]
fn example_level_doors_point_at_neighbors() {
    let level = example_level();
    for col in level.rooms.iter() {
        for room in col.iter() {
            let doors = match room {
                Room::FullRoom(doors) => doors,
                Room::Corridor(doors) => doors,
                Room::Empty => continue,
            };
            assert!(!doors.is_empty());
            for &(dx, dy) in doors.iter() {
                assert!((-1..=1).contains(&dx));
                assert!((-1..=1).contains(&dy));
                assert!(!(dx == 0 && dy == 0));
            }
        }
    }
}
