use movingai::Map2D;
use movingai::MapError;
use movingai::MovingAiMap;

#[test]
fn indexing() {
    let test = MovingAiMap::new(String::from("test"), 4, 6, vec!['.'; 4 * 6]).unwrap();
    assert_eq!(*test.get((0, 3)), '.');
    assert_eq!(*test.get((3, 0)), '.');
}

fn octile(height: usize, width: usize, cells: Vec<char>) -> MovingAiMap {
    MovingAiMap::new(String::from("octile"), height, width, cells).unwrap()
}

// Row-major 3x3 grid:
//   . W S
//   . . .
//   T G @
fn sample_map() -> MovingAiMap {
    octile(3, 3, vec!['.', 'W', 'S', '.', '.', '.', 'T', 'G', '@'])
}

#[test]
fn construction_failure() {
    let r = MovingAiMap::new(String::from("octile"), 2, 3, vec!['.'; 5]);
    assert_eq!(r.unwrap_err(), MapError::DimensionMismatch);
    let ok = MovingAiMap::new(String::from("octile"), 2, 3, vec!['.'; 6]);
    assert!(ok.is_ok());
}

#[test]
fn dimensions() {
    let map = octile(4, 7, vec!['G'; 28]);
    assert_eq!(map.width(), 7);
    assert_eq!(map.height(), 4);
}

#[test]
fn out_of_bound() {
    let map = sample_map();
    assert!(!map.is_out_of_bound((2, 2)));
    assert!(map.is_out_of_bound((3, 2)));
    assert!(map.is_out_of_bound((2, 3)));
    assert!(map.is_out_of_bound((100, 100)));
}

#[test]
fn traversable_tiles() {
    let map = sample_map();
    assert!(map.is_traversable((0, 0))); // .
    assert!(map.is_traversable((1, 0))); // W
    assert!(map.is_traversable((2, 0))); // S
    assert!(map.is_traversable((1, 2))); // G
    assert!(!map.is_traversable((0, 2))); // T
    assert!(!map.is_traversable((2, 2))); // @
    assert!(!map.is_traversable((3, 0))); // out of bounds
    let odd = octile(1, 1, vec!['?']);
    assert!(!odd.is_traversable((0, 0))); // unrecognized label
}

#[test]
fn terrain_rules() {
    let map = sample_map();
    // Open ground cannot step into water...
    assert!(!map.is_traversable_from((0, 0), (1, 0)));
    // ...but water may step onto open ground.
    assert!(map.is_traversable_from((1, 0), (0, 0)));
    // Open ground may step into swamp and back.
    assert!(map.is_traversable_from((2, 1), (2, 0)));
    assert!(map.is_traversable_from((2, 0), (2, 1)));
    // Water and swamp never directly interconnect.
    assert!(!map.is_traversable_from((1, 0), (2, 0)));
    assert!(!map.is_traversable_from((2, 0), (1, 0)));
    // Nothing enters obstacles or trees.
    assert!(!map.is_traversable_from((1, 1), (0, 2)));
    assert!(!map.is_traversable_from((1, 1), (2, 2)));
    // Obstacles may be left: entering open ground is always legal.
    assert!(map.is_traversable_from((0, 2), (0, 1)));
}

#[test]
fn non_adjacent_steps() {
    let map = sample_map();
    // Two steps away on the same row.
    assert!(!map.is_traversable_from((0, 1), (2, 1)));
    // Out-of-bounds source or destination.
    assert!(!map.is_traversable_from((3, 0), (2, 0)));
    assert!(!map.is_traversable_from((2, 0), (3, 0)));
}

#[test]
fn corner_cutting_open() {
    let map = octile(3, 3, vec!['.'; 9]);
    let neigh = map.neighbors((0, 0));
    assert!(neigh.contains(&(1, 1)));
    assert!(neigh.contains(&(1, 0)));
    assert!(neigh.contains(&(0, 1)));
    assert_eq!(neigh.len(), 3);
}

#[test]
fn corner_cutting_blocked_east() {
    // Corner (1,0) blocked, (0,1) open: diagonal must be excluded.
    let map = octile(3, 3, vec!['.', 'T', '.', '.', '.', '.', '.', '.', '.']);
    let neigh = map.neighbors((0, 0));
    assert!(!neigh.contains(&(1, 1)));
    assert!(!neigh.contains(&(1, 0)));
    assert!(neigh.contains(&(0, 1)));
}

#[test]
fn corner_cutting_blocked_south() {
    // Corner (0,1) blocked, (1,0) open: diagonal must still be excluded.
    let map = octile(3, 3, vec!['.', '.', '.', 'T', '.', '.', '.', '.', '.']);
    let neigh = map.neighbors((0, 0));
    assert!(!neigh.contains(&(1, 1)));
    assert!(neigh.contains(&(1, 0)));
    assert!(!neigh.contains(&(0, 1)));
}

#[test]
fn boundary_safety() {
    let map = octile(4, 5, vec!['.'; 20]);
    let at_origin = map.neighbors((0, 0));
    for c in &at_origin {
        assert!(c.0 < 5 && c.1 < 4);
    }
    assert_eq!(at_origin.len(), 3);
    let at_corner = map.neighbors((4, 3));
    for c in &at_corner {
        assert!(c.0 < 5 && c.1 < 4);
    }
    assert_eq!(at_corner.len(), 3);
}

#[test]
fn four_connected_neighbors() {
    let map = MovingAiMap::new(String::from("tile"), 3, 3, vec!['.'; 9]).unwrap();
    let neigh = map.neighbors((1, 1));
    assert_eq!(neigh.len(), 4);
    assert!(neigh.contains(&(0, 1)));
    assert!(neigh.contains(&(2, 1)));
    assert!(neigh.contains(&(1, 0)));
    assert!(neigh.contains(&(1, 2)));
    assert!(!neigh.contains(&(0, 0)));
    assert!(!neigh.contains(&(2, 2)));
}

#[test]
fn self_step() {
    // Octile adjacency includes the tile itself; 4-connected does not.
    let map = octile(1, 1, vec!['.']);
    assert!(map.is_traversable_from((0, 0), (0, 0)));
    let tile = MovingAiMap::new(String::from("tile"), 1, 1, vec!['.']).unwrap();
    assert!(!tile.is_traversable_from((0, 0), (0, 0)));
}

#[test]
fn coords_row_major() {
    let map = octile(2, 3, vec!['.'; 6]);
    let mut it = map.coords();
    let expected = [(0, 0), (1, 0), (2, 0), (0, 1), (1, 1), (2, 1)];
    for e in &expected {
        assert_eq!(it.next(), Some(*e));
    }
    assert_eq!(it.next(), None);
    assert_eq!(it.next(), None);
}

#[test]
fn coords_restartable() {
    let map = octile(2, 2, vec!['.'; 4]);
    let mut first = map.coords();
    while first.next().is_some() {}
    let mut fresh = map.coords();
    assert_eq!(fresh.next(), Some((0, 0)));
}

#[test]
fn coords_always_in_bounds() {
    let map = sample_map();
    let mut it = map.coords();
    let mut seen = 0;
    while let Some(c) = it.next() {
        assert!(!map.is_out_of_bound(c));
        let _ = *map.get(c);
        seen += 1;
    }
    assert_eq!(seen, 9);
}

#[test]
fn free_states_count() {
    let map = sample_map();
    // Traversable: . W S . . . G  -> 7 of 9.
    assert_eq!(map.free_states(), 7);
    // Matches a manual scan over the coordinate cursor.
    let mut it = map.coords();
    let mut count = 0;
    while let Some(c) = it.next() {
        if map.is_traversable(c) {
            count += 1;
        }
    }
    assert_eq!(map.free_states(), count);
}

#[test]
fn free_states_empty_grid() {
    let map = octile(0, 5, vec![]);
    assert_eq!(map.free_states(), 0);
    let mut it = map.coords();
    assert_eq!(it.next(), None);
    let tall = octile(5, 0, vec![]);
    assert_eq!(tall.free_states(), 0);
    let mut it2 = tall.coords();
    assert_eq!(it2.next(), None);
}
