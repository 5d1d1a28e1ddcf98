use wfc::direction::Direction;
use wfc::grid2d::Grid2D;
use wfc::vector2::Vector2;

#[test]
fn some_test() {}

#[test]
fn index_and_coordinate_are_inverse() {
    let g = Grid2D::init(4, 3, 7u32);
    assert_eq!(g.size(), 12);
    assert_eq!(g.idx(Vector2 { x: 3, y: 2 }), Some(11));
    assert_eq!(g.to_coord(11), Some(Vector2 { x: 3, y: 2 }));
    assert_eq!(g.to_coord(5), Some(Vector2 { x: 1, y: 1 }));
    assert_eq!(g.to_coord(12), None);
    assert_eq!(g.idx(Vector2 { x: 4, y: 0 }), None);
    assert_eq!(g.idx(Vector2 { x: -1, y: 0 }), None);
    assert!(!g.valid_pos(Vector2 { x: 0, y: 3 }));
    assert_eq!(g.get(Vector2 { x: 1, y: 1 }), Some(&7));
}

#[test]
fn clone_range_copies_rectangle() {
    let mut g = Grid2D::init(4, 4, 0u32);
    for y in 0..4 {
        for x in 0..4 {
            g.set(Vector2 { x, y }, (y * 4 + x) as u32);
        }
    }
    let part = g.clone_range(Vector2 { x: 1, y: 2 }, Vector2 { x: 2, y: 2 });
    assert_eq!(part.width, 2);
    assert_eq!(part.height, 2);
    assert_eq!(part.data, vec![9, 10, 13, 14]);
}

#[test]
fn neighbours_and_directions() {
    let p = Vector2 { x: 5, y: 5 };
    assert_eq!(p.neighbor(Direction::Up), Vector2 { x: 5, y: 4 });
    assert_eq!(p.neighbor(Direction::Down), Vector2 { x: 5, y: 6 });
    assert_eq!(p.neighbor(Direction::Left), Vector2 { x: 4, y: 5 });
    assert_eq!(p.neighbor(Direction::Right), Vector2 { x: 6, y: 5 });
    assert_eq!(p.add(Vector2 { x: 1, y: -2 }), Vector2 { x: 6, y: 3 });
    assert_eq!(p.sub(Vector2 { x: 1, y: -2 }), Vector2 { x: 4, y: 7 });
    assert_eq!(Direction::Up.to_idx(), 0);
    assert_eq!(Direction::Right.to_idx(), 1);
    assert_eq!(Direction::Down.to_idx(), 2);
    assert_eq!(Direction::Left.to_idx(), 3);
    assert_eq!(Direction::Up.opposite(), Direction::Down);
    assert_eq!(Direction::Left.opposite(), Direction::Right);
    for i in 0..4 {
        assert_eq!(Direction::from_idx(i).to_idx(), i);
    }
}
