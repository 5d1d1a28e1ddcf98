use wfc::direction::Direction;
use wfc::grid2d::Grid2D;
use wfc::image_container::ImageContainer;
use wfc::image_reader::Image;
use wfc::sample::Sample;
use wfc::vector2::Vector2;

const B: [u8; 3] = [136, 136, 255];
const K: [u8; 3] = [0, 0, 0];

fn sample3(data: [[u8; 3]; 9]) -> Sample {
    Sample {
        region: Grid2D {
            width: 3,
            height: 3,
            data: data.to_vec(),
        },
    }
}

#[test]
fn test_rotate() {
    let s1: Sample = Sample {
        region: Grid2D {
            width: 3,
            height: 3,
            data: [
                [0, 0, 0],
                [136, 136, 255],
                [0, 0, 0],
                [0, 0, 0],
                [136, 136, 255],
                [0, 0, 0],
                [136, 136, 255],
                [136, 136, 255],
                [136, 136, 255],
            ]
            .to_vec(),
        },
    };
    let s2: Sample = Sample {
        region: Grid2D {
            width: 3,
            height: 3,
            data: [
                [136, 136, 255],
                [0, 0, 0],
                [0, 0, 0],
                [136, 136, 255],
                [136, 136, 255],
                [136, 136, 255],
                [136, 136, 255],
                [0, 0, 0],
                [0, 0, 0],
            ]
            .to_vec(),
        },
    };
    let s3: Sample = Sample {
        region: Grid2D {
            width: 3,
            height: 3,
            data: [
                [136, 136, 255],
                [136, 136, 255],
                [136, 136, 255],
                [0, 0, 0],
                [136, 136, 255],
                [0, 0, 0],
                [0, 0, 0],
                [136, 136, 255],
                [0, 0, 0],
            ]
            .to_vec(),
        },
    };
    assert_eq!(s1.rotate_90(), s2);
    assert_eq!(s1.rotate_90().rotate_90(), s3);
}

#[test]
fn test_eq() {
    let s1: Sample = Sample {
        region: Grid2D {
            width: 3,
            height: 3,
            data: [
                [0, 0, 0],
                [136, 136, 255],
                [0, 0, 0],
                [0, 0, 0],
                [136, 136, 255],
                [0, 0, 0],
                [136, 136, 255],
                [136, 136, 255],
                [136, 136, 255],
            ]
            .to_vec(),
        },
    };

    let s2: Sample = Sample {
        region: Grid2D {
            width: 3,
            height: 3,
            data: [
                [136, 136, 255],
                [0, 0, 0],
                [0, 0, 0],
                [136, 136, 255],
                [0, 0, 0],
                [0, 0, 0],
                [136, 136, 255],
                [136, 136, 255],
                [136, 136, 255],
            ]
            .to_vec(),
        },
    };
    assert!(s1.compatible(&s2, Direction::Right));
}

#[test]
fn test_neq() {
    let s1 = Sample {
        region: Grid2D {
            width: 3,
            height: 3,
            data: [
                [0, 0, 0],
                [0, 0, 0],
                [136, 136, 255],
                [0, 0, 0],
                [0, 0, 0],
                [136, 136, 255],
                [136, 136, 255],
                [136, 136, 255],
                [136, 136, 255],
            ]
            .to_vec(),
        },
    };
    let s2 = Sample {
        region: Grid2D {
            width: 3,
            height: 3,
            data: [
                [0, 0, 0],
                [136, 136, 255],
                [0, 0, 0],
                [136, 136, 255],
                [136, 136, 255],
                [136, 136, 255],
                [0, 0, 0],
                [136, 136, 255],
                [0, 0, 0],
            ]
            .to_vec(),
        },
    };
    assert!(!&s1.compatible(&s2, Direction::Up));
    assert!(!&s1.compatible(&s2, Direction::Right));
    assert!(!&s1.compatible(&s2, Direction::Left));
    assert!(!&s1.compatible(&s2, Direction::Down));
}

#[test]
fn test_top_left() {
    let s1: Sample = Sample {
        region: Grid2D {
            width: 3,
            height: 3,
            data: [
                [0, 0, 0],
                [136, 136, 255],
                [0, 0, 0],
                [0, 0, 0],
                [136, 136, 255],
                [0, 0, 0],
                [136, 136, 255],
                [136, 136, 255],
                [136, 136, 255],
            ]
            .to_vec(),
        },
    };

    let s2: Sample = Sample {
        region: Grid2D {
            width: 3,
            height: 3,
            data: [
                [136, 136, 255],
                [0, 0, 0],
                [0, 0, 0],
                [136, 136, 255],
                [0, 0, 0],
                [0, 0, 0],
                [136, 136, 255],
                [136, 136, 255],
                [136, 136, 255],
            ]
            .to_vec(),
        },
    };
    assert_eq!(s2.get_top_left_pixel(), [136, 136, 255]);
    assert_eq!(s1.get_top_left_pixel(), [0, 0, 0]);
}

#[test]
fn four_quarter_turns_return_to_start() {
    let s = sample3([K, B, K, K, B, K, B, B, B]);
    let turns = s.rotate();
    assert_eq!(turns.len(), 4);
    assert_eq!(turns[0], s);
    assert_eq!(turns[1], s.rotate_90());
    assert_eq!(turns[3].rotate_90(), s);
}

#[test]
fn transpose_moves_pixel_to_mirrored_position() {
    let s = sample3([K, B, K, K, K, K, K, K, K]);
    let t = s.transpose_sample();
    assert_eq!(t.at(Vector2 { x: 0, y: 1 }), B);
    assert_eq!(t.at(Vector2 { x: 1, y: 0 }), K);
    assert_ne!(t, s);
    assert_eq!(t.transpose_sample(), s);
}

#[test]
fn half_turn_reverses_pixels() {
    let s = sample3([B, K, K, K, K, K, K, K, [1, 2, 3]]);
    let r = s.rev_sample();
    assert_eq!(r.get_top_left_pixel(), [1, 2, 3]);
    assert_eq!(r.at(Vector2 { x: 2, y: 2 }), B);
}

#[test]
fn red_and_blue_exchanged_after_transpose() {
    let s = sample3([[1, 2, 3], K, K, [4, 5, 6], K, K, K, K, K]);
    let r = s.rev_sample_y();
    assert_eq!(r.at(Vector2 { x: 0, y: 0 }), [3, 2, 1]);
    assert_eq!(r.at(Vector2 { x: 1, y: 0 }), [6, 5, 4]);
    let all = s.get_rotations();
    assert_eq!(all.len(), 4);
    assert_eq!(all[2], s.transpose_sample());
}

#[test]
fn compatibility_is_symmetric_on_examples() {
    let a = sample3([K, B, K, K, B, K, B, B, B]);
    let b = sample3([B, K, K, B, K, K, B, B, B]);
    for d in [Direction::Up, Direction::Down, Direction::Left, Direction::Right] {
        assert_eq!(a.compatible(&b, d), b.compatible(&a, d.opposite()));
    }
    assert!(b.compatible(&a, Direction::Left));
}

#[test]
fn different_sizes_are_never_compatible() {
    let a = sample3([K; 9]);
    let b = Sample {
        region: Grid2D {
            width: 2,
            height: 2,
            data: vec![K; 4],
        },
    };
    assert!(!a.compatible(&b, Direction::Up));
    assert!(a.compatible(&a, Direction::Up));
}

#[test]
fn containers_read_by_position() {
    let img = Image {
        width: 2,
        height: 2,
        pixels: vec![K, B, B, [9, 9, 9]],
    };
    assert_eq!(ImageContainer::idx(&img, Vector2 { x: 1, y: 1 }), 3);
    assert_eq!(ImageContainer::at(&img, Vector2 { x: 1, y: 1 }), [9, 9, 9]);
    let s = sample3([K, B, K, K, K, K, K, K, [7, 7, 7]]);
    assert_eq!(ImageContainer::idx(&s, Vector2 { x: 2, y: 2 }), 8);
    assert_eq!(ImageContainer::at(&s, Vector2 { x: 1, y: 0 }), B);
}
