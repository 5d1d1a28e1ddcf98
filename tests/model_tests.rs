use wfc::direction::Direction;
use wfc::grid2d::Grid2D;
use wfc::image_reader::Image;
use wfc::log2::{log2_fixed, plogp_fixed};
use wfc::model::{extract_patterns, Model};
use wfc::sample::Sample;
use wfc::vector2::Vector2;

const A: [u8; 3] = [255, 0, 0];
const B: [u8; 3] = [0, 0, 255];

fn square(data: Vec<[u8; 3]>, n: usize) -> Sample {
    Sample {
        region: Grid2D {
            width: n,
            height: n,
            data,
        },
    }
}

fn stripe_image() -> Image {
    Image {
        width: 2,
        height: 1,
        pixels: vec![A, B],
    }
}

fn find(model: &Model, data: Vec<[u8; 3]>) -> usize {
    model
        .samples
        .iter()
        .position(|s| s.region.data == data)
        .unwrap()
}

#[test]
fn fixed_point_logarithms() {
    assert_eq!(log2_fixed(1), 0);
    assert_eq!(log2_fixed(2), 65536);
    assert_eq!(log2_fixed(3), 98304);
    assert_eq!(log2_fixed(5), 147456);
    assert_eq!(log2_fixed(8), 3 * 65536);
    assert_eq!(log2_fixed(u32::MAX), 31 * 65536 + 65535);
    assert_eq!(plogp_fixed(1), 0);
    assert_eq!(plogp_fixed(4), 4 * 2 * 65536);
}

#[test]
fn windows_wrap_around_the_exemplar() {
    let img = Image {
        width: 2,
        height: 2,
        pixels: vec![A, B, B, A],
    };
    let region = img.get_region(&1, &1, &2, &2);
    assert_eq!(region.region.data, vec![A, B, B, A]);
    let windows = img.sample(2);
    assert_eq!(windows.len(), 4);
    assert_eq!(windows[1].region.data, vec![B, A, A, B]);
    assert_eq!(img.at(Vector2 { x: 1, y: 0 }), B);
    assert_eq!(img.idx(Vector2 { x: 1, y: 1 }), 3);
}

#[test]
fn image_starts_black_and_takes_colours() {
    let mut img = Image::new(3, 2);
    assert_eq!(img.pixels, vec![[0, 0, 0]; 6]);
    img.set_colour(Vector2 { x: 2, y: 1 }, A);
    assert_eq!(img.pixels[5], A);
    assert_eq!(img.at(Vector2 { x: 2, y: 1 }), A);
}

#[test]
fn duplicates_are_merged_and_counted() {
    let a = square(vec![A, A, A, A], 2);
    let b = square(vec![B, B, B, B], 2);
    let c = square(vec![A, B, A, B], 2);
    let model = Model::from_samples(&vec![a.clone(), b.clone(), a.clone(), c.clone(), a.clone()]);
    assert_eq!(model.size(), 3);
    let ia = find(&model, a.region.data.clone());
    let ib = find(&model, b.region.data.clone());
    let ic = find(&model, c.region.data.clone());
    assert_eq!(model.get_relative_freq(ia), (3, plogp_fixed(3)));
    assert_eq!(model.get_relative_freq(ib), (1, 0));
    assert_eq!(model.get_relative_freq(ic), (1, 0));
    for (i, entry) in model.freq_map.iter().enumerate() {
        assert_eq!(entry.0, i);
    }
}

#[test]
fn stripe_exemplar_gives_two_alternating_patterns() {
    let model = Model::create(&stripe_image(), 2, false);
    assert_eq!(model.size(), 2);
    let p0 = find(&model, vec![A, B, A, B]);
    let p1 = find(&model, vec![B, A, B, A]);
    assert_eq!(model.get_possible_nbrs(p0, Direction::Right), Some(vec![p1]));
    assert_eq!(model.get_possible_nbrs(p0, Direction::Left), Some(vec![p1]));
    assert_eq!(model.get_possible_nbrs(p0, Direction::Down), Some(vec![p0]));
    assert_eq!(model.get_possible_nbrs(p1, Direction::Up), Some(vec![p1]));
    let counts = model.get_initial_tile_enabler_counts();
    for t in 0..2 {
        assert_eq!(counts[t].by_direction, [1, 1, 1, 1]);
    }
}

#[test]
fn adjacency_is_symmetric_on_a_model() {
    let img = Image {
        width: 3,
        height: 3,
        pixels: vec![A, B, A, B, B, A, A, A, B],
    };
    let model = Model::create(&img, 2, true);
    let dirs = [Direction::Up, Direction::Down, Direction::Left, Direction::Right];
    for i in 0..model.size() {
        for j in 0..model.size() {
            for d in dirs {
                let there = model.get_possible_nbrs(i, d).map_or(false, |v| v.contains(&j));
                let back = model
                    .get_possible_nbrs(j, d.opposite())
                    .map_or(false, |v| v.contains(&i));
                assert_eq!(there, back);
            }
        }
    }
    let total: u32 = model.freq_map.iter().map(|e| (e.1).0).sum();
    assert_eq!(total, 36);
}

#[test]
fn rotation_adds_three_turns_per_window() {
    let patterns = extract_patterns(&stripe_image(), 2, true);
    assert_eq!(patterns.len(), 8);
    assert_eq!(patterns[0].region.data, vec![A, B, A, B]);
    assert_eq!(patterns[2], patterns[0].rotate_90());
    let model = Model::create(&stripe_image(), 2, true);
    assert_eq!(model.size(), 4);
}

#[test]
fn isolated_patterns_have_no_neighbours() {
    let a = square(vec![[1, 0, 0], [2, 0, 0], [3, 0, 0], [4, 0, 0]], 2);
    let b = square(vec![[5, 0, 0], [6, 0, 0], [7, 0, 0], [8, 0, 0]], 2);
    let model = Model::from_samples(&vec![a, b]);
    for t in 0..2 {
        for d in [Direction::Up, Direction::Down, Direction::Left, Direction::Right] {
            assert_eq!(model.get_possible_nbrs(t, d), None);
        }
    }
}
