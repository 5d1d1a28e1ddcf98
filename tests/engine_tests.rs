use std::sync::Arc;
use wfc::cli::{Args, ConfigError};
use wfc::engine::{
    entropy_key, process, synthesize, CoreCell, CoreState, RunStatus, SynthesisError,
    TileEnablerCount,
};
use wfc::grid2d::Grid2D;
use wfc::image_reader::Image;
use wfc::log2::plogp_fixed;
use wfc::model::Model;
use wfc::vector2::Vector2;
use wfc::sample::Sample;

const A: [u8; 3] = [255, 0, 0];
const B: [u8; 3] = [0, 0, 255];
const C: [u8; 3] = [0, 255, 0];

fn args(n: usize, width: usize, height: usize, rotation: bool) -> Args {
    Args {
        img_path: String::new(),
        n_dimensions: n,
        width,
        height,
        rotation,
    }
}

fn square(data: Vec<[u8; 3]>, n: usize) -> Sample {
    Sample {
        region: Grid2D {
            width: n,
            height: n,
            data,
        },
    }
}

fn isolated_model() -> Model {
    let a = square(vec![[1, 0, 0], [2, 0, 0], [3, 0, 0], [4, 0, 0]], 2);
    let b = square(vec![[5, 0, 0], [6, 0, 0], [7, 0, 0], [8, 0, 0]], 2);
    Model::from_samples(&vec![a, b])
}

fn weighted_model() -> Model {
    let a = square(vec![A; 4], 2);
    let b = square(vec![B; 4], 2);
    let c = square(vec![C; 4], 2);
    Model::from_samples(&vec![a.clone(), a.clone(), a, b, c.clone(), c])
}

fn mosaic_image() -> Image {
    Image {
        width: 4,
        height: 4,
        pixels: vec![A, A, B, C, A, B, C, C, B, C, C, A, C, C, A, A],
    }
}

#[test]
fn single_pixel_exemplar_fills_output() {
    let img = Image {
        width: 1,
        height: 1,
        pixels: vec![[0, 0, 0]],
    };
    let out = synthesize(&img, &args(1, 10, 10, false), 7, 3).unwrap();
    assert_eq!(out.len(), 100);
    assert!(out.iter().all(|p| *p == [0, 0, 0]));
}

#[test]
fn stripe_output_alternates_along_rows() {
    let img = Image {
        width: 2,
        height: 1,
        pixels: vec![A, B],
    };
    let out = synthesize(&img, &args(2, 4, 4, false), 11, 5).unwrap();
    assert_eq!(out.len(), 16);
    for y in 0..4 {
        for x in 0..4 {
            let p = out[y * 4 + x];
            assert!(p == A || p == B);
            if x + 1 < 4 {
                assert_ne!(p, out[y * 4 + x + 1]);
            }
            if y + 1 < 4 {
                assert_eq!(p, out[(y + 1) * 4 + x]);
            }
        }
    }
}

#[test]
fn incompatible_patterns_fail_and_retry() {
    let mut state = CoreState::new(Arc::new(isolated_model()), 3, 3, 1);
    assert_eq!(state.run(), RunStatus::Failed);
    assert_eq!(process(isolated_model(), 3, 3, 1, 4), None);
}

#[test]
fn same_seed_same_image() {
    let first = synthesize(&mosaic_image(), &args(2, 12, 9, false), 42, 30);
    let second = synthesize(&mosaic_image(), &args(2, 12, 9, false), 42, 30);
    assert!(first.is_ok());
    assert_eq!(first, second);
}

#[test]
fn output_windows_occur_in_model() {
    let img = mosaic_image();
    let model = Model::create(&img, 2, false);
    let mut state = CoreState::new(Arc::new(Model::create(&img, 2, false)), 8, 8, 5);
    let mut status = state.run();
    let mut seed = 5;
    while status != RunStatus::Succeeded && seed < 40 {
        seed += 1;
        state = CoreState::new(Arc::new(Model::create(&img, 2, false)), 8, 8, seed);
        status = state.run();
    }
    assert_eq!(status, RunStatus::Succeeded);
    assert!(state.is_collpased());
    let tiles: Vec<usize> = state
        .grid
        .data
        .iter()
        .map(|c| c.get_the_only_possible_tile_index().unwrap())
        .collect();
    for y in 0..7 {
        for x in 0..7 {
            let here = &model.samples[tiles[y * 8 + x]];
            let right = &model.samples[tiles[y * 8 + x + 1]];
            let below = &model.samples[tiles[(y + 1) * 8 + x]];
            assert!(here.compatible(right, wfc::direction::Direction::Right));
            assert!(here.compatible(below, wfc::direction::Direction::Down));
        }
    }
    let out = state.output_pixels();
    assert_eq!(out.len(), 64);
    for y in 0..7 {
        for x in 0..7 {
            let window = vec![
                out[y * 8 + x],
                out[y * 8 + x + 1],
                out[(y + 1) * 8 + x],
                out[(y + 1) * 8 + x + 1],
            ];
            assert!(model.samples.iter().any(|s| s.region.data == window));
        }
    }
}

#[test]
fn cached_entropy_matches_recomputed() {
    let model = weighted_model();
    let mut cell = CoreCell::new(model.size(), &model);
    assert_eq!(cell.sum_of_possible_tile_weights, 6);
    assert_eq!(cell.entropy(), cell.entropy_no_cache(&model));
    for t in [1usize, 0, 2] {
        if cell.get_the_only_possible_tile_index().is_some() {
            break;
        }
        cell.remove_tile(t, &model);
        assert_eq!(cell.entropy(), cell.entropy_no_cache(&model));
        assert_eq!(cell.total_possible_tile_freq(&model), cell.sum_of_possible_tile_weights);
    }
    assert_eq!(cell.get_the_only_possible_tile_index(), Some(2));
    assert!(!cell.has_no_possible_tiles(&model));
    assert_eq!(cell.sum_of_possible_tile_weights, 2);
    assert_eq!(cell.sum_of_possible_tile_weight_log_weights, plogp_fixed(2));
}

#[test]
fn entropy_of_even_choices() {
    assert_eq!(entropy_key(2, 0, 0), 1u64 << 32);
    assert_eq!(entropy_key(4, 2 * plogp_fixed(2), 0), 1u64 << 32);
    assert_eq!(entropy_key(1, 0, 9), 9);
    assert_eq!(entropy_key(0, 0, 3), 3);
    assert_eq!(entropy_key(4, 0, 0), 2u64 << 32);
}

#[test]
fn roulette_follows_cumulative_weights() {
    let model = weighted_model();
    let cell = CoreCell::new(model.size(), &model);
    let mut seen = Vec::new();
    for r in 0..6u32 {
        seen.push(cell.pick_tile(&model, r));
    }
    let w: Vec<u32> = (0..3).map(|t| model.get_relative_freq(t).0).collect();
    let mut expected = Vec::new();
    for t in 0..3 {
        for _ in 0..w[t] {
            expected.push(t);
        }
    }
    assert_eq!(seen, expected);
}

#[test]
fn next_cell_is_never_collapsed_twice() {
    let mut state = CoreState::new(Arc::new(Model::create(&mosaic_image(), 2, false)), 3, 3, 9);
    let mut visited = vec![false; 9];
    while state.remaining_uncollapsed_cells > 0 {
        let pos = match state.choose_next_cell() {
            Some(p) => p,
            None => break,
        };
        let idx = state.grid.idx(pos).unwrap();
        assert!(!visited[idx]);
        visited[idx] = true;
        if state.forced_collapse(pos) == RunStatus::Failed {
            break;
        }
        let cell = state.grid.get(pos).unwrap();
        assert!(cell.is_collpased);
        assert!(cell.get_the_only_possible_tile_index().is_some());
    }
}

#[test]
fn lowest_entropy_is_chosen_first() {
    let mut state = CoreState::new(Arc::new(weighted_model()), 5, 5, 3);
    let least = state
        .entropy_heap
        .iter()
        .min_by_key(|e| e.entropy)
        .unwrap()
        .coord;
    assert_eq!(state.choose_next_cell(), Some(least));
}

#[test]
fn fresh_cells_start_with_model_enablers() {
    let model = Model::create(&mosaic_image(), 2, false);
    let expected = model.get_initial_tile_enabler_counts();
    let state = CoreState::new(Arc::new(Model::create(&mosaic_image(), 2, false)), 4, 4, 2);
    assert_eq!(state.remaining_uncollapsed_cells, 16);
    for cell in state.grid.data.iter() {
        assert_eq!(cell.tile_enabler_counts, expected);
        assert!(!cell.is_collpased);
    }
    let t = TileEnablerCount {
        by_direction: [1, 0, 2, 3],
    };
    assert!(t.contains_any_zero_count());
}

#[test]
fn configuration_errors() {
    let img = mosaic_image();
    assert_eq!(
        synthesize(&img, &args(0, 4, 4, false), 1, 1),
        Err(SynthesisError::Config(ConfigError::PatternSize))
    );
    assert_eq!(
        synthesize(&img, &args(2, 0, 4, false), 1, 1),
        Err(SynthesisError::Config(ConfigError::OutputSize))
    );
    let empty = Image {
        width: 0,
        height: 3,
        pixels: vec![],
    };
    assert_eq!(
        synthesize(&empty, &args(2, 4, 4, false), 1, 1),
        Err(SynthesisError::Config(ConfigError::EmptyExemplar))
    );
    assert_eq!(
        synthesize(&img, &args(2, usize::MAX, 4, false), 1, 1),
        Err(SynthesisError::Config(ConfigError::TooLarge))
    );
    let broken = Image {
        width: 2,
        height: 2,
        pixels: vec![A],
    };
    assert_eq!(
        synthesize(&broken, &args(2, 4, 4, false), 1, 1),
        Err(SynthesisError::MalformedImage)
    );
    assert!(args(2, 4, 4, false).validate(1, 1).is_ok());
    assert_eq!(
        args(2, 4, 4, false).validate(0, 1),
        Err(ConfigError::EmptyExemplar)
    );
}

#[test]
fn split_run_alternates_stripes() {
    let img = Image {
        width: 2,
        height: 1,
        pixels: vec![A, B],
    };
    let model = Model::create(&img, 2, false);
    let out = wfc::engine::par_process(model, 8, 6, 17, 5).unwrap();
    assert_eq!(out.len(), 48);
    for y in 0..6 {
        for x in 0..8 {
            let p = out[y * 8 + x];
            assert!(p == A || p == B);
            if x + 1 < 8 {
                assert_ne!(p, out[y * 8 + x + 1]);
            }
            if y + 1 < 6 {
                assert_eq!(p, out[(y + 1) * 8 + x]);
            }
        }
    }
}

#[test]
fn cross_separates_four_quadrants() {
    let mut state = CoreState::new(Arc::new(Model::create(&mosaic_image(), 2, false)), 9, 7, 4);
    let parts = state.collapse_middle(4);
    if let Some((a, b, c, d)) = parts {
        assert_eq!((a.grid.width, a.grid.height), (4, 3));
        assert_eq!((b.grid.width, b.grid.height), (5, 3));
        assert_eq!((c.grid.width, c.grid.height), (4, 4));
        assert_eq!((d.grid.width, d.grid.height), (5, 4));
        for y in 0..7 {
            for x in 3..5 {
                assert!(state.grid.get(Vector2 { x, y }).unwrap().is_collpased);
            }
        }
        let uncollapsed = a.grid.data.iter().filter(|c| !c.is_collpased).count();
        assert_eq!(a.remaining_uncollapsed_cells, uncollapsed);
        assert!(a.tile_removals.is_empty());
        if let Some(grid) = a.restart(10, 1) {
            assert_eq!(grid.data.len(), 12);
            assert!(grid.data.iter().all(|c| c.is_collpased));
        }
    }
}

#[test]
fn quadrant_copies_cells() {
    let state = CoreState::new(Arc::new(weighted_model()), 4, 4, 6);
    let part = state.quadrant(1, 2, 3, 2, 0);
    assert_eq!(part.grid.data.len(), 6);
    assert_eq!(part.remaining_uncollapsed_cells, 6);
    assert_eq!(part.entropy_heap.len(), 6);
    let src = state.grid.get(Vector2 { x: 2, y: 3 }).unwrap();
    let copy = part.grid.get(Vector2 { x: 1, y: 1 }).unwrap();
    assert_eq!(src.entropy(), copy.entropy());
    assert_eq!(src.tile_enabler_counts, copy.tile_enabler_counts);
}

#[test]
fn noise_is_small_and_varies() {
    let state = CoreState::new(Arc::new(weighted_model()), 6, 6, 12);
    assert!(state.grid.data.iter().all(|c| c.entropy_noise < wfc::engine::NOISE_RANGE));
    let first = state.grid.data[0].entropy_noise;
    assert!(state.grid.data.iter().any(|c| c.entropy_noise != first));
    let again = CoreState::new(Arc::new(weighted_model()), 6, 6, 12);
    let a: Vec<u64> = state.grid.data.iter().map(|c| c.entropy_noise).collect();
    let b: Vec<u64> = again.grid.data.iter().map(|c| c.entropy_noise).collect();
    assert_eq!(a, b);
}

#[test]
fn split_mode_fills_single_pixel_exemplar() {
    let img = Image {
        width: 1,
        height: 1,
        pixels: vec![[0, 0, 0]],
    };
    let model = Model::create(&img, 1, false);
    let out = wfc::engine::par_process(model, 10, 10, 3, 2).unwrap();
    assert_eq!(out, vec![[0u8, 0, 0]; 100]);
}

#[test]
fn propagation_with_nothing_queued_changes_nothing() {
    let mut state = CoreState::new(Arc::new(weighted_model()), 3, 3, 4);
    let before: Vec<Vec<usize>> = state
        .grid
        .data
        .iter()
        .map(|c| c.tile_enabler_counts.iter().map(|t| t.by_direction[0]).collect())
        .collect();
    let heap_len = state.entropy_heap.len();
    assert_eq!(state.propagate(), RunStatus::Succeeded);
    assert_eq!(state.entropy_heap.len(), heap_len);
    let after: Vec<Vec<usize>> = state
        .grid
        .data
        .iter()
        .map(|c| c.tile_enabler_counts.iter().map(|t| t.by_direction[0]).collect())
        .collect();
    assert_eq!(before, after);
}

#[test]
fn emptied_cell_fails_propagation() {
    let mut state = CoreState::new(Arc::new(isolated_model()), 3, 3, 1);
    assert_eq!(state.prune_unsupported(), RunStatus::Failed);
    assert!(state.grid.data.iter().any(|c| c.has_no_possible_tiles(&state.model)));
}

#[test]
fn uniform_exemplar_always_synthesizes() {
    let img = Image {
        width: 3,
        height: 2,
        pixels: vec![B; 6],
    };
    let out = synthesize(&img, &args(2, 7, 5, true), 99, 0).unwrap();
    assert_eq!(out, vec![B; 35]);
}

#[test]
fn fresh_queue_serves_each_cell_once() {
    let mut state = CoreState::new(Arc::new(weighted_model()), 4, 4, 21);
    let mut seen = vec![false; 16];
    let mut last = 0u64;
    for _ in 0..16 {
        let least = state.entropy_heap.iter().map(|e| e.entropy).min().unwrap();
        let pos = state.choose_next_cell().unwrap();
        let idx = state.grid.idx(pos).unwrap();
        assert!(!seen[idx]);
        seen[idx] = true;
        assert!(least >= last);
        last = least;
    }
    assert_eq!(state.choose_next_cell(), None);
}
