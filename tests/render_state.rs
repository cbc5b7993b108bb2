use spectral_rt::render_state::{stratum_cell, tile_start, xy_coords, FilmRenderState, ThreadMsg, TILE_SIZE};
use std::collections::BTreeSet;

#[test]
fn tiles_are_disjoint_cover_and_run_out() {
    let state = FilmRenderState::new(16, 16);
    for _frame in 0..2 {
        state.reset();
        let mut starts = Vec::new();
        while let Some(i) = state.next_index() {
            starts.push(i);
        }
        assert_eq!(starts, (0..31).map(|k| k * TILE_SIZE).collect::<Vec<_>>());
        assert_eq!(state.next_index(), None);
        let mut pixels = BTreeSet::new();
        for s in &starts {
            for p in *s..*s + TILE_SIZE {
                assert!(pixels.insert(p));
            }
        }
        assert!((0..16 * 16 - TILE_SIZE).all(|p| pixels.contains(&p)));
    }
}

#[test]
fn partial_last_tile() {
    // 5 x 3 = 15 pixels: one tile starts below 15 - 8 = 7.
    let state = FilmRenderState::new(5, 3);
    assert_eq!(state.next_index(), Some(0));
    assert_eq!(state.next_index(), None);
    state.reset();
    assert_eq!(state.next_xy_coords(), Some((0, 0)));
    assert_eq!(state.next_xy_coords(), None);
}

#[test]
fn xy_coords_are_row_major() {
    let state = FilmRenderState::new(12, 4);
    let coords: Vec<_> = std::iter::from_fn(|| state.next_xy_coords()).collect();
    assert_eq!(coords, vec![(0, 0), (8, 0), (4, 1), (0, 2), (8, 2)]);
}

#[test]
fn tile_start_by_cursor() {
    assert_eq!(tile_start(0, 8), Some(0));
    assert_eq!(tile_start(7, 8), Some(7));
    assert_eq!(tile_start(8, 8), None);
    assert_eq!(tile_start(100, 8), None);
}

#[test]
fn written_pixels_do_not_depend_on_worker_count() {
    let written = |workers: usize| {
        let state = FilmRenderState::new(20, 10);
        state.reset();
        let mut per_worker: Vec<BTreeSet<usize>> = vec![BTreeSet::new(); workers];
        let mut w = 0;
        while let Some(i) = state.next_index() {
            for p in i..i + TILE_SIZE {
                assert!(per_worker[w].insert(p));
            }
            w = (w + 1) % workers;
        }
        let mut all = BTreeSet::new();
        for set in per_worker {
            for p in set {
                assert!(all.insert(p));
            }
        }
        all
    };
    assert_eq!(written(1), written(3));
    assert_eq!(written(1), written(8));
    assert_eq!(ThreadMsg::Render, ThreadMsg::Render);
    assert_ne!(ThreadMsg::Render, ThreadMsg::Stop);
}

#[test]
fn strata_cycle_row_by_row() {
    assert_eq!(stratum_cell(0), (0, 0));
    assert_eq!(stratum_cell(3), (3, 0));
    assert_eq!(stratum_cell(4), (0, 1));
    assert_eq!(stratum_cell(15), (3, 3));
    assert_eq!(stratum_cell(16), (0, 0));
    assert_eq!(stratum_cell(37), (1, 1));
}

#[test]
fn xy_coords_of_claims() {
    assert_eq!(xy_coords(Some(0), 12), Some((0, 0)));
    assert_eq!(xy_coords(Some(20), 12), Some((8, 1)));
    assert_eq!(xy_coords(Some(36), 12), Some((0, 3)));
    assert_eq!(xy_coords(None, 12), None);
}
