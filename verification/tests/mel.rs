use hifisampler_core::mel::{can_hold, loop_frames, render_frames, MelGrid};

fn grid() -> MelGrid {
    // Two bands of five frames.
    MelGrid::from_cells(2, 5, &[10, 11, 12, 13, 14, 20, 21, 22, 23, 24])
}

#[test]
fn cells_are_listed_band_after_band() {
    let mel = grid();
    assert_eq!(mel.bands(), 2);
    assert_eq!(mel.frames(), 5);
    assert_eq!(mel.cell(0, 0), 10);
    assert_eq!(mel.cell(1, 3), 23);
    assert_eq!(mel.band(0), vec![10, 11, 12, 13, 14]);
    assert_eq!(mel.band(1), vec![20, 21, 22, 23, 24]);
}

#[test]
fn empty_grids_have_a_shape() {
    let mel = MelGrid::from_cells(0, 3, &[]);
    assert_eq!(mel.bands(), 0);
    assert_eq!(mel.frames(), 3);
    let mel = MelGrid::from_cells(3, 0, &[]);
    assert_eq!(mel.bands(), 3);
    assert_eq!(mel.frames(), 0);
    assert_eq!(mel.band(1), Vec::<u32>::new());
}

#[test]
fn loop_sweeps_back_and_forth() {
    let mel = loop_frames(&grid(), 1, 4, 6);
    assert_eq!(mel.bands(), 2);
    assert_eq!(mel.frames(), 10);
    assert_eq!(mel.band(0), vec![10, 11, 12, 13, 12, 11, 12, 13, 12, 11]);
    assert_eq!(mel.band(1), vec![20, 21, 22, 23, 22, 21, 22, 23, 22, 21]);
}

#[test]
fn loop_is_held_to_the_frames_there_are() {
    let mel = loop_frames(&grid(), 3, 99, 3);
    assert_eq!(mel.band(0), vec![10, 11, 12, 13, 14, 13, 14, 13]);
}

#[test]
fn loop_of_one_frame_repeats_it() {
    let mel = loop_frames(&grid(), 2, 3, 2);
    assert_eq!(mel.band(1), vec![20, 21, 22, 22, 22]);
}

#[test]
fn loop_without_bands_or_frames() {
    let mel = MelGrid::from_cells(0, 5, &[]);
    assert_eq!(loop_frames(&mel, 4, 2, 3).frames(), 7);
    assert_eq!(loop_frames(&mel, 2, 2, 3).frames(), 5);
    assert_eq!(loop_frames(&mel, 4, 2, 3).bands(), 0);
    assert_eq!(loop_frames(&grid(), 3, 1, 0).band(0), vec![10, 11, 12]);
}

#[test]
fn rendering_interpolates_every_band() {
    let mel = grid();
    let nodes = [0, 10, 20, 30, 40];
    let queries = [-5, 5, 10, 37, 99];
    let between = |m: usize, i: usize, j: usize| (1000 * (m + 1) + 100 * i + j) as u32;
    let out = render_frames(&mel, &nodes, &queries, &between);
    assert_eq!(out.bands(), 2);
    assert_eq!(out.frames(), 5);
    assert_eq!(out.band(0), vec![10, 1001, 11, 1303, 14]);
    assert_eq!(out.band(1), vec![20, 2001, 21, 2303, 24]);
}

#[test]
fn rendering_at_the_frames_gives_them_back() {
    let mel = grid();
    let nodes = [0, 10, 20, 30, 40];
    let wrong = |_: usize, _: usize, _: usize| 0;
    let out = render_frames(&mel, &nodes, &nodes, &wrong);
    assert_eq!(out.band(0), mel.band(0));
    assert_eq!(out.band(1), mel.band(1));
}

#[test]
fn shapes_that_can_be_held() {
    assert!(can_hold(0, 0));
    assert!(can_hold(128, 1_000_000));
    assert!(can_hold(0, isize::MAX as usize / 4));
    assert!(!can_hold(0, isize::MAX as usize / 4 + 1));
    assert!(!can_hold(2, isize::MAX as usize / 4));
    assert!(!can_hold(usize::MAX, usize::MAX));
}
