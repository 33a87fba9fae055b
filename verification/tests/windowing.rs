use javelin::sample::sample_indices;
use javelin::window::{
    clamp_offset, feature_window, row_window, visible_window, ScrollDirection, WindowState,
};

#[test]
fn visible_window_clamps_to_total() {
    assert_eq!(visible_window(0, 8, 20), (0, 8));
    assert_eq!(visible_window(15, 8, 20), (15, 20));
    assert_eq!(visible_window(25, 8, 20), (20, 20));
    // an empty axis always yields the empty window
    assert_eq!(visible_window(0, 8, 0), (0, 0));
    assert_eq!(visible_window(3, 8, 0), (0, 0));
    // the window never exceeds the span
    let (start, end) = visible_window(2, 5, 100);
    assert!(end - start <= 5);
}

#[test]
fn clamp_offset_bounds() {
    assert_eq!(clamp_offset(0, 20, 8), 0);
    assert_eq!(clamp_offset(12, 20, 8), 12);
    assert_eq!(clamp_offset(13, 20, 8), 12);
    assert_eq!(clamp_offset(100, 20, 8), 12);
    // everything fits: the offset is forced to zero
    assert_eq!(clamp_offset(5, 4, 8), 0);
}

#[test]
fn scroll_saturates_at_both_ends() {
    let mut w = WindowState::new(8);
    w.scroll(ScrollDirection::Left, 1, 20);
    assert_eq!(w.col_offset, 0);
    w.scroll(ScrollDirection::Right, 5, 20);
    assert_eq!(w.col_offset, 5);
    w.scroll(ScrollDirection::Right, 100, 20);
    assert_eq!(w.col_offset, 12);
    w.scroll(ScrollDirection::Down, 3, 50);
    assert_eq!(w.vertical_offset, 3);
    w.scroll(ScrollDirection::Up, 10, 50);
    assert_eq!(w.vertical_offset, 0);
    // row_offset moves instead of col_offset once transposed
    w.toggle_transpose();
    w.scroll(ScrollDirection::Right, 2, 20);
    assert_eq!(w.row_offset, 2);
    assert_eq!(w.col_offset, 0);
}

#[test]
fn jumps_move_the_active_horizontal_axis() {
    let mut w = WindowState::new(8);
    w.jump_to_end(20);
    assert_eq!(w.col_offset, 12);
    w.jump_to_start();
    assert_eq!(w.col_offset, 0);
    w.toggle_transpose();
    w.jump_to_end(10);
    assert_eq!(w.row_offset, 2);
    assert_eq!(w.col_offset, 0);
}

#[test]
fn toggle_transpose_resets_all_offsets_twice() {
    let mut w = WindowState::new(8);
    w.scroll(ScrollDirection::Right, 4, 20);
    w.scroll(ScrollDirection::Down, 7, 50);
    w.toggle_transpose();
    assert!(w.transposed);
    assert_eq!((w.col_offset, w.row_offset, w.vertical_offset), (0, 0, 0));
    w.scroll(ScrollDirection::Right, 3, 20);
    w.scroll(ScrollDirection::Down, 2, 50);
    w.toggle_transpose();
    assert!(!w.transposed);
    assert_eq!((w.col_offset, w.row_offset, w.vertical_offset), (0, 0, 0));
}

#[test]
fn resize_reclamps_without_reset() {
    let mut w = WindowState::new(8);
    w.scroll(ScrollDirection::Right, 10, 20);
    w.scroll(ScrollDirection::Down, 30, 40);
    assert_eq!((w.col_offset, w.vertical_offset), (10, 30));
    w.resize(16, 20, 20, 40);
    assert_eq!(w.visible_span, 16);
    // offsets survive but are pulled back inside the new limits
    assert_eq!(w.col_offset, 4);
    assert_eq!(w.vertical_offset, 24);
}

#[test]
fn axis_windows_follow_the_state() {
    let mut w = WindowState::new(8);
    w.scroll(ScrollDirection::Right, 5, 20);
    assert_eq!(w.horizontal_window(20), (5, 13));
    assert_eq!(w.vertical_window(3), (0, 3));
}

#[test]
fn feature_window_slices_the_column_list() {
    let all: Vec<usize> = vec![2, 3, 5, 7, 11];
    assert_eq!(feature_window(&all, 0, 3), vec![2, 3, 5]);
    assert_eq!(feature_window(&all, 3, 3), vec![7, 11]);
    assert_eq!(feature_window(&all, 9, 3), Vec::<usize>::new());
}

#[test]
fn sample_indices_sorts_the_prefix() {
    let shuffled: Vec<usize> = vec![5, 2, 9, 1, 7];
    assert_eq!(sample_indices(&shuffled, 3), vec![2, 5, 9]);
    assert_eq!(sample_indices(&shuffled, 10), vec![1, 2, 5, 7, 9]);
    assert_eq!(sample_indices(&shuffled, 0), Vec::<usize>::new());
}

#[test]
fn row_window_lists_visible_rows() {
    assert_eq!(row_window(10, 4, 3), vec![4, 5, 6]);
    assert_eq!(row_window(5, 3, 8), vec![3, 4]);
    assert_eq!(row_window(0, 0, 8), Vec::<usize>::new());
}
