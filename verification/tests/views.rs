use javelin::view::{list_window, ViewMode, ViewState};

#[test]
fn mode_cycle_is_closed() {
    // four forward steps return to the start
    let m = ViewMode::Overview;
    let m = m.next();
    assert_eq!(m, ViewMode::Nodes);
    let m = m.next();
    assert_eq!(m, ViewMode::Edges);
    let m = m.next();
    assert_eq!(m, ViewMode::Components);
    let m = m.next();
    assert_eq!(m, ViewMode::Overview);
    // prev is the exact inverse of next
    for mode in [
        ViewMode::Overview,
        ViewMode::Nodes,
        ViewMode::Edges,
        ViewMode::Components,
    ] {
        assert_eq!(mode.next().prev(), mode);
        assert_eq!(mode.prev().next(), mode);
    }
    assert_eq!(ViewMode::Overview.prev(), ViewMode::Components);
}

#[test]
fn mode_names() {
    assert_eq!(ViewMode::Overview.as_str(), "Overview");
    assert_eq!(ViewMode::Nodes.as_str(), "Nodes");
    assert_eq!(ViewMode::Edges.as_str(), "Edges");
    assert_eq!(ViewMode::Components.as_str(), "Components");
}

#[test]
fn switching_views_resets_scroll_only() {
    let mut v = ViewState::new();
    assert_eq!(v.mode, ViewMode::Overview);
    assert_eq!(v.scroll_offset, 0);
    assert_eq!(v.selected_node, None);

    v.switch_next();
    v.scroll_down(5);
    v.select_node(10);
    assert_eq!(v.mode, ViewMode::Nodes);
    assert_eq!(v.selected_node, Some(5));

    // leaving Nodes resets the offset but keeps the selection
    v.switch_next();
    assert_eq!(v.mode, ViewMode::Edges);
    assert_eq!(v.scroll_offset, 0);
    assert_eq!(v.selected_node, Some(5));
    v.switch_prev();
    assert_eq!(v.mode, ViewMode::Nodes);
    assert_eq!(v.selected_node, Some(5));
}

#[test]
fn selection_requires_nodes_mode_and_bounds() {
    let mut v = ViewState::new();
    v.select_node(10);
    assert_eq!(v.selected_node, None); // not in Nodes mode
    v.switch_next();
    v.scroll_down(12);
    v.select_node(10);
    assert_eq!(v.selected_node, None); // highlighted index out of bounds
    v.scroll_up(5);
    v.select_node(10);
    assert_eq!(v.selected_node, Some(7));
    v.clear_selection();
    assert_eq!(v.selected_node, None);
}

#[test]
fn view_scrolling_saturates() {
    let mut v = ViewState::new();
    v.scroll_up(3);
    assert_eq!(v.scroll_offset, 0);
    v.scroll_down(10);
    v.scroll_up(4);
    assert_eq!(v.scroll_offset, 6);
    v.jump_to_end();
    assert_eq!(v.scroll_offset, usize::MAX);
    v.scroll_down(1);
    assert_eq!(v.scroll_offset, usize::MAX);
    v.jump_to_start();
    assert_eq!(v.scroll_offset, 0);
}

#[test]
fn list_window_keeps_last_item_reachable() {
    assert_eq!(list_window(0, 5, 12), (0, 5));
    assert_eq!(list_window(10, 5, 12), (10, 12));
    // an offset past the end is pulled back onto the last item
    assert_eq!(list_window(usize::MAX, 5, 12), (11, 12));
    assert_eq!(list_window(3, 5, 0), (0, 0));
}
