use falling_sand::driver::{
    cell_rect, on_edge, should_stop, Input, Pacer, CELL_DRAW_SIZE, MAP_SIZE, TEX_SIZE, TICK_MILLIS,
};

#[test]
fn driver_constants() {
    assert_eq!(TICK_MILLIS, 32);
    assert_eq!(TEX_SIZE, 16);
    assert_eq!(CELL_DRAW_SIZE, 4);
    assert_eq!(MAP_SIZE, 8);
}

#[test]
fn quit_and_escape_stop_the_loop() {
    assert!(should_stop(Input::Quit));
    assert!(should_stop(Input::Escape));
    assert!(!should_stop(Input::Other));
}

#[test]
fn texture_edge_is_one_pixel_wide() {
    let mut edge = 0;
    for i in 0..TEX_SIZE {
        for j in 0..TEX_SIZE {
            let expected = i == 0 || j == 0 || i == 15 || j == 15;
            assert_eq!(on_edge(i, j), expected);
            if on_edge(i, j) {
                edge += 1;
            }
        }
    }
    assert_eq!(edge, 60);
    assert!(!on_edge(16, 1));
    assert!(on_edge(0, 99));
}

#[test]
fn cell_rect_scales_the_cell_coordinate() {
    assert_eq!(cell_rect(0, 0, 0, 0), Some((0, 0, 4, 4)));
    assert_eq!(cell_rect(1, 2, 3, 4), Some((44, 80, 4, 4)));
    assert_eq!(cell_rect(7, 7, 7, 7), Some((252, 252, 4, 4)));
    assert_eq!(cell_rect(-1, 0, 0, 7), Some((-32, 28, 4, 4)));
}

#[test]
fn cell_rect_off_the_screen_coordinates() {
    // (67108863 * 8 + 7) * 4 = 2147483644 still fits; one block more does not.
    assert_eq!(cell_rect(67108863, 0, 7, 0), Some((2147483644, 0, 4, 4)));
    assert_eq!(cell_rect(67108864, 0, 0, 0), None);
    assert_eq!(cell_rect(0, 67108864, 0, 0), None);
    assert_eq!(cell_rect(i32::MAX, i32::MAX, i32::MAX, i32::MAX), None);
    assert_eq!(cell_rect(i32::MIN, 0, 0, 0), None);
    assert_eq!(cell_rect(-67108864, 0, 0, 0), Some((i32::MIN, 0, 4, 4)));
}

#[test]
fn tick_is_due_after_thirty_two_milliseconds() {
    let mut pacer = Pacer::new();
    assert!(!pacer.tick_due());
    pacer.frame_took(31);
    assert!(!pacer.tick_due());
    pacer.frame_took(1);
    assert!(pacer.tick_due());
    // The count started again.
    assert!(!pacer.tick_due());
    pacer.frame_took(100);
    assert!(pacer.tick_due());
    assert!(!pacer.tick_due());
}

#[test]
fn frame_counts_for_a_millisecond_at_least() {
    let mut pacer = Pacer::new();
    for _ in 0..31 {
        pacer.frame_took(0);
        assert!(!pacer.tick_due());
    }
    pacer.frame_took(0);
    assert!(pacer.tick_due());
}

#[test]
fn pacer_count_stops_at_the_largest_number() {
    let mut pacer = Pacer::new();
    pacer.frame_took(u128::MAX);
    pacer.frame_took(u128::MAX);
    pacer.frame_took(5);
    assert!(pacer.tick_due());
    assert!(!pacer.tick_due());
}
