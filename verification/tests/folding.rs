use twrite_core::folding::{FoldRange, FoldState};

fn ranges() -> Vec<FoldRange> {
    vec![
        FoldRange {
            start_row: 0,
            end_row: 5,
        },
        FoldRange {
            start_row: 1,
            end_row: 3,
        },
        FoldRange {
            start_row: 7,
            end_row: 9,
        },
    ]
}

#[test]
fn toggle_flips_membership() {
    let mut state = FoldState::new();
    assert!(state.toggle(0));
    assert!(state.is_collapsed(0));
    assert!(!state.toggle(0));
    assert!(!state.is_collapsed(0));
}

#[test]
fn headers_stay_visible() {
    let mut state = FoldState::new();
    state.toggle(0);
    assert!(!state.is_row_hidden(&ranges(), 0));
    assert!(state.is_row_hidden(&ranges(), 1));
    assert!(state.is_row_hidden(&ranges(), 5));
    assert!(!state.is_row_hidden(&ranges(), 6));
}

#[test]
fn step_down_skips_collapsed_spans() {
    let mut state = FoldState::new();
    state.toggle(0);
    assert_eq!(state.step_visible_row(&ranges(), 0, 10, true), 6);
    assert_eq!(state.step_visible_row(&ranges(), 2, 10, true), 6);
    state.toggle(7);
    assert_eq!(state.step_visible_row(&ranges(), 8, 10, true), 8);
    assert_eq!(state.step_visible_row(&ranges(), 6, 10, true), 7);
}

#[test]
fn step_up_lands_on_headers() {
    let mut state = FoldState::new();
    state.toggle(0);
    assert_eq!(state.step_visible_row(&ranges(), 6, 10, false), 0);
    assert_eq!(state.step_visible_row(&ranges(), 4, 10, false), 0);
    assert_eq!(state.step_visible_row(&ranges(), 0, 10, false), 0);
    state.toggle(7);
    assert_eq!(state.step_visible_row(&ranges(), 9, 10, false), 7);
    assert_eq!(state.step_visible_row(&ranges(), 8, 10, true), 8);
    let open = FoldState::new();
    assert_eq!(open.step_visible_row(&ranges(), 6, 10, false), 5);
    assert_eq!(open.step_visible_row(&ranges(), 6, 10, true), 7);
}

#[test]
fn retain_drops_vanished_starts() {
    let mut state = FoldState::new();
    state.toggle(0);
    state.toggle(7);
    state.retain(&[FoldRange {
        start_row: 7,
        end_row: 9,
    }]);
    assert!(!state.is_collapsed(0));
    assert!(state.is_collapsed(7));
}

#[test]
fn empty_state_hides_nothing() {
    let state = FoldState::new();
    for row in 0..10 {
        assert!(!state.is_row_hidden(&ranges(), row));
    }
}

#[test]
fn toggle_twice_restores_folds() {
    let mut state = FoldState::new();
    state.toggle(3);
    state.toggle(5);
    state.toggle(5);
    assert!(state.is_collapsed(3));
    assert!(!state.is_collapsed(5));
}
