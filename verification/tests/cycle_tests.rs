use milkdrop_pi::cycle::{TransitionState, VisualizationCycle, TRANSITION_MS};

#[test]
fn advances_after_duration_with_crossfade() {
    let mut c = VisualizationCycle::new(3, 10, 1_000);
    c.advance_if_due(10_999);
    assert_eq!(c.current(), 0);
    assert_eq!(c.transition_progress(10_999), None);
    c.advance_if_due(11_000);
    assert_eq!(c.current(), 1);
    assert_eq!(c.transition_progress(12_000), Some((0, 1_000)));
    // No new switch during the fade, even when due.
    c.advance_if_due(30_000);
    assert_eq!(c.current(), 1);
    assert_eq!(c.transition_progress(30_000), None);
}

#[test]
fn crossfade_ends_after_transition_time() {
    let mut c = VisualizationCycle::new(2, 1, 0);
    c.advance_if_due(1_000);
    assert_eq!(c.current(), 1);
    c.advance_if_due(1_000 + TRANSITION_MS - 1);
    assert!(c.transition_progress(1_000 + TRANSITION_MS - 1).is_some());
    c.advance_if_due(1_000 + TRANSITION_MS);
    assert!(c.transition_progress(1_000 + TRANSITION_MS).is_none());
    // The switch clock started at 1 s, so the next is due at 2 s.
    c.advance_if_due(5_000);
    assert_eq!(c.current(), 0);
    assert_eq!(c.transition_progress(5_000), Some((1, 0)));
}

#[test]
fn wraps_around_the_list() {
    let mut c = VisualizationCycle::new(2, 0, 0);
    c.advance_if_due(0);
    assert_eq!(c.current(), 1);
    c.advance_if_due(TRANSITION_MS);
    c.advance_if_due(TRANSITION_MS);
    assert_eq!(c.current(), 0);
}

#[test]
fn single_visualization_never_switches() {
    let mut c = VisualizationCycle::new(1, 0, 0);
    c.advance_if_due(1_000_000);
    assert_eq!(c.current(), 0);
    assert_eq!(c.transition_progress(1_000_000), None);
    assert_eq!(c.len(), 1);
}

#[test]
fn transition_state_compares_by_fields() {
    let a = TransitionState { from_index: 1, started_ms: 5 };
    assert_eq!(a, TransitionState { from_index: 1, started_ms: 5 });
}
