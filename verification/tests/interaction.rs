use pomme::interaction::{
    start_destroy, AbortFace, DestroyState, Predictions, SwingState, DESTROY_COOLDOWN, SWING_DURATION,
};

#[test]
fn swing_runs_for_its_duration() {
    let mut s = SwingState::new();
    s.swing();
    assert_eq!(s, SwingState { swinging: true, swing_time: -1 });
    let mut ticks = 0;
    while s.swinging {
        s.tick();
        ticks += 1;
    }
    assert_eq!(ticks, SWING_DURATION + 1);
    assert_eq!(s.swing_time, 0);
}

#[test]
fn swing_restarts_only_after_half() {
    let mut s = SwingState::new();
    s.swing();
    s.tick();
    s.tick();
    assert_eq!(s.swing_time, 1);
    s.swing();
    assert_eq!(s.swing_time, 1);
    s.tick();
    s.tick();
    assert_eq!(s.swing_time, 3);
    s.swing();
    assert_eq!(s.swing_time, -1);
}

#[test]
fn predictions_clear_on_acknowledge() {
    let mut p = Predictions::new();
    p.insert((1, 2, 3), 5);
    p.insert((4, 5, 6), 7);
    assert!(p.has_pending((1, 2, 3)));
    p.acknowledge(5);
    assert!(!p.has_pending((1, 2, 3)));
    assert!(p.has_pending((4, 5, 6)));
    p.insert((4, 5, 6), 3);
    p.acknowledge(4);
    assert!(!p.has_pending((4, 5, 6)));
}

fn idle() -> DestroyState {
    DestroyState { is_destroying: false, destroy_pos: (0, 0, 0), seq: 7, destroy_delay: 0 }
}

#[test]
fn air_is_never_broken() {
    let r = start_destroy(idle(), (1, 2, 3), true, true);
    assert_eq!(r.state, idle());
    assert_eq!(r.start, None);
    assert_eq!(r.abort, None);
    assert!(!r.instant);
}

#[test]
fn instant_break_aborts_and_starts_cooldown() {
    let busy = DestroyState { is_destroying: true, destroy_pos: (4, 5, 6), ..idle() };
    let r = start_destroy(busy, (1, 2, 3), false, true);
    assert_eq!(r.abort, Some(((4, 5, 6), AbortFace::Down)));
    assert_eq!(r.start, Some(8));
    assert!(r.instant);
    assert!(!r.reset_progress);
    assert_eq!(r.state, DestroyState { is_destroying: false, destroy_pos: (4, 5, 6), seq: 8, destroy_delay: DESTROY_COOLDOWN });
}

#[test]
fn breaking_the_same_block_goes_on() {
    let busy = DestroyState { is_destroying: true, destroy_pos: (1, 2, 3), ..idle() };
    let r = start_destroy(busy, (1, 2, 3), false, false);
    assert_eq!(r.state, busy);
    assert_eq!(r.start, None);
}

#[test]
fn breaking_another_block_switches_to_it() {
    let busy = DestroyState { is_destroying: true, destroy_pos: (4, 5, 6), ..idle() };
    let r = start_destroy(busy, (1, 2, 3), false, false);
    assert_eq!(r.abort, Some(((4, 5, 6), AbortFace::Hit)));
    assert_eq!(r.start, Some(8));
    assert!(r.reset_progress);
    assert_eq!(r.state, DestroyState { is_destroying: true, destroy_pos: (1, 2, 3), seq: 8, destroy_delay: 0 });
    let fresh = start_destroy(idle(), (1, 2, 3), false, false);
    assert_eq!(fresh.abort, None);
    assert_eq!(fresh.start, Some(8));
}
