use dustbunny::splash::{Poll, SplashState, WaitStep, FIRST_FRAME_PAUSE_NANOS, FRAME_PAUSE_NANOS, MIN_SHOW_NANOS, worker_lost_message};

#[test]
fn result_before_the_first_poll_pauses_briefly() {
    let mut state = SplashState::new();
    state.advance();
    assert_eq!(state.frame, 1);
    assert_eq!(state.decide(Poll::Ready, 5), WaitStep::Finish { pause_nanos: FIRST_FRAME_PAUSE_NANOS });
}

#[test]
fn later_result_keeps_the_splash_up_450_ms() {
    let mut state = SplashState::new();
    assert_eq!(state.decide(Poll::Waiting, 0), WaitStep::Continue { pause_nanos: FRAME_PAUSE_NANOS });
    assert!(!state.first_frame);
    assert_eq!(state.decide(Poll::Ready, 100_000_000), WaitStep::Finish { pause_nanos: 350_000_000 });
    assert_eq!(state.decide(Poll::Ready, 900_000_000), WaitStep::Finish { pause_nanos: 0 });
    assert_eq!(MIN_SHOW_NANOS, 450_000_000);
}

#[test]
fn lost_worker_fails() {
    let mut state = SplashState::new();
    assert_eq!(state.decide(Poll::Lost, 0), WaitStep::Fail);
    assert_eq!(worker_lost_message(), "scanner worker disconnected");
}

#[test]
fn frame_counter_wraps() {
    let mut state = SplashState { frame: usize::MAX, first_frame: false };
    state.advance();
    assert_eq!(state.frame, 0);
}
