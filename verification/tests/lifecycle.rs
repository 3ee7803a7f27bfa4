use smallstack::lifecycle::{LoopAction, LoopEvent, ServeLoop};

#[test]
fn loop_serves_up_to_limit_then_holds() {
    let mut l = ServeLoop::new(2);
    assert!(l.accepting());
    assert_eq!(l.step(LoopEvent::Accepted), LoopAction::Serve);
    assert_eq!(l.step(LoopEvent::Accepted), LoopAction::Serve);
    assert_eq!(l.active(), 2);
    assert_eq!(l.step(LoopEvent::Accepted), LoopAction::Hold);
    assert!(!l.accepting());
    assert_eq!(l.step(LoopEvent::ConnectionClosed), LoopAction::ServeHeld);
    assert_eq!(l.active(), 2);
    assert!(l.accepting());
    assert_eq!(l.step(LoopEvent::AcceptFailed), LoopAction::Continue);
}

#[test]
fn shutdown_drains_then_stops() {
    let mut l = ServeLoop::new(4);
    assert_eq!(l.step(LoopEvent::Accepted), LoopAction::Serve);
    assert_eq!(l.step(LoopEvent::Accepted), LoopAction::Serve);
    assert_eq!(l.step(LoopEvent::ShutdownRequested), LoopAction::Continue);
    assert!(!l.accepting());
    assert_eq!(l.step(LoopEvent::Accepted), LoopAction::Close);
    assert_eq!(l.step(LoopEvent::ConnectionClosed), LoopAction::Continue);
    assert_eq!(l.step(LoopEvent::ConnectionClosed), LoopAction::Stop);
    assert_eq!(l.active(), 0);
}

#[test]
fn idle_shutdown_stops_at_once() {
    let mut l = ServeLoop::new(1);
    assert_eq!(l.step(LoopEvent::ShutdownRequested), LoopAction::Stop);
}
