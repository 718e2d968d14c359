use pleco::threads::{GoAction, GoEvent, IdleAction, IdleEvent, IdleLoop, MainGo};

#[test]
fn idle_loop_quits_at_first_check() {
    let mut l = IdleLoop::new();
    assert_eq!(l.next(IdleEvent::Done), IdleAction::CheckKill);
    assert_eq!(l.next(IdleEvent::Killed(true)), IdleAction::Exit);
    assert!(l.is_finished());
    assert_eq!(l.next(IdleEvent::Done), IdleAction::Exit);
}

#[test]
fn idle_loop_waits_checks_and_searches() {
    let mut l = IdleLoop::new();
    assert_eq!(l.next(IdleEvent::Done), IdleAction::CheckKill);
    for _ in 0..3 {
        assert_eq!(l.next(IdleEvent::Killed(false)), IdleAction::Wait);
        assert_eq!(l.next(IdleEvent::Done), IdleAction::CheckKill);
        assert_eq!(l.next(IdleEvent::Killed(false)), IdleAction::Search);
        assert_eq!(l.next(IdleEvent::Done), IdleAction::CheckKill);
    }
    assert!(!l.is_finished());
}

#[test]
fn idle_loop_quits_when_woken_to_quit() {
    let mut l = IdleLoop::new();
    assert_eq!(l.next(IdleEvent::Done), IdleAction::CheckKill);
    assert_eq!(l.next(IdleEvent::Killed(false)), IdleAction::Wait);
    assert_eq!(l.next(IdleEvent::Done), IdleAction::CheckKill);
    assert_eq!(l.next(IdleEvent::Killed(true)), IdleAction::Exit);
    assert!(l.is_finished());
}

fn run_round(timed: bool, print: bool) -> Vec<GoAction> {
    let mut g = MainGo::new();
    let mut actions = Vec::new();
    let mut event = GoEvent::Done;
    loop {
        let a = g.next(event);
        actions.push(a);
        event = match a {
            GoAction::ReadLimit => GoEvent::Flag(timed),
            GoAction::ReadStdout => GoEvent::Flag(print),
            _ => GoEvent::Done,
        };
        if a == GoAction::Return {
            return actions;
        }
    }
}

#[test]
fn search_round_order() {
    let plain = run_round(false, false);
    assert_eq!(
        plain,
        vec![
            GoAction::StopSearch,
            GoAction::WaitForFinish,
            GoAction::ResetDepths,
            GoAction::ReplaceMoves,
            GoAction::ResumeSearch,
            GoAction::ReadLimit,
            GoAction::StartThreads,
            GoAction::WaitForStart,
            GoAction::LockThreads,
            GoAction::Search,
            GoAction::StopSearch,
            GoAction::WaitForFinish,
            GoAction::SendBestMove,
            GoAction::ReadStdout,
            GoAction::LockSelf,
            GoAction::Return,
        ]
    );
}

#[test]
fn search_round_timer_and_print() {
    let full = run_round(true, true);
    assert_eq!(full.len(), 18);
    assert_eq!(full[6], GoAction::InitTimer);
    assert_eq!(full[7], GoAction::StartThreads);
    assert_eq!(full[15], GoAction::PrintBestMove);
    assert_eq!(full[16], GoAction::LockSelf);
    assert!(!run_round(false, true).contains(&GoAction::InitTimer));
    assert!(!run_round(true, false).contains(&GoAction::PrintBestMove));
}
