//! The decisions of the search threads, as state machines that a thread pool
//! drives: each call of `next` takes the outcome of the previous action and
//! gives the next action to perform.
//!
//! A thread's idle loop checks whether it was told to quit, waits to be woken,
//! checks again, and searches; it quits as soon as a check finds the quit flag
//! set. The main thread's search round stops the helpers, prepares the root
//! moves, starts the helpers and searches, then reports the best move.

use vstd::prelude::*;

verus! {

/// What the idle loop asks the thread to do next.
#[derive(Copy, Clone, Debug, PartialEq, Eq, Structural)]
pub enum IdleAction {
    /// Read the quit flag and report it as `IdleEvent::Killed`.
    CheckKill,
    /// Wait until woken, then report `IdleEvent::Done`.
    Wait,
    /// Search the current position, then report `IdleEvent::Done`.
    Search,
    /// Leave the loop.
    Exit,
}

/// What the thread reports about the action it performed.
#[derive(Copy, Clone, Debug, PartialEq, Eq, Structural)]
pub enum IdleEvent {
    /// The action finished.
    Done,
    /// The quit flag was read; `true` when the thread must quit.
    Killed(bool),
}

/// Where the idle loop stands.
#[derive(Copy, Clone, Debug, PartialEq, Eq, Structural)]
pub enum IdlePhase {
    /// Nothing done yet.
    Start,
    /// A quit check before waiting is under way.
    CheckBeforeWait,
    /// Waiting to be woken.
    Waiting,
    /// A quit check after being woken is under way.
    CheckAfterWake,
    /// Searching.
    Searching,
    /// The loop is over.
    Finished,
}

/// The idle loop's step: from a phase and the outcome of the last action, the
/// next phase and action. A quit check that finds the flag set ends the loop;
/// one that does not leads, before waiting, to a wait, and after waking, to a
/// search; after a search the loop checks again. An outcome that does not
/// answer a pending check repeats the check.
pub open spec fn idle_step(phase: IdlePhase, event: IdleEvent) -> (IdlePhase, IdleAction) {
    match phase {
        IdlePhase::Start => (IdlePhase::CheckBeforeWait, IdleAction::CheckKill),
        IdlePhase::CheckBeforeWait => match event {
            IdleEvent::Killed(true) => (IdlePhase::Finished, IdleAction::Exit),
            IdleEvent::Killed(false) => (IdlePhase::Waiting, IdleAction::Wait),
            IdleEvent::Done => (IdlePhase::CheckBeforeWait, IdleAction::CheckKill),
        },
        IdlePhase::Waiting => (IdlePhase::CheckAfterWake, IdleAction::CheckKill),
        IdlePhase::CheckAfterWake => match event {
            IdleEvent::Killed(true) => (IdlePhase::Finished, IdleAction::Exit),
            IdleEvent::Killed(false) => (IdlePhase::Searching, IdleAction::Search),
            IdleEvent::Done => (IdlePhase::CheckAfterWake, IdleAction::CheckKill),
        },
        IdlePhase::Searching => (IdlePhase::CheckBeforeWait, IdleAction::CheckKill),
        IdlePhase::Finished => (IdlePhase::Finished, IdleAction::Exit),
    }
}

/// The idle loop of a search thread.
pub struct IdleLoop {
    phase: IdlePhase,
}

impl IdleLoop {
    /// The current phase.
    pub closed spec fn spec_phase(&self) -> IdlePhase {
        self.phase
    }

    /// A loop that has done nothing yet.
    pub fn new() -> (l: IdleLoop)
        ensures
            l.spec_phase() == IdlePhase::Start,
    {
        IdleLoop { phase: IdlePhase::Start }
    }

    /// Takes the outcome of the last action and returns the next action.
    pub fn next(&mut self, event: IdleEvent) -> (action: IdleAction)
        ensures
            (final(self).spec_phase(), action) == idle_step(old(self).spec_phase(), event),
    {
        let (phase, action) = match self.phase {
            IdlePhase::Start => (IdlePhase::CheckBeforeWait, IdleAction::CheckKill),
            IdlePhase::CheckBeforeWait => match event {
                IdleEvent::Killed(true) => (IdlePhase::Finished, IdleAction::Exit),
                IdleEvent::Killed(false) => (IdlePhase::Waiting, IdleAction::Wait),
                IdleEvent::Done => (IdlePhase::CheckBeforeWait, IdleAction::CheckKill),
            },
            IdlePhase::Waiting => (IdlePhase::CheckAfterWake, IdleAction::CheckKill),
            IdlePhase::CheckAfterWake => match event {
                IdleEvent::Killed(true) => (IdlePhase::Finished, IdleAction::Exit),
                IdleEvent::Killed(false) => (IdlePhase::Searching, IdleAction::Search),
                IdleEvent::Done => (IdlePhase::CheckAfterWake, IdleAction::CheckKill),
            },
            IdlePhase::Searching => (IdlePhase::CheckBeforeWait, IdleAction::CheckKill),
            IdlePhase::Finished => (IdlePhase::Finished, IdleAction::Exit),
        };
        self.phase = phase;
        action
    }

    /// Returns whether the loop is over.
    pub fn is_finished(&self) -> (r: bool)
        ensures
            r == (self.spec_phase() == IdlePhase::Finished),
    {
        match self.phase {
            IdlePhase::Finished => true,
            _ => false,
        }
    }
}

/// The actions the idle loop asks for, from `phase`, given the outcomes `events`.
pub open spec fn idle_trace(phase: IdlePhase, events: Seq<IdleEvent>) -> Seq<IdleAction>
    decreases events.len(),
{
    if events.len() == 0 {
        Seq::empty()
    } else {
        let (next, action) = idle_step(phase, events[0]);
        seq![action] + idle_trace(next, events.drop_first())
    }
}

/// The phase the idle loop reaches from `phase` after the outcomes `events`.
pub open spec fn idle_after(phase: IdlePhase, events: Seq<IdleEvent>) -> IdlePhase
    decreases events.len(),
{
    if events.len() == 0 {
        phase
    } else {
        idle_after(idle_step(phase, events[0]).0, events.drop_first())
    }
}

/// Once the idle loop has exited it only ever exits again.
pub proof fn lemma_idle_exit_is_final(events: Seq<IdleEvent>)
    ensures
        idle_after(IdlePhase::Finished, events) == IdlePhase::Finished,
        idle_trace(IdlePhase::Finished, events).len() == events.len(),
        forall|i: int| 0 <= i < events.len() ==> #[trigger] idle_trace(IdlePhase::Finished, events)[i] == IdleAction::Exit,
    decreases events.len(),
{
    if events.len() > 0 {
        lemma_idle_exit_is_final(events.drop_first());
        let t = idle_trace(IdlePhase::Finished, events);
        assert forall|i: int| 0 <= i < events.len() implies #[trigger] t[i] == IdleAction::Exit by {
            if i > 0 {
                assert(t[i] == idle_trace(IdlePhase::Finished, events.drop_first())[i - 1]);
            }
        }
    }
}

/// The idle loop searches only right after a quit check, made after waking,
/// found the flag clear; and a quit check that finds the flag set always ends
/// the loop.
pub proof fn lemma_idle_search_and_exit(phase: IdlePhase, event: IdleEvent)
    ensures
        idle_step(phase, event).1 == IdleAction::Search ==> phase == IdlePhase::CheckAfterWake && event == IdleEvent::Killed(false),
        idle_step(phase, event).1 == IdleAction::Wait ==> phase == IdlePhase::CheckBeforeWait && event == IdleEvent::Killed(false),
        (phase == IdlePhase::CheckBeforeWait || phase == IdlePhase::CheckAfterWake) && event == IdleEvent::Killed(true)
            ==> idle_step(phase, event) == (IdlePhase::Finished, IdleAction::Exit),
{
}

/// One round of the quit check, wait, quit check and search, with the flag
/// clear both times, brings the loop back to its quit check before waiting.
pub proof fn lemma_idle_round()
    ensures
        idle_trace(IdlePhase::CheckBeforeWait, seq![IdleEvent::Killed(false), IdleEvent::Done, IdleEvent::Killed(false), IdleEvent::Done])
            == seq![IdleAction::Wait, IdleAction::CheckKill, IdleAction::Search, IdleAction::CheckKill],
        idle_after(IdlePhase::CheckBeforeWait, seq![IdleEvent::Killed(false), IdleEvent::Done, IdleEvent::Killed(false), IdleEvent::Done])
            == IdlePhase::CheckBeforeWait,
{
    let e = seq![IdleEvent::Killed(false), IdleEvent::Done, IdleEvent::Killed(false), IdleEvent::Done];
    assert(e.drop_first() =~= seq![IdleEvent::Done, IdleEvent::Killed(false), IdleEvent::Done]);
    assert(e.drop_first().drop_first() =~= seq![IdleEvent::Killed(false), IdleEvent::Done]);
    assert(e.drop_first().drop_first().drop_first() =~= seq![IdleEvent::Done]);
    assert(e.drop_first().drop_first().drop_first().drop_first() =~= Seq::<IdleEvent>::empty());
    reveal_with_fuel(idle_trace, 5);
    reveal_with_fuel(idle_after, 5);
    assert(idle_trace(IdlePhase::CheckBeforeWait, e) =~= seq![IdleAction::Wait, IdleAction::CheckKill, IdleAction::Search, IdleAction::CheckKill]);
}


/// What the main thread's search round asks for next.
#[derive(Copy, Clone, Debug, PartialEq, Eq, Structural)]
pub enum GoAction {
    /// Tell the helper threads to stop searching.
    StopSearch,
    /// Wait until every helper has stopped.
    WaitForFinish,
    /// Reset the depths the helpers reached.
    ResetDepths,
    /// Replace the root moves by those of the position to search.
    ReplaceMoves,
    /// Let the helpers search again.
    ResumeSearch,
    /// Read the search limits, and report `GoEvent::Flag` with whether they
    /// ask for time management.
    ReadLimit,
    /// Start the timer for the side to move.
    InitTimer,
    /// Wake the helper threads.
    StartThreads,
    /// Wait until every helper has started.
    WaitForStart,
    /// Make the helpers wait again once done.
    LockThreads,
    /// Search the position on the main thread.
    Search,
    /// Choose the best root move and send it.
    SendBestMove,
    /// Read whether to print, and report `GoEvent::Flag` with it.
    ReadStdout,
    /// Print the best move.
    PrintBestMove,
    /// Make the main thread wait for the next round.
    LockSelf,
    /// The round is over.
    Return,
}

/// What the main thread reports about the action it performed.
#[derive(Copy, Clone, Debug, PartialEq, Eq, Structural)]
pub enum GoEvent {
    /// The action finished.
    Done,
    /// A flag was read.
    Flag(bool),
}

/// The search round's step: from a stage and the outcome of the last action,
/// the next stage and action. The timer is started only when the limits ask for
/// time management, and the best move printed only when printing is on.
pub open spec fn go_step(stage: u8, event: GoEvent) -> (u8, GoAction) {
    if stage == 0 {
        (1, GoAction::StopSearch)
    } else if stage == 1 {
        (2, GoAction::WaitForFinish)
    } else if stage == 2 {
        (3, GoAction::ResetDepths)
    } else if stage == 3 {
        (4, GoAction::ReplaceMoves)
    } else if stage == 4 {
        (5, GoAction::ResumeSearch)
    } else if stage == 5 {
        (6, GoAction::ReadLimit)
    } else if stage == 6 {
        if event == GoEvent::Flag(true) {
            (7, GoAction::InitTimer)
        } else {
            (8, GoAction::StartThreads)
        }
    } else if stage == 7 {
        (8, GoAction::StartThreads)
    } else if stage == 8 {
        (9, GoAction::WaitForStart)
    } else if stage == 9 {
        (10, GoAction::LockThreads)
    } else if stage == 10 {
        (11, GoAction::Search)
    } else if stage == 11 {
        (12, GoAction::StopSearch)
    } else if stage == 12 {
        (13, GoAction::WaitForFinish)
    } else if stage == 13 {
        (14, GoAction::SendBestMove)
    } else if stage == 14 {
        (15, GoAction::ReadStdout)
    } else if stage == 15 {
        if event == GoEvent::Flag(true) {
            (16, GoAction::PrintBestMove)
        } else {
            (17, GoAction::LockSelf)
        }
    } else if stage == 16 {
        (17, GoAction::LockSelf)
    } else {
        (18, GoAction::Return)
    }
}

/// The main thread's search round.
pub struct MainGo {
    stage: u8,
}

impl MainGo {
    /// How far the round has come.
    pub closed spec fn spec_stage(&self) -> u8 {
        self.stage
    }

    /// A round that has done nothing yet.
    pub fn new() -> (g: MainGo)
        ensures
            g.spec_stage() == 0,
    {
        MainGo { stage: 0 }
    }

    /// Takes the outcome of the last action and returns the next action.
    pub fn next(&mut self, event: GoEvent) -> (action: GoAction)
        ensures
            (final(self).spec_stage(), action) == go_step(old(self).spec_stage(), event),
    {
        let flag = match event {
            GoEvent::Flag(b) => b,
            GoEvent::Done => false,
        };
        let s = self.stage;
        let (stage, action) = if s == 0 {
            (1, GoAction::StopSearch)
        } else if s == 1 {
            (2, GoAction::WaitForFinish)
        } else if s == 2 {
            (3, GoAction::ResetDepths)
        } else if s == 3 {
            (4, GoAction::ReplaceMoves)
        } else if s == 4 {
            (5, GoAction::ResumeSearch)
        } else if s == 5 {
            (6, GoAction::ReadLimit)
        } else if s == 6 {
            if flag {
                (7, GoAction::InitTimer)
            } else {
                (8, GoAction::StartThreads)
            }
        } else if s == 7 {
            (8, GoAction::StartThreads)
        } else if s == 8 {
            (9, GoAction::WaitForStart)
        } else if s == 9 {
            (10, GoAction::LockThreads)
        } else if s == 10 {
            (11, GoAction::Search)
        } else if s == 11 {
            (12, GoAction::StopSearch)
        } else if s == 12 {
            (13, GoAction::WaitForFinish)
        } else if s == 13 {
            (14, GoAction::SendBestMove)
        } else if s == 14 {
            (15, GoAction::ReadStdout)
        } else if s == 15 {
            if flag {
                (16, GoAction::PrintBestMove)
            } else {
                (17, GoAction::LockSelf)
            }
        } else if s == 16 {
            (17, GoAction::LockSelf)
        } else {
            (18, GoAction::Return)
        };
        self.stage = stage;
        action
    }
}

/// The actions the round asks for from `stage`, given the outcomes `events`.
pub open spec fn go_trace(stage: u8, events: Seq<GoEvent>) -> Seq<GoAction>
    decreases events.len(),
{
    if events.len() == 0 {
        Seq::empty()
    } else {
        let (next, action) = go_step(stage, events[0]);
        seq![action] + go_trace(next, events.drop_first())
    }
}

/// The outcomes a round reports when the limits ask for time management
/// exactly when `timed` and printing is on exactly when `print`.
pub open spec fn go_events(timed: bool, print: bool) -> Seq<GoEvent> {
    seq![GoEvent::Done, GoEvent::Done, GoEvent::Done, GoEvent::Done, GoEvent::Done, GoEvent::Done]
        + seq![GoEvent::Flag(timed)]
        + (if timed { seq![GoEvent::Done] } else { Seq::empty() })
        + seq![GoEvent::Done, GoEvent::Done, GoEvent::Done, GoEvent::Done, GoEvent::Done, GoEvent::Done, GoEvent::Done]
        + seq![GoEvent::Flag(print)]
        + (if print { seq![GoEvent::Done] } else { Seq::empty() })
        + seq![GoEvent::Done]
}

/// The round in full: stop the helpers and wait for them, reset their depths,
/// replace the root moves, let them search, read the limits (starting the timer
/// when they ask for time management), start the helpers, wait for them to
/// start, make them wait again once done, search, stop the helpers and wait for
/// them, send the best move, read whether to print (printing when asked), and
/// make the main thread wait for the next round.
pub open spec fn go_plan(timed: bool, print: bool) -> Seq<GoAction> {
    seq![GoAction::StopSearch, GoAction::WaitForFinish, GoAction::ResetDepths, GoAction::ReplaceMoves,
        GoAction::ResumeSearch, GoAction::ReadLimit]
        + (if timed { seq![GoAction::InitTimer] } else { Seq::empty() })
        + seq![GoAction::StartThreads, GoAction::WaitForStart, GoAction::LockThreads, GoAction::Search,
            GoAction::StopSearch, GoAction::WaitForFinish, GoAction::SendBestMove, GoAction::ReadStdout]
        + (if print { seq![GoAction::PrintBestMove] } else { Seq::empty() })
        + seq![GoAction::LockSelf, GoAction::Return]
}

/// The stage the round reaches from `stage` after the outcomes `events`.
pub open spec fn go_after(stage: u8, events: Seq<GoEvent>) -> u8
    decreases events.len(),
{
    if events.len() == 0 {
        stage
    } else {
        go_after(go_step(stage, events[0]).0, events.drop_first())
    }
}

/// Driving the round with `a` then `b` asks for the actions of `a` then those
/// of `b` from where `a` left it.
proof fn lemma_go_trace_add(stage: u8, a: Seq<GoEvent>, b: Seq<GoEvent>)
    ensures
        go_trace(stage, a + b) == go_trace(stage, a) + go_trace(go_after(stage, a), b),
        go_after(stage, a + b) == go_after(go_after(stage, a), b),
    decreases a.len(),
{
    if a.len() == 0 {
        assert(a + b =~= b);
        assert(go_trace(stage, a) + go_trace(stage, b) =~= go_trace(stage, b));
    } else {
        let next = go_step(stage, a[0]).0;
        assert((a + b).drop_first() =~= a.drop_first() + b);
        lemma_go_trace_add(next, a.drop_first(), b);
        assert(go_trace(stage, a + b) =~= seq![go_step(stage, a[0]).1] + go_trace(next, a.drop_first() + b));
    }
}

proof fn lemma_go_one(stage: u8, event: GoEvent)
    ensures
        go_trace(stage, seq![event]) == seq![go_step(stage, event).1],
        go_after(stage, seq![event]) == go_step(stage, event).0,
{
    reveal_with_fuel(go_trace, 2);
    reveal_with_fuel(go_after, 2);
    assert(seq![event].drop_first() =~= Seq::<GoEvent>::empty());
    assert(go_trace(go_step(stage, event).0, Seq::<GoEvent>::empty()) =~= Seq::<GoAction>::empty());
    assert(go_trace(stage, seq![event]) =~= seq![go_step(stage, event).1]);
}

/// Outcomes `Done` repeated `n` times.
pub open spec fn dones(n: nat) -> Seq<GoEvent> {
    Seq::new(n, |i: int| GoEvent::Done)
}

/// The actions asked for from `stage` by `n` outcomes `Done`, when each of the
/// stages passed through asks for no flag.
pub open spec fn go_straight(stage: u8, n: nat) -> Seq<GoAction>
    decreases n,
{
    if n == 0 {
        Seq::empty()
    } else {
        seq![go_step(stage, GoEvent::Done).1] + go_straight(go_step(stage, GoEvent::Done).0, (n - 1) as nat)
    }
}

proof fn lemma_go_dones(stage: u8, n: nat)
    ensures
        go_trace(stage, dones(n)) == go_straight(stage, n),
    decreases n,
{
    if n > 0 {
        let next = go_step(stage, GoEvent::Done).0;
        assert(dones(n).drop_first() =~= dones((n - 1) as nat));
        lemma_go_dones(next, (n - 1) as nat);
    }
}

proof fn lemma_go_dones_after(stage: u8, n: nat)
    ensures
        go_after(stage, dones(n)) == go_straight_after(stage, n),
    decreases n,
{
    if n > 0 {
        let next = go_step(stage, GoEvent::Done).0;
        assert(dones(n).drop_first() =~= dones((n - 1) as nat));
        lemma_go_dones_after(next, (n - 1) as nat);
    }
}

/// The stage reached from `stage` after `n` outcomes `Done`.
pub open spec fn go_straight_after(stage: u8, n: nat) -> u8
    decreases n,
{
    if n == 0 {
        stage
    } else {
        go_straight_after(go_step(stage, GoEvent::Done).0, (n - 1) as nat)
    }
}

/// A round driven with the outcomes it asks for performs exactly the planned
/// actions, in order, and ends by returning.
#[verifier::spinoff_prover]
#[verifier::rlimit(20)]
pub proof fn lemma_go_round(timed: bool, print: bool)
    ensures
        go_trace(0, go_events(timed, print)) == go_plan(timed, print),
{
    let s1 = dones(6);
    assert(s1 =~= seq![GoEvent::Done, GoEvent::Done, GoEvent::Done, GoEvent::Done, GoEvent::Done, GoEvent::Done]);
    lemma_go_dones(0, 6);
    lemma_go_dones_after(0, 6);
    reveal_with_fuel(go_straight, 7);
    reveal_with_fuel(go_straight_after, 7);
    assert(go_straight_after(0, 6) == 6);
    let t1 = go_straight(0, 6);
    let f1 = seq![GoEvent::Flag(timed)];
    lemma_go_one(6, GoEvent::Flag(timed));
    let mid = if timed { seq![GoEvent::Done] } else { Seq::<GoEvent>::empty() };
    lemma_go_one(7, GoEvent::Done);
    let s3 = dones(7);
    lemma_go_dones(8, 7);
    lemma_go_dones_after(8, 7);
    reveal_with_fuel(go_straight, 8);
    reveal_with_fuel(go_straight_after, 8);
    assert(go_straight_after(8, 7) == 15);
    let f2 = seq![GoEvent::Flag(print)];
    lemma_go_one(15, GoEvent::Flag(print));
    let mid2 = if print { seq![GoEvent::Done] } else { Seq::<GoEvent>::empty() };
    lemma_go_one(16, GoEvent::Done);
    let last = seq![GoEvent::Done];
    lemma_go_one(17, GoEvent::Done);
    assert(s3 =~= seq![GoEvent::Done, GoEvent::Done, GoEvent::Done, GoEvent::Done, GoEvent::Done, GoEvent::Done, GoEvent::Done]);
    assert(go_events(timed, print) =~= s1 + f1 + mid + s3 + f2 + mid2 + last);
    lemma_go_trace_add(0, s1, f1);
    lemma_go_trace_add(0, s1 + f1, mid);
    lemma_go_trace_add(0, s1 + f1 + mid, s3);
    lemma_go_trace_add(0, s1 + f1 + mid + s3, f2);
    lemma_go_trace_add(0, s1 + f1 + mid + s3 + f2, mid2);
    lemma_go_trace_add(0, s1 + f1 + mid + s3 + f2 + mid2, last);
    let a1 = go_after(0, s1 + f1);
    assert(a1 == if timed { 7u8 } else { 8u8 });
    let a2 = go_after(0, s1 + f1 + mid);
    assert(go_trace(a1, Seq::<GoEvent>::empty()) =~= Seq::<GoAction>::empty());
    assert(a2 == 8);
    let a4 = go_after(0, s1 + f1 + mid + s3 + f2);
    assert(a4 == if print { 16u8 } else { 17u8 });
    assert(go_trace(a4, Seq::<GoEvent>::empty()) =~= Seq::<GoAction>::empty());
    let a5 = go_after(0, s1 + f1 + mid + s3 + f2 + mid2);
    assert(a5 == 17);
    assert(go_trace(0, go_events(timed, print)) =~= go_plan(timed, print));
}

} // verus!
