//! Regulates a player's presence in an arena: joins and leaves are spread
//! over ticks so that the arena sees each addition and removal once.
use vstd::prelude::*;

verus! {

/// Lifecycle of a regulated player.
#[derive(Debug)]
pub enum State {
    /// Never joined, or fully left.
    Initial,
    /// `join` called; will join on the next tick and become `Joined`.
    Joining,
    /// Was `Joining` last tick, or `join` took the fast path.
    Joined,
    /// `leave` called; becomes `Leaving` on the next tick.
    WaitingToLeave,
    /// Was `WaitingToLeave` last tick; leaves on the next tick and becomes `Left`.
    Leaving,
    /// Was `Leaving` last tick; becomes `Initial` on the next tick.
    Left,
}

impl State {
    pub fn is_initial(&self) -> (r: bool)
        ensures
            r == (*self is Initial),
    {
        matches!(self, State::Initial)
    }

    pub fn is_joining(&self) -> (r: bool)
        ensures
            r == (*self is Joining),
    {
        matches!(self, State::Joining)
    }

    pub fn is_joined(&self) -> (r: bool)
        ensures
            r == (*self is Joined),
    {
        matches!(self, State::Joined)
    }

    pub fn is_leaving(&self) -> (r: bool)
        ensures
            r == (*self is Leaving),
    {
        matches!(self, State::Leaving)
    }

    pub fn is_waiting_to_leave(&self) -> (r: bool)
        ensures
            r == (*self is WaitingToLeave),
    {
        matches!(self, State::WaitingToLeave)
    }

    pub fn is_left(&self) -> (r: bool)
        ensures
            r == (*self is Left),
    {
        matches!(self, State::Left)
    }
}

/// Whether the arena currently counts the player as present: it was added
/// (by a fast-path `join` or a `Some(true)` tick) and not yet removed (by a
/// `Some(false)` tick).
pub open spec fn in_arena(s: State) -> bool {
    s is Joined || s is WaitingToLeave || s is Leaving
}

/// The state a `tick` moves to.
pub open spec fn tick_state(s: State) -> State {
    match s {
        State::Initial => State::Initial,
        State::Joining => State::Joined,
        State::Joined => State::Joined,
        State::WaitingToLeave => State::Leaving,
        State::Leaving => State::Left,
        State::Left => State::Initial,
    }
}

/// What a `tick` reports: `Some(true)` to add, `Some(false)` to remove.
pub open spec fn tick_result(s: State) -> Option<bool> {
    match s {
        State::Joining => Some(true),
        State::Leaving => Some(false),
        _ => None,
    }
}

/// The state `join` moves to (from a state where joining is allowed).
pub open spec fn join_state(s: State) -> State {
    match s {
        State::Left => State::Joining,
        _ => State::Joined,
    }
}

/// The state `leave` moves to (from a joining or joined state).
pub open spec fn leave_state(s: State) -> State {
    match s {
        State::Joining => State::Initial,
        _ => State::WaitingToLeave,
    }
}

/// A join that is not on the fast path takes effect on the next tick: the
/// tick reports the addition (when the player was not in the arena) and the
/// player is then active.
pub proof fn law_join_then_tick(s: State)
    requires
        !(s is Joining),
        !(s is Joined),
        !(s is Initial),
    ensures
        tick_state(join_state(s)) is Joined,
        tick_result(join_state(s)) == (if in_arena(s) {
            None::<bool>
        } else {
            Some(true)
        }),
{
}

/// After a joined player leaves, three ticks report nothing, then the
/// removal, then nothing, and the regulator may then be forgotten.
pub proof fn law_leave_then_ticks(s: State)
    requires
        s is Joined,
    ensures
        tick_result(leave_state(s)) is None,
        tick_result(tick_state(leave_state(s))) == Some(false),
        tick_result(tick_state(tick_state(leave_state(s)))) is None,
        tick_state(tick_state(tick_state(leave_state(s)))) is Initial,
{
}

/// Joining while a leave is pending cancels the leave: the player stays in
/// the arena and no tick reports it.
pub proof fn law_rejoin_cancels_leave(s: State)
    requires
        s is WaitingToLeave || s is Leaving,
    ensures
        join_state(s) is Joined,
        in_arena(join_state(s)),
        tick_result(join_state(s)) is None,
        tick_state(join_state(s)) is Joined,
{
}

/// Leaving before a slow join took effect cancels it: nothing was added and
/// the regulator may be forgotten at once.
pub proof fn law_leave_cancels_join(s: State)
    requires
        s is Left,
    ensures
        leave_state(join_state(s)) is Initial,
        !in_arena(leave_state(join_state(s))),
{
}

/// A call on a regulator.
#[derive(Clone, Copy, Debug, PartialEq, Eq, Structural)]
pub enum RegulatorCall {
    Join,
    Leave,
    Tick,
}

/// Whether the call is allowed in state `s` (joining twice, or leaving
/// without joining, is refused).
pub open spec fn call_allowed(s: State, c: RegulatorCall) -> bool {
    match c {
        RegulatorCall::Join => !(s is Joining) && !(s is Joined),
        RegulatorCall::Leave => s is Joining || s is Joined,
        RegulatorCall::Tick => true,
    }
}

/// The state after the call.
pub open spec fn after_call(s: State, c: RegulatorCall) -> State {
    match c {
        RegulatorCall::Join => join_state(s),
        RegulatorCall::Leave => leave_state(s),
        RegulatorCall::Tick => tick_state(s),
    }
}

/// What the call reports to the arena: +1 for an addition (a fast join, or
/// a tick's `Some(true)`), -1 for a removal (a tick's `Some(false)`).
pub open spec fn reported_change(s: State, c: RegulatorCall) -> int {
    match c {
        RegulatorCall::Join => if s is Initial {
            1
        } else {
            0
        },
        RegulatorCall::Leave => 0,
        RegulatorCall::Tick => match tick_result(s) {
            Some(true) => 1,
            Some(false) => -1,
            None => 0,
        },
    }
}

/// Every call of the sequence is allowed where it comes.
pub open spec fn calls_allowed(s: State, calls: Seq<RegulatorCall>) -> bool
    decreases calls.len(),
{
    calls.len() == 0 || (call_allowed(s, calls[0]) && calls_allowed(after_call(s, calls[0]), calls.drop_first()))
}

/// The state after the calls.
pub open spec fn after_calls(s: State, calls: Seq<RegulatorCall>) -> State
    decreases calls.len(),
{
    if calls.len() == 0 {
        s
    } else {
        after_calls(after_call(s, calls[0]), calls.drop_first())
    }
}

/// The sum of what the calls report.
pub open spec fn reported_total(s: State, calls: Seq<RegulatorCall>) -> int
    decreases calls.len(),
{
    if calls.len() == 0 {
        0
    } else {
        reported_change(s, calls[0]) + reported_total(after_call(s, calls[0]), calls.drop_first())
    }
}

/// Whether the arena counts the player present, as a number.
pub open spec fn presence(s: State) -> int {
    if in_arena(s) {
        1
    } else {
        0
    }
}

/// The additions and removals reported over any allowed sequence of calls
/// add up to the change in the player's presence: an arena that counts
/// the reports counts the player exactly while it is present.
pub proof fn law_reports_count_presence(s: State, calls: Seq<RegulatorCall>)
    requires
        calls_allowed(s, calls),
    ensures
        presence(s) + reported_total(s, calls) == presence(after_calls(s, calls)),
    decreases calls.len(),
{
    if calls.len() > 0 {
        law_reports_count_presence(after_call(s, calls[0]), calls.drop_first());
    }
}

/// From a fresh regulator, over any allowed sequence of calls, the count an
/// arena keeps from the reports (a fast join or a `Some(true)` tick adds one,
/// a `Some(false)` tick removes one) is 0 or 1, and is 1 exactly while the
/// player is present. The next tick reports an addition only at a count of
/// 0 and a removal only at a count of 1; an active regulator stands at 1 and
/// one that may be forgotten at 0.
pub proof fn law_count_from_fresh(calls: Seq<RegulatorCall>)
    requires
        calls_allowed(State::Initial, calls),
    ensures
        reported_total(State::Initial, calls) == presence(after_calls(State::Initial, calls)),
        0 <= reported_total(State::Initial, calls) <= 1,
        tick_result(after_calls(State::Initial, calls)) == Some(true) ==> reported_total(State::Initial, calls) == 0,
        tick_result(after_calls(State::Initial, calls)) == Some(false) ==> reported_total(State::Initial, calls) == 1,
        after_calls(State::Initial, calls) is Joined ==> reported_total(State::Initial, calls) == 1,
        after_calls(State::Initial, calls) is Initial ==> reported_total(State::Initial, calls) == 0,
{
    law_reports_count_presence(State::Initial, calls);
}

/// Regulates the joining and leaving of one player.
#[derive(Debug)]
pub struct Regulator {
    state: State,
}

impl View for Regulator {
    type V = State;

    closed spec fn view(&self) -> State {
        self.state
    }
}

impl Default for Regulator {
    /// A regulator in the `Initial` state.
    fn default() -> (r: Self)
        ensures
            r@ is Initial,
    {
        Regulator { state: State::Initial }
    }
}

impl Regulator {

    /// Returns `true` iff the join is fast-path; otherwise the join happens on
    /// the next `tick`. Joining twice with no `leave` in between is refused
    /// (the player is already joining or joined).
    pub fn join(&mut self) -> (fast: bool)
        requires
            !(old(self)@ is Joining),
            !(old(self)@ is Joined),
        ensures
            fast == (old(self)@ is Initial),
            final(self)@ == join_state(old(self)@),
            fast == (!in_arena(old(self)@) && in_arena(final(self)@)),
            in_arena(old(self)@) ==> in_arena(final(self)@),
    {
        match self.state {
            State::Initial => {
                self.state = State::Joined;
                true
            },
            State::WaitingToLeave | State::Leaving => {
                self.state = State::Joined;
                false
            },
            State::Left => {
                self.state = State::Joining;
                false
            },
            State::Joining => {
                proof {
                    assert(false);
                }
                false
            },
            State::Joined => {
                proof {
                    assert(false);
                }
                false
            },
        }
    }

    /// Starts leaving. Only a joining or joined player can leave.
    pub fn leave(&mut self)
        requires
            old(self)@ is Joining || old(self)@ is Joined,
        ensures
            final(self)@ == leave_state(old(self)@),
            in_arena(final(self)@) == in_arena(old(self)@),
    {
        match self.state {
            State::Joining => {
                self.state = State::Initial;
            },
            _ => {
                self.state = State::WaitingToLeave;
            },
        }
    }

    /// Leaves and runs the ticks that complete the leave at once (for a
    /// joined player; any other state is a bug that debug builds catch).
    pub fn leave_now(&mut self)
        requires
            old(self)@ is Joined,
        ensures
            final(self)@ is Left,
            !in_arena(final(self)@),
    {
        self.leave();
        if self.state.is_waiting_to_leave() {
            let first = self.tick();
            assert(first is None);
            let second = self.tick();
            assert(second == Some(false));
        }
    }

    /// Is currently in game.
    pub fn active(&self) -> (r: bool)
        ensures
            r == (self@ is Joined),
    {
        self.state.is_joined()
    }

    /// Safe to forget or delete.
    pub fn can_forget(&self) -> (r: bool)
        ensures
            r == (self@ is Initial),
    {
        self.state.is_initial()
    }

    /// Advances one step. `Some(true)` means the player must be added to the
    /// arena, `Some(false)` that it must be removed.
    pub fn tick(&mut self) -> (r: Option<bool>)
        ensures
            final(self)@ == tick_state(old(self)@),
            r == tick_result(old(self)@),
            r == Some(true) <==> (!in_arena(old(self)@) && in_arena(final(self)@)),
            r == Some(false) <==> (in_arena(old(self)@) && !in_arena(final(self)@)),
            r is None <==> (in_arena(old(self)@) == in_arena(final(self)@)),
    {
        match self.state {
            State::Initial => None,
            State::Joining => {
                self.state = State::Joined;
                Some(true)
            },
            State::Joined => None,
            State::WaitingToLeave => {
                self.state = State::Leaving;
                None
            },
            State::Leaving => {
                self.state = State::Left;
                Some(false)
            },
            State::Left => {
                self.state = State::Initial;
                None
            },
        }
    }
}

} // verus!
