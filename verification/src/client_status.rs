//! The lifecycle of a client's connection, as the periodic prune sees it:
//! pending clients that never connected expire, disconnected clients wait
//! in limbo and then leave the game, redirected clients are closed, and
//! clients whose regulator has finished leaving are forgotten.
use crate::ids::PlayerId;
use crate::regulator::{join_state, leave_state, Regulator, State};
use vstd::prelude::*;

verus! {

/// How many prunes a client leaving limbo waits for its regulator.
pub const LEAVING_LIMBO_TICKS: u8 = 2;

/// A client's connection state (the channels themselves stay with the
/// server). Times are in milliseconds.
#[derive(Clone, Copy, Debug, PartialEq, Eq, Structural)]
pub enum ClientPhase {
    /// Initial state: the visit has not started; forgotten after expiry.
    Pending { expiry: u64 },
    /// Connected and in game.
    Connected,
    /// Disconnected but still in game; leaves the game after expiry.
    Limbo { expiry: u64 },
    /// Disconnected and out of the game; forgotten once the regulator has
    /// finished leaving, unless a new connection arrives before expiry.
    LeavingLimbo { expiry: u64, ticks: u8 },
    /// Sent to another server; closed (or forgotten) after expiry.
    Redirected { expiry: u64, has_observer: bool, send_close: bool },
}

/// What the server does for a client after a prune.
#[derive(Clone, Copy, Debug, PartialEq, Eq, Structural)]
pub enum PruneAction {
    /// Nothing.
    Stay,
    /// The client leaves the game; the game is told when it was playing.
    Quit { tell_game: bool },
    /// The observer's connection is told to close.
    SendClose,
    /// The visit ends (its metrics are recorded) and the player is forgotten.
    StopVisitAndForget,
    /// The player is forgotten.
    Forget,
}

/// One prune of a client at time `now`: its next phase, its regulator's
/// next state, and what the server does.
pub open spec fn prune_step(phase: ClientPhase, reg: State, now: u64) -> (ClientPhase, State, PruneAction) {
    match phase {
        ClientPhase::Pending { expiry } => (phase, reg, if now > expiry {
            PruneAction::Forget
        } else {
            PruneAction::Stay
        }),
        ClientPhase::Connected => (phase, reg, PruneAction::Stay),
        ClientPhase::Limbo { expiry } => if now >= expiry {
            (
                ClientPhase::LeavingLimbo { expiry: now, ticks: 0 },
                leave_state(reg),
                PruneAction::Quit { tell_game: reg is Joined },
            )
        } else {
            (phase, reg, PruneAction::Stay)
        },
        ClientPhase::LeavingLimbo { expiry, ticks } => if ticks < LEAVING_LIMBO_TICKS {
            (ClientPhase::LeavingLimbo { expiry, ticks: (ticks + 1) as u8 }, reg, PruneAction::Stay)
        } else if now < expiry || !(reg is Initial) {
            (phase, reg, PruneAction::Stay)
        } else {
            (phase, reg, PruneAction::StopVisitAndForget)
        },
        ClientPhase::Redirected { expiry, has_observer, send_close } => if now < expiry || !(reg is Initial) {
            (phase, reg, PruneAction::Stay)
        } else if has_observer {
            if send_close {
                (ClientPhase::Redirected { expiry, has_observer, send_close: false }, reg, PruneAction::SendClose)
            } else {
                (phase, reg, PruneAction::Stay)
            }
        } else {
            (phase, reg, PruneAction::Forget)
        },
    }
}

/// The prune may run on a client: a client in limbo that expires must be
/// joining or joined, since it then leaves.
pub open spec fn prunable(phase: ClientPhase, reg: State, now: u64) -> bool {
    phase matches ClientPhase::Limbo { expiry } && now >= expiry ==> (reg is Joining || reg is Joined)
}

/// The prune may run on a player: a bot always, a client when `prunable`.
pub open spec fn player_prunable(phase: Option<ClientPhase>, reg: State, now: u64) -> bool {
    match phase {
        Some(p) => prunable(p, reg, now),
        None => true,
    }
}

/// Prunes a client at time `now` (see `prune_step`).
pub fn prune_client(phase: &mut ClientPhase, regulator: &mut Regulator, now: u64) -> (r: PruneAction)
    requires
        prunable(*old(phase), old(regulator)@, now),
    ensures
        (*final(phase), final(regulator)@, r) == prune_step(*old(phase), old(regulator)@, now),
{
    match *phase {
        ClientPhase::Pending { expiry } => {
            if now > expiry {
                PruneAction::Forget
            } else {
                PruneAction::Stay
            }
        },
        ClientPhase::Connected => PruneAction::Stay,
        ClientPhase::Limbo { expiry } => {
            if now >= expiry {
                *phase = ClientPhase::LeavingLimbo { expiry: now, ticks: 0 };
                let tell_game = regulator.active();
                regulator.leave();
                PruneAction::Quit { tell_game }
            } else {
                PruneAction::Stay
            }
        },
        ClientPhase::LeavingLimbo { expiry, ticks } => {
            if ticks < LEAVING_LIMBO_TICKS {
                *phase = ClientPhase::LeavingLimbo { expiry, ticks: ticks + 1 };
                PruneAction::Stay
            } else if now < expiry || !regulator.can_forget() {
                PruneAction::Stay
            } else {
                PruneAction::StopVisitAndForget
            }
        },
        ClientPhase::Redirected { expiry, has_observer, send_close } => {
            if now < expiry || !regulator.can_forget() {
                PruneAction::Stay
            } else if has_observer {
                if send_close {
                    *phase = ClientPhase::Redirected { expiry, has_observer, send_close: false };
                    PruneAction::SendClose
                } else {
                    PruneAction::Stay
                }
            } else {
                PruneAction::Forget
            }
        },
    }
}

/// What the server does when a connection registers for a client.
#[derive(Clone, Copy, Debug, PartialEq, Eq, Structural)]
pub enum RegisterAction {
    /// The client was sent elsewhere: when `send`, the new connection is
    /// told where and kept until closed; otherwise it is ignored.
    Redirect { send: bool },
    /// The client is now connected: the previous connection (if it was
    /// connected) is closed, a pending client's visit starts, and the game
    /// is told of a player that joined at once.
    Connect { close_previous: bool, start_visit: bool, tell_game: bool },
}

/// A connection registering for a client: its next phase, its regulator's
/// next state, and what the server does.
pub open spec fn register_step(phase: ClientPhase, reg: State) -> (ClientPhase, State, RegisterAction) {
    match phase {
        ClientPhase::Redirected { expiry, has_observer, send_close } => if send_close {
            (ClientPhase::Redirected { expiry, has_observer: true, send_close }, reg, RegisterAction::Redirect { send: true })
        } else {
            (phase, reg, RegisterAction::Redirect { send: false })
        },
        ClientPhase::Connected => (
            ClientPhase::Connected,
            reg,
            RegisterAction::Connect { close_previous: true, start_visit: false, tell_game: false },
        ),
        ClientPhase::Limbo { .. } => (
            ClientPhase::Connected,
            reg,
            RegisterAction::Connect { close_previous: false, start_visit: false, tell_game: false },
        ),
        ClientPhase::Pending { .. } => (
            ClientPhase::Connected,
            join_state(reg),
            RegisterAction::Connect { close_previous: false, start_visit: true, tell_game: reg is Initial },
        ),
        ClientPhase::LeavingLimbo { .. } => (
            ClientPhase::Connected,
            join_state(reg),
            RegisterAction::Connect { close_previous: false, start_visit: false, tell_game: reg is Initial },
        ),
    }
}

/// A connection may register: a pending client, or one leaving limbo,
/// joins the game, so it must not be joining or joined already.
pub open spec fn registrable(phase: ClientPhase, reg: State) -> bool {
    (phase is Pending || phase is LeavingLimbo) ==> !(reg is Joining || reg is Joined)
}

/// A connection registers for a client (see `register_step`).
pub fn register_client(phase: &mut ClientPhase, regulator: &mut Regulator) -> (r: RegisterAction)
    requires
        registrable(*old(phase), old(regulator)@),
    ensures
        (*final(phase), final(regulator)@, r) == register_step(*old(phase), old(regulator)@),
{
    match *phase {
        ClientPhase::Redirected { expiry, has_observer, send_close } => {
            if send_close {
                *phase = ClientPhase::Redirected { expiry, has_observer: true, send_close };
            }
            RegisterAction::Redirect { send: send_close }
        },
        ClientPhase::Connected => {
            RegisterAction::Connect { close_previous: true, start_visit: false, tell_game: false }
        },
        ClientPhase::Limbo { .. } => {
            *phase = ClientPhase::Connected;
            RegisterAction::Connect { close_previous: false, start_visit: false, tell_game: false }
        },
        ClientPhase::Pending { .. } => {
            *phase = ClientPhase::Connected;
            let fast = regulator.join();
            RegisterAction::Connect { close_previous: false, start_visit: true, tell_game: fast }
        },
        ClientPhase::LeavingLimbo { .. } => {
            *phase = ClientPhase::Connected;
            let fast = regulator.join();
            RegisterAction::Connect { close_previous: false, start_visit: false, tell_game: fast }
        },
    }
}

/// A connection unregistering at `now`: the client it connected goes to
/// limbo until `now + limbo_millis` (saturating), provided it is that
/// client's current connection (`same_observer`); a redirected client
/// loses the connection it was to be closed through.
pub open spec fn unregister_step(phase: ClientPhase, same_observer: bool, now: u64, limbo_millis: u64) -> ClientPhase {
    match phase {
        ClientPhase::Connected => if same_observer {
            ClientPhase::Limbo {
                expiry: if now + limbo_millis > u64::MAX {
                    u64::MAX
                } else {
                    (now + limbo_millis) as u64
                },
            }
        } else {
            phase
        },
        ClientPhase::Redirected { expiry, send_close, .. } => ClientPhase::Redirected {
            expiry,
            has_observer: false,
            send_close,
        },
        _ => phase,
    }
}

/// A connection unregisters (see `unregister_step`).
pub fn unregister_client(phase: &mut ClientPhase, same_observer: bool, now: u64, limbo_millis: u64)
    ensures
        *final(phase) == unregister_step(*old(phase), same_observer, now, limbo_millis),
{
    match *phase {
        ClientPhase::Connected => {
            if same_observer {
                *phase = ClientPhase::Limbo { expiry: now.saturating_add(limbo_millis) };
            }
        },
        ClientPhase::Redirected { expiry, send_close, .. } => {
            *phase = ClientPhase::Redirected { expiry, has_observer: false, send_close };
        },
        _ => {},
    }
}

/// A client that disconnects and reconnects before its limbo expires is
/// connected again, its regulator untouched: the game never saw it leave.
pub proof fn law_reconnect_in_limbo(reg: State, now: u64, limbo_millis: u64, later: u64)
    requires
        later < unregister_step(ClientPhase::Connected, true, now, limbo_millis)->Limbo_expiry,
    ensures
        ({
            let limbo = unregister_step(ClientPhase::Connected, true, now, limbo_millis);
            let pruned = prune_step(limbo, reg, later);
            let back = register_step(pruned.0, pruned.1);
            &&& pruned.2 == PruneAction::Stay
            &&& back.0 == ClientPhase::Connected
            &&& back.1 == reg
            &&& back.2 == RegisterAction::Connect { close_previous: false, start_visit: false, tell_game: false }
        }),
{
}

/// A player of an arena as the prune sees it: its connection state (`None`
/// for a bot) and its regulator.
#[derive(Debug)]
pub struct PrunedPlayer {
    pub player_id: PlayerId,
    pub phase: Option<ClientPhase>,
    pub regulator: Regulator,
}

/// What a prune does for a player: a client by `prune_step`, a bot
/// forgotten once its regulator may be.
pub open spec fn player_step(p: (Option<ClientPhase>, State), now: u64) -> (Option<ClientPhase>, State, PruneAction) {
    match p.0 {
        Some(phase) => {
            let s = prune_step(phase, p.1, now);
            (Some(s.0), s.1, s.2)
        },
        None => (None, p.1, if p.1 is Initial {
            PruneAction::Forget
        } else {
            PruneAction::Stay
        }),
    }
}

/// The players' view: id, connection state, regulator state.
pub open spec fn pruned_view(v: Seq<PrunedPlayer>) -> Seq<(PlayerId, Option<ClientPhase>, State)> {
    v.map_values(|p: PrunedPlayer| (p.player_id, p.phase, p.regulator@))
}

/// Prunes every player of an arena at time `now` (see `prune_each`),
/// unless the caller's rate limit (a prune at most once a second) holds:
/// then nothing changes and no action is taken.
pub fn prune_players(players: &mut Vec<PrunedPlayer>, now: u64, rate_limited: bool) -> (r: Vec<(PlayerId, PruneAction)>)
    requires
        !rate_limited ==> forall|i: int|
            0 <= i < old(players)@.len() ==> player_prunable(
                (#[trigger] old(players)@[i]).phase,
                old(players)@[i].regulator@,
                now,
            ),
    ensures
        rate_limited ==> pruned_view(final(players)@) == pruned_view(old(players)@) && r@.len() == 0,
        !rate_limited ==> final(players)@.len() == old(players)@.len(),
        !rate_limited ==> forall|i: int|
            #![trigger final(players)@[i]]
            0 <= i < old(players)@.len() ==> {
                let s = player_step((old(players)@[i].phase, old(players)@[i].regulator@), now);
                &&& final(players)@[i].player_id == old(players)@[i].player_id
                &&& final(players)@[i].phase == s.0
                &&& final(players)@[i].regulator@ == s.1
            },
        !rate_limited ==> r@ == actions_of(pruned_view(old(players)@), now),
{
    if rate_limited {
        return Vec::new();
    }
    prune_each(players, now)
}

/// Prunes every player of an arena at time `now`, in order, returning the
/// action for each player that needs one (every action but `Stay`), in
/// order.
fn prune_each(players: &mut Vec<PrunedPlayer>, now: u64) -> (r: Vec<(PlayerId, PruneAction)>)
    requires
        forall|i: int|
            0 <= i < old(players)@.len() ==> player_prunable(
                (#[trigger] old(players)@[i]).phase,
                old(players)@[i].regulator@,
                now,
            ),
    ensures
        final(players)@.len() == old(players)@.len(),
        forall|i: int|
            #![trigger final(players)@[i]]
            0 <= i < old(players)@.len() ==> {
                let s = player_step((old(players)@[i].phase, old(players)@[i].regulator@), now);
                &&& final(players)@[i].player_id == old(players)@[i].player_id
                &&& final(players)@[i].phase == s.0
                &&& final(players)@[i].regulator@ == s.1
            },
        r@ == actions_of(pruned_view(old(players)@), now),
{
    let ghost orig = pruned_view(players@);
    let ghost o = players@;
    let mut rest: Vec<PrunedPlayer> = Vec::new();
    std::mem::swap(&mut rest, players);
    let mut done: Vec<PrunedPlayer> = Vec::new();
    let mut actions: Vec<(PlayerId, PruneAction)> = Vec::new();
    let ghost mut k: int = 0;
    proof {
        assert(actions@ =~= actions_of(orig.subrange(0, 0), now));
    }
    while rest.len() > 0
        invariant
            0 <= k <= o.len(),
            orig == pruned_view(o),
            rest@.len() == o.len() - k,
            done@.len() == k,
            forall|j: int| 0 <= j < rest@.len() ==> #[trigger] rest@[j] == o[k + j],
            forall|i: int|
                0 <= i < o.len() ==> player_prunable((#[trigger] o[i]).phase, o[i].regulator@, now),
            forall|i: int|
                #![trigger done@[i]]
                0 <= i < k ==> {
                    let s = player_step((o[i].phase, o[i].regulator@), now);
                    &&& done@[i].player_id == o[i].player_id
                    &&& done@[i].phase == s.0
                    &&& done@[i].regulator@ == s.1
                },
            actions@ == actions_of(orig.subrange(0, k), now),
        decreases rest@.len(),
    {
        let ghost before = rest@;
        let mut p = rest.remove(0);
        proof {
            assert(p == o[k]);
            assert forall|j: int| 0 <= j < rest@.len() implies #[trigger] rest@[j] == o[k + 1 + j] by {
                assert(rest@[j] == before[j + 1]);
            }
            assert(orig.subrange(0, k + 1).drop_last() =~= orig.subrange(0, k));
            assert(orig[k] == (o[k].player_id, o[k].phase, o[k].regulator@));
        }
        let action = match p.phase {
            Some(phase) => {
                let mut ph = phase;
                let a = prune_client(&mut ph, &mut p.regulator, now);
                p.phase = Some(ph);
                a
            },
            None => {
                if p.regulator.can_forget() {
                    PruneAction::Forget
                } else {
                    PruneAction::Stay
                }
            },
        };
        if action != PruneAction::Stay {
            actions.push((p.player_id, action));
        }
        done.push(p);
        proof {
            k = k + 1;
        }
    }
    proof {
        assert(orig.subrange(0, k) =~= orig);
    }
    *players = done;
    actions
}

/// The actions a prune of these players takes (all but `Stay`), in order.
pub open spec fn actions_of(players: Seq<(PlayerId, Option<ClientPhase>, State)>, now: u64) -> Seq<
    (PlayerId, PruneAction),
>
    decreases players.len(),
{
    if players.len() == 0 {
        Seq::empty()
    } else {
        let p = players.last();
        let a = player_step((p.1, p.2), now).2;
        if a == PruneAction::Stay {
            actions_of(players.drop_last(), now)
        } else {
            actions_of(players.drop_last(), now).push((p.0, a))
        }
    }
}

/// A client whose limbo expired while it played is forgotten, its visit
/// ended, once its regulator has finished leaving: prunes at `t0 <= t1 <=
/// t2 <= t3`, with a regulator tick after each of the first three, first
/// make it quit the game (telling the game), then wait, then forget it.
pub proof fn law_limbo_ends_in_forgetting(expiry: u64, t0: u64, t1: u64, t2: u64, t3: u64)
    requires
        expiry <= t0 <= t1 <= t2 <= t3,
    ensures
        ({
            let s0 = prune_step(ClientPhase::Limbo { expiry }, State::Joined, t0);
            let s1 = prune_step(s0.0, crate::regulator::tick_state(s0.1), t1);
            let s2 = prune_step(s1.0, crate::regulator::tick_state(s1.1), t2);
            let s3 = prune_step(s2.0, crate::regulator::tick_state(s2.1), t3);
            &&& s0.2 == PruneAction::Quit { tell_game: true }
            &&& s1.2 == PruneAction::Stay
            &&& s2.2 == PruneAction::Stay
            &&& s3.2 == PruneAction::StopVisitAndForget
        }),
{
}

/// A client is forgotten while its regulator has not finished leaving only
/// when it was still pending (never in the game); its visit is ended only
/// when the regulator has finished.
pub proof fn law_forget_only_when_left(phase: ClientPhase, reg: State, now: u64)
    requires
        !(phase is Pending),
        prune_step(phase, reg, now).2 == PruneAction::Forget || prune_step(phase, reg, now).2
            == PruneAction::StopVisitAndForget,
    ensures
        reg is Initial,
{
}

/// What a connected client's recent activity makes of it.
#[derive(Clone, Copy, Debug, PartialEq, Eq, Structural)]
pub enum ActivityAction {
    /// Nothing changes.
    Stay,
    /// A lurking client became active: it is activated.
    Activate,
    /// An active client fell quiet: it becomes a lurker.
    Lurk,
}

/// How long a client counts as active after its last message: 10 seconds
/// for an active client whose page is visible, 5 seconds otherwise.
pub open spec fn activity_window(active_hidden: Option<bool>) -> int {
    if active_hidden == Some(false) {
        10_000
    } else {
        5_000
    }
}

/// A connected client at `now`, last heard from at `last_activity`;
/// `active_hidden` is `None` for a lurker, else whether an active client's
/// page is hidden. Heard from within the window: a lurker is activated.
/// Not: an active client lurks.
pub open spec fn activity_step(now: u64, last_activity: u64, active_hidden: Option<bool>) -> ActivityAction {
    let quiet = if now >= last_activity { now - last_activity } else { 0 };
    if quiet <= activity_window(active_hidden) {
        if active_hidden is None { ActivityAction::Activate } else { ActivityAction::Stay }
    } else {
        if active_hidden is Some { ActivityAction::Lurk } else { ActivityAction::Stay }
    }
}

/// What a connected client's activity makes of it (see `activity_step`).
pub fn client_activity(now: u64, last_activity: u64, active_hidden: Option<bool>) -> (r: ActivityAction)
    ensures
        r == activity_step(now, last_activity, active_hidden),
{
    let window: u64 = match active_hidden {
        Some(false) => 10_000,
        _ => 5_000,
    };
    if now.saturating_sub(last_activity) <= window {
        match active_hidden {
            None => ActivityAction::Activate,
            Some(_) => ActivityAction::Stay,
        }
    } else {
        match active_hidden {
            Some(_) => ActivityAction::Lurk,
            None => ActivityAction::Stay,
        }
    }
}

} // verus!
