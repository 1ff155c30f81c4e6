//! The decisions of one client's socket session: when it registers with the
//! server and unregisters, what it forwards, and how it closes. The socket
//! and the server's channel are driven by the caller, which hands each event
//! to [`SocketSession::step`] and performs the actions that come back.
use crate::ids::{ArenaId, PlayerId};
use vstd::prelude::*;

verus! {

/// What decoding made of a frame that the client sent.
#[derive(Clone, Copy, Debug, PartialEq, Eq, Structural)]
pub enum ClientFrame {
    /// Over the inbound rate limit: dropped unread.
    RateLimited,
    /// A request to move the session elsewhere; `query_parsed` says whether
    /// its query string parsed.
    Redial { query_parsed: bool },
    /// Any other request.
    Request,
    /// Bytes that did not decode.
    Undecodable,
    /// The client closed the socket.
    Close,
}

/// What happened to the session.
#[derive(Clone, Copy, Debug)]
pub enum SocketEvent {
    /// A frame arrived; `rtt` is the round trip time to report with it,
    /// where one is known and a report is due.
    Received { frame: ClientFrame, rtt: Option<u16> },
    /// Reading from the socket failed.
    ReceiveFailed,
    /// The answer to the authentication that a redial asked for: the new
    /// arena and player, or none where it failed.
    Authenticated { ids: Option<(ArenaId, PlayerId)> },
    /// The server handed over a message to send.
    ServerSend { reliable: bool },
    /// The server asked for the socket to close.
    ServerClose,
    /// The server dropped its end of the channel.
    ServerGone,
    /// Sending a message failed.
    SendFailed,
}

/// What the caller is to do.
#[derive(Clone, Copy, Debug, PartialEq, Eq, Structural)]
pub enum SocketAction {
    /// Register the session as an observer of the arena, as the player.
    Register { arena_id: ArenaId, player_id: PlayerId },
    /// Withdraw that registration.
    Unregister { arena_id: ArenaId, player_id: PlayerId },
    /// Report the player's round trip time.
    RoundTripTime { arena_id: ArenaId, player_id: PlayerId, rtt: u16 },
    /// Forward the decoded request, from the player.
    Request { arena_id: ArenaId, player_id: PlayerId },
    /// Authenticate the redial's query and answer with
    /// [`SocketEvent::Authenticated`].
    Authenticate,
    /// Send the server's message.
    Send { reliable: bool },
    /// Close the socket, as an error or not.
    Close { error: bool },
}

/// A session: whom it speaks for, whether a redial awaits its
/// authentication, and whether it has ended.
#[derive(Clone, Copy, Debug)]
pub struct SocketSession {
    pub arena_id: ArenaId,
    pub player_id: PlayerId,
    pub redialing: bool,
    pub closed: bool,
}

/// A session that has just started for the player in the arena.
pub open spec fn started(arena_id: ArenaId, player_id: PlayerId) -> SocketSession {
    SocketSession { arena_id, player_id, redialing: false, closed: false }
}

/// The report of a round trip time, where there is one to make.
pub open spec fn rtt_report(s: SocketSession, rtt: Option<u16>) -> Seq<SocketAction> {
    match rtt {
        Some(t) => seq![SocketAction::RoundTripTime { arena_id: s.arena_id, player_id: s.player_id, rtt: t }],
        None => Seq::empty(),
    }
}

/// The end of a session: its registration is withdrawn, then the socket is
/// closed, unless `close` is none (the client closed it already).
pub open spec fn ending(s: SocketSession, close: Option<bool>) -> (SocketSession, Seq<SocketAction>) {
    (
        SocketSession { arena_id: s.arena_id, player_id: s.player_id, redialing: false, closed: true },
        seq![SocketAction::Unregister { arena_id: s.arena_id, player_id: s.player_id }] + match close {
            Some(error) => seq![SocketAction::Close { error }],
            None => Seq::<SocketAction>::empty(),
        },
    )
}

/// A frame from the client, in a session that is open and not redialing.
pub open spec fn frame_step(s: SocketSession, frame: ClientFrame, rtt: Option<u16>) -> (SocketSession, Seq<SocketAction>) {
    let report = rtt_report(s, rtt);
    let here = SocketAction::Register { arena_id: s.arena_id, player_id: s.player_id };
    let leave = SocketAction::Unregister { arena_id: s.arena_id, player_id: s.player_id };
    match frame {
        ClientFrame::RateLimited => (s, report),
        ClientFrame::Undecodable => (s, report),
        ClientFrame::Request => (
            s,
            report.push(SocketAction::Request { arena_id: s.arena_id, player_id: s.player_id }),
        ),
        ClientFrame::Redial { query_parsed } => if query_parsed {
            (
                SocketSession { arena_id: s.arena_id, player_id: s.player_id, redialing: true, closed: false },
                report + seq![leave, SocketAction::Authenticate],
            )
        } else {
            (s, report + seq![leave, here])
        },
        ClientFrame::Close => (ending(s, None).0, report + ending(s, None).1),
    }
}

/// The session after an event, and the actions the event calls for. An
/// ended session does nothing more. While a redial awaits its
/// authentication the session reads nothing else, so only the answer is
/// acted on: the session registers under the new ids, or again under the
/// old ones where the authentication failed.
pub open spec fn session_step(s: SocketSession, e: SocketEvent) -> (SocketSession, Seq<SocketAction>) {
    if s.closed {
        (s, Seq::empty())
    } else if s.redialing {
        match e {
            SocketEvent::Authenticated { ids } => {
                let (a, p) = match ids {
                    Some(moved) => moved,
                    None => (s.arena_id, s.player_id),
                };
                (
                    SocketSession { arena_id: a, player_id: p, redialing: false, closed: false },
                    seq![SocketAction::Register { arena_id: a, player_id: p }],
                )
            },
            _ => (s, Seq::empty()),
        }
    } else {
        match e {
            SocketEvent::Received { frame, rtt } => frame_step(s, frame, rtt),
            SocketEvent::ReceiveFailed => ending(s, Some(true)),
            SocketEvent::Authenticated { .. } => (s, Seq::empty()),
            SocketEvent::ServerSend { reliable } => (s, seq![SocketAction::Send { reliable }]),
            SocketEvent::ServerClose => ending(s, Some(false)),
            SocketEvent::ServerGone => ending(s, Some(false)),
            SocketEvent::SendFailed => ending(s, Some(true)),
        }
    }
}

/// The session after a sequence of events, and all the actions they call
/// for, in order.
pub open spec fn run(s: SocketSession, events: Seq<SocketEvent>) -> (SocketSession, Seq<SocketAction>)
    decreases events.len(),
{
    if events.len() == 0 {
        (s, Seq::empty())
    } else {
        let (s1, t1) = session_step(s, events[0]);
        let (s2, t2) = run(s1, events.drop_first());
        (s2, t1 + t2)
    }
}

/// What the server holds of the session, as far as the actions tell: the
/// registration in force, and whether the socket was closed.
pub struct Holding {
    pub registration: Option<(ArenaId, PlayerId)>,
    pub close_sent: bool,
}

/// Whether an action makes sense in a holding: registering needs none in
/// force; withdrawing, reporting and forwarding need the very ids in force;
/// authenticating and closing need none in force; nothing follows a close.
pub open spec fn action_fits(h: Holding, a: SocketAction) -> bool {
    !h.close_sent && match a {
        SocketAction::Register { .. } => h.registration is None,
        SocketAction::Unregister { arena_id, player_id } => h.registration == Some((arena_id, player_id)),
        SocketAction::RoundTripTime { arena_id, player_id, .. } => h.registration == Some((arena_id, player_id)),
        SocketAction::Request { arena_id, player_id } => h.registration == Some((arena_id, player_id)),
        SocketAction::Authenticate => h.registration is None,
        SocketAction::Send { .. } => true,
        SocketAction::Close { .. } => h.registration is None,
    }
}

/// The holding after an action.
pub open spec fn after_action(h: Holding, a: SocketAction) -> Holding {
    match a {
        SocketAction::Register { arena_id, player_id } => Holding {
            registration: Some((arena_id, player_id)),
            close_sent: h.close_sent,
        },
        SocketAction::Unregister { .. } => Holding { registration: None, close_sent: h.close_sent },
        SocketAction::Close { .. } => Holding { registration: h.registration, close_sent: true },
        _ => h,
    }
}

/// The holding after a sequence of actions, or none if one of them does not
/// fit the holding it meets.
pub open spec fn replay(h: Holding, t: Seq<SocketAction>) -> Option<Holding>
    decreases t.len(),
{
    if t.len() == 0 {
        Some(h)
    } else if action_fits(h, t[0]) {
        replay(after_action(h, t[0]), t.drop_first())
    } else {
        None
    }
}

/// The registration that a session keeps in force: its ids while it is open
/// and not redialing.
pub open spec fn registration_of(s: SocketSession) -> Option<(ArenaId, PlayerId)> {
    if !s.closed && !s.redialing {
        Some((s.arena_id, s.player_id))
    } else {
        None
    }
}

/// The holding that matches a session.
pub open spec fn matches_session(h: Holding, s: SocketSession) -> bool {
    h.registration == registration_of(s) && (h.close_sent ==> s.closed)
}

impl SocketSession {
    /// Starts a session for the player in the arena: it registers.
    pub fn start(arena_id: ArenaId, player_id: PlayerId) -> (r: (SocketSession, SocketAction))
        ensures
            r.0 == started(arena_id, player_id),
            r.1 == (SocketAction::Register { arena_id, player_id }),
    {
        (
            SocketSession { arena_id, player_id, redialing: false, closed: false },
            SocketAction::Register { arena_id, player_id },
        )
    }

    /// Ends the session: withdraws its registration, then closes the socket
    /// unless `close` is none.
    fn end(&mut self, close: Option<bool>) -> (r: Vec<SocketAction>)
        ensures
            (*final(self), r@) == ending(*old(self), close),
    {
        let mut r: Vec<SocketAction> = Vec::new();
        r.push(SocketAction::Unregister { arena_id: self.arena_id, player_id: self.player_id });
        match close {
            Some(error) => r.push(SocketAction::Close { error }),
            None => {},
        }
        self.redialing = false;
        self.closed = true;
        proof {
            assert(r@ =~= ending(*old(self), close).1);
        }
        r
    }

    /// Acts on a frame from the client, in an open session that is not
    /// redialing.
    fn on_frame(&mut self, frame: ClientFrame, rtt: Option<u16>) -> (r: Vec<SocketAction>)
        requires
            !old(self).closed,
            !old(self).redialing,
        ensures
            (*final(self), r@) == frame_step(*old(self), frame, rtt),
    {
        let mut r: Vec<SocketAction> = Vec::new();
        match rtt {
            Some(t) => r.push(
                SocketAction::RoundTripTime { arena_id: self.arena_id, player_id: self.player_id, rtt: t },
            ),
            None => {},
        }
        let ghost report = r@;
        assert(report =~= rtt_report(*old(self), rtt));
        match frame {
            ClientFrame::RateLimited => {},
            ClientFrame::Undecodable => {},
            ClientFrame::Request => {
                r.push(SocketAction::Request { arena_id: self.arena_id, player_id: self.player_id });
            },
            ClientFrame::Redial { query_parsed } => {
                r.push(SocketAction::Unregister { arena_id: self.arena_id, player_id: self.player_id });
                if query_parsed {
                    r.push(SocketAction::Authenticate);
                    self.redialing = true;
                } else {
                    r.push(SocketAction::Register { arena_id: self.arena_id, player_id: self.player_id });
                }
                proof {
                    assert(r@ =~= frame_step(*old(self), frame, rtt).1);
                }
            },
            ClientFrame::Close => {
                let mut rest = self.end(None);
                r.append(&mut rest);
                proof {
                    assert(r@ =~= frame_step(*old(self), frame, rtt).1);
                }
            },
        }
        r
    }

    /// Acts on an event: returns what to do, in order. An ended session
    /// returns nothing.
    pub fn step(&mut self, event: SocketEvent) -> (r: Vec<SocketAction>)
        ensures
            (*final(self), r@) == session_step(*old(self), event),
    {
        if self.closed {
            return Vec::new();
        }
        if self.redialing {
            return match event {
                SocketEvent::Authenticated { ids } => {
                    match ids {
                        Some(moved) => {
                            self.arena_id = moved.0;
                            self.player_id = moved.1;
                        },
                        None => {},
                    }
                    self.redialing = false;
                    let mut r: Vec<SocketAction> = Vec::new();
                    r.push(SocketAction::Register { arena_id: self.arena_id, player_id: self.player_id });
                    proof {
                        assert(r@ =~= session_step(*old(self), event).1);
                    }
                    r
                },
                _ => Vec::new(),
            };
        }
        match event {
            SocketEvent::Received { frame, rtt } => self.on_frame(frame, rtt),
            SocketEvent::ReceiveFailed => self.end(Some(true)),
            SocketEvent::Authenticated { .. } => Vec::new(),
            SocketEvent::ServerSend { reliable } => {
                let mut r: Vec<SocketAction> = Vec::new();
                r.push(SocketAction::Send { reliable });
                proof {
                    assert(r@ =~= session_step(*old(self), event).1);
                }
                r
            },
            SocketEvent::ServerClose => self.end(Some(false)),
            SocketEvent::ServerGone => self.end(Some(false)),
            SocketEvent::SendFailed => self.end(Some(true)),
        }
    }
}

/// Replaying two sequences in turn is replaying their concatenation.
proof fn lemma_replay_concat(h: Holding, t1: Seq<SocketAction>, t2: Seq<SocketAction>)
    ensures
        replay(h, t1 + t2) == (match replay(h, t1) {
            Some(h1) => replay(h1, t2),
            None => None,
        }),
    decreases t1.len(),
{
    if t1.len() > 0 {
        assert((t1 + t2).drop_first() =~= t1.drop_first() + t2);
        assert((t1 + t2)[0] == t1[0]);
        if action_fits(h, t1[0]) {
            lemma_replay_concat(after_action(h, t1[0]), t1.drop_first(), t2);
        }
    } else {
        assert(t1 + t2 =~= t2);
    }
}

/// One step keeps the holding in line with the session.
proof fn lemma_step_fits(h: Holding, s: SocketSession, e: SocketEvent)
    requires
        matches_session(h, s),
    ensures
        replay(h, session_step(s, e).1) matches Some(h2) && matches_session(h2, session_step(s, e).0),
{
    reveal_with_fuel(replay, 5);
    let t = session_step(s, e).1;
    if !s.closed && !s.redialing {
        match e {
            SocketEvent::Received { frame, rtt } => {
                let report = rtt_report(s, rtt);
                assert(replay(h, report) == Some(h));
                let rest = frame_step(s, frame, rtt).1;
                match frame {
                    ClientFrame::Request => {
                        lemma_replay_concat(h, report, seq![SocketAction::Request { arena_id: s.arena_id, player_id: s.player_id }]);
                        assert(rest =~= report + seq![SocketAction::Request { arena_id: s.arena_id, player_id: s.player_id }]);
                    },
                    ClientFrame::Redial { query_parsed } => {
                        let leave = SocketAction::Unregister { arena_id: s.arena_id, player_id: s.player_id };
                        if query_parsed {
                            lemma_replay_concat(h, report, seq![leave, SocketAction::Authenticate]);
                        } else {
                            lemma_replay_concat(h, report, seq![leave, SocketAction::Register { arena_id: s.arena_id, player_id: s.player_id }]);
                        }
                    },
                    ClientFrame::Close => {
                        lemma_replay_concat(h, report, ending(s, None).1);
                    },
                    _ => {},
                }
            },
            _ => {},
        }
    }
}

/// Every sequence of events that a session meets, from its start, gives
/// actions in an order that makes sense to the server: the session registers
/// first; registrations and withdrawals alternate, each withdrawal naming the
/// ids then in force; requests and reports name those ids too; a redial
/// authenticates only while nothing is registered; the socket is closed at
/// most once, after the registration is withdrawn, and nothing follows. What
/// the server then holds is the session's registration: none once it ended.
pub proof fn law_session_actions_in_order(arena_id: ArenaId, player_id: PlayerId, events: Seq<SocketEvent>)
    ensures
        replay(
            Holding { registration: None, close_sent: false },
            seq![SocketAction::Register { arena_id, player_id }] + run(started(arena_id, player_id), events).1,
        ) matches Some(h) && h.registration == registration_of(run(started(arena_id, player_id), events).0),
{
    let h0 = Holding { registration: None, close_sent: false };
    let first = seq![SocketAction::Register { arena_id, player_id }];
    reveal_with_fuel(replay, 2);
    lemma_replay_concat(h0, first, run(started(arena_id, player_id), events).1);
    lemma_run_fits(
        Holding { registration: Some((arena_id, player_id)), close_sent: false },
        started(arena_id, player_id),
        events,
    );
}

/// A run of events keeps the holding in line with the session.
proof fn lemma_run_fits(h: Holding, s: SocketSession, events: Seq<SocketEvent>)
    requires
        matches_session(h, s),
    ensures
        replay(h, run(s, events).1) matches Some(h2) && matches_session(h2, run(s, events).0),
    decreases events.len(),
{
    if events.len() > 0 {
        let (s1, t1) = session_step(s, events[0]);
        lemma_step_fits(h, s, events[0]);
        let h1 = replay(h, t1)->0;
        lemma_run_fits(h1, s1, events.drop_first());
        lemma_replay_concat(h, t1, run(s1, events.drop_first()).1);
    }
}

/// Once a session has ended, no event makes it do anything more.
pub proof fn law_ended_session_is_silent(s: SocketSession, events: Seq<SocketEvent>)
    requires
        s.closed,
    ensures
        run(s, events) == (s, Seq::<SocketAction>::empty()),
    decreases events.len(),
{
    if events.len() > 0 {
        law_ended_session_is_silent(s, events.drop_first());
        assert(Seq::<SocketAction>::empty() + Seq::<SocketAction>::empty() =~= Seq::<SocketAction>::empty());
    }
}

} // verus!
