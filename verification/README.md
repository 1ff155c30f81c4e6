# kodiak_server

The decision-making core of the Kodiak game server, written in Verus and
proved against its contracts.

- `src/` is the verified library: team bookkeeping (`team/`), the
  join/leave regulator, a client connection's lifecycle, the decisions of a
  socket session (`socket_session`), arena topology and navigation,
  placement of connecting clients, the collection of idle realms,
  invitations, chat inboxes and the routing of chat, snippets and session
  updates from the infrastructure (`service/dispatch`), live boards and
  leaderboards, bot counts, metric bundles and their hourly history,
  per-address connection accounting and pruning, sessions and claims (daily
  counts and streaks included), the heartbeat schedule and its claims, log
  filtering and server picking. Randomness and the clock come from `rand`
  and `std` through a few small trusted wrappers; `arrayvec` holds the
  bounded lists.
- `tests/` exercises the library on concrete values.
- `app/` holds the floating-point helpers that callers pass to the library
  (the tier-to-tier scaling of navigation, the frame-rate sanitizer) and
  the loop that drives a socket session.

Not in the library, and left to the server around it: the actors, the
HTTP, WebSocket and WebTransport plumbing and everything asynchronous; the
timing of the rate limiters (the library takes their verdict as an input:
whether a frame or an address is over its limit, whether a round trip time
report is due, which addresses still have a limit running); sampling of the
floating-point metrics; the settings derive macro; sanitizing team names
(the library takes a name as it is given); the server's role in the
infrastructure; navigation by angle.
