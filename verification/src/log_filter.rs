//! Which log messages are shown: one verbosity per part of the server,
//! chosen by the message's target.
use vstd::prelude::*;

verus! {

/// How much of a part's logging is shown.
#[derive(Copy, Clone, Debug, PartialEq, Eq, Structural)]
pub enum LevelFilter {
    Off,
    Error,
    Warn,
    Info,
    Debug,
    Trace,
}

/// The importance of a message.
#[derive(Copy, Clone, Debug, PartialEq, Eq, Structural)]
pub enum Level {
    Error,
    Warn,
    Info,
    Debug,
    Trace,
}

/// The order of filters, from showing nothing to showing everything.
pub open spec fn filter_rank(f: LevelFilter) -> int {
    match f {
        LevelFilter::Off => 0,
        LevelFilter::Error => 1,
        LevelFilter::Warn => 2,
        LevelFilter::Info => 3,
        LevelFilter::Debug => 4,
        LevelFilter::Trace => 5,
    }
}

/// The order of levels, from most to least important.
pub open spec fn level_rank(l: Level) -> int {
    match l {
        Level::Error => 1,
        Level::Warn => 2,
        Level::Info => 3,
        Level::Debug => 4,
        Level::Trace => 5,
    }
}

fn filter_pos(f: LevelFilter) -> (r: u8)
    ensures
        r == filter_rank(f),
{
    match f {
        LevelFilter::Off => 0,
        LevelFilter::Error => 1,
        LevelFilter::Warn => 2,
        LevelFilter::Info => 3,
        LevelFilter::Debug => 4,
        LevelFilter::Trace => 5,
    }
}

fn level_pos(l: Level) -> (r: u8)
    ensures
        r == level_rank(l),
{
    match l {
        Level::Error => 1,
        Level::Warn => 2,
        Level::Info => 3,
        Level::Debug => 4,
        Level::Trace => 5,
    }
}

/// The verbosity of each part of the server.
#[derive(Copy, Clone, Debug)]
pub struct Logger {
    pub game: LevelFilter,
    pub engine: LevelFilter,
    pub plasma: LevelFilter,
    pub http: LevelFilter,
}

/// The filter for messages of `target`: HTTP handling, the database
/// connection and web sockets, the game, or else the engine.
pub open spec fn target_filter(l: Logger, target: Seq<char>) -> LevelFilter {
    if "kodiak_server::entry_point"@.is_prefix_of(target) || "kodiak_server::router"@.is_prefix_of(target) {
        l.http
    } else if "kodiak_server::plasma"@.is_prefix_of(target) || "kodiak_server::net::web_socket"@.is_prefix_of(
        target,
    ) {
        l.plasma
    } else if "server"@.is_prefix_of(target) || "common"@.is_prefix_of(target) {
        l.game
    } else {
        l.engine
    }
}

/// Whether `s` begins with `prefix`.
fn starts_with(s: &str, prefix: &str) -> (r: bool)
    ensures
        r == prefix@.is_prefix_of(s@),
{
    let n = prefix.unicode_len();
    if n > s.unicode_len() {
        return false;
    }
    let mut i: usize = 0;
    while i < n
        invariant
            n == prefix@.len(),
            n <= s@.len(),
            i <= n,
            forall|j: int| 0 <= j < i ==> prefix@[j] == s@[j],
        decreases n - i,
    {
        if prefix.get_char(i) != s.get_char(i) {
            return false;
        }
        i = i + 1;
    }
    proof {
        assert(prefix@ =~= s@.subrange(0, n as int));
    }
    true
}

/// Whether two texts are equal.
pub(crate) fn same_text(a: &str, b: &str) -> (r: bool)
    ensures
        r == (a@ == b@),
{
    let n = a.unicode_len();
    if n != b.unicode_len() {
        return false;
    }
    let r = starts_with(a, b);
    proof {
        if r {
            assert(a@ =~= b@);
        }
    }
    r
}

impl Logger {
    /// The filter for messages of `target` (see `target_filter`).
    pub fn filter(&self, target: &str) -> (r: LevelFilter)
        ensures
            r == target_filter(*self, target@),
    {
        if starts_with(target, "kodiak_server::entry_point") || starts_with(target, "kodiak_server::router") {
            self.http
        } else if starts_with(target, "kodiak_server::plasma") || starts_with(target, "kodiak_server::net::web_socket") {
            self.plasma
        } else if starts_with(target, "server") || starts_with(target, "common") {
            self.game
        } else {
            self.engine
        }
    }

    /// Whether a message of `target` and `level` is shown: never the TLS
    /// handshake complaints, else when the target's filter lets the level
    /// through.
    pub fn enabled(&self, target: &str, level: Level) -> (r: bool)
        ensures
            r == (target@ != "rustls::msgs::handshake"@ && level_rank(level) <= filter_rank(
                target_filter(*self, target@),
            )),
    {
        if same_text(target, "rustls::msgs::handshake") {
            false
        } else {
            level_pos(level) <= filter_pos(self.filter(target))
        }
    }

    /// The most verbose of the four filters.
    pub fn max_level(&self) -> (r: LevelFilter)
        ensures
            r == self.game || r == self.engine || r == self.plasma || r == self.http,
            filter_rank(r) >= filter_rank(self.game),
            filter_rank(r) >= filter_rank(self.engine),
            filter_rank(r) >= filter_rank(self.plasma),
            filter_rank(r) >= filter_rank(self.http),
    {
        let mut m = self.game;
        if filter_pos(self.engine) > filter_pos(m) {
            m = self.engine;
        }
        if filter_pos(self.plasma) > filter_pos(m) {
            m = self.plasma;
        }
        if filter_pos(self.http) > filter_pos(m) {
            m = self.http;
        }
        m
    }
}

} // verus!
