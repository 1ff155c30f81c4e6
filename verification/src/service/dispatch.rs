//! Decisions on what the infrastructure sends a server: where a chat message
//! goes, which snippets a server keeps, and whether a player's session takes
//! an update.
use crate::ids::{PlayerId, SceneId};
use crate::log_filter::same_text;
use crate::session::SessionData;
use vstd::prelude::*;

verus! {

/// Whom a chat message from the infrastructure is for.
#[derive(Clone, Copy, Debug, PartialEq, Eq, Structural)]
pub enum ChatRecipient {
    /// Every arena of the sender's realm.
    Broadcast,
    /// The sender's arena only.
    Arena,
    /// One player of the sender's arena.
    Player(PlayerId),
    /// The team of one player of the sender's arena (a whisper).
    TeamOf(PlayerId),
    /// Nobody.
    Nobody,
}

/// Where a chat message is delivered.
#[derive(Debug)]
pub enum ChatDelivery {
    /// Every arena of the realm, noting the message as recent chat.
    Realm,
    /// The arena of this scene, without noting it as recent chat.
    Scene(SceneId),
    /// The inboxes of these players of the sender's arena, in order.
    Players(Vec<PlayerId>),
    /// Nowhere.
    Nowhere,
}

/// Whether a delivery is the one a message for `recipient` gets, from the
/// arena of `scene_id`: `target_active` says whether the player the
/// recipient names is active there, and `team` lists that player's team
/// members, if known.
pub open spec fn chat_delivery(
    recipient: ChatRecipient,
    scene_id: SceneId,
    target_active: bool,
    team: Option<Seq<PlayerId>>,
    d: ChatDelivery,
) -> bool {
    match recipient {
        ChatRecipient::Broadcast => d is Realm,
        ChatRecipient::Arena => d == ChatDelivery::Scene(scene_id),
        ChatRecipient::Player(p) => if target_active {
            d matches ChatDelivery::Players(v) && v@ == seq![p]
        } else {
            d is Nowhere
        },
        ChatRecipient::TeamOf(_) => match team {
            Some(members) => if target_active {
                d matches ChatDelivery::Players(v) && v@ == members
            } else {
                d is Nowhere
            },
            None => d is Nowhere,
        },
        ChatRecipient::Nobody => d is Nowhere,
    }
}

/// Where a chat message for `recipient`, from the arena of `scene_id`, is
/// delivered (see `chat_delivery`), and whether it is a whisper (to a team).
pub fn route_chat(recipient: ChatRecipient, scene_id: SceneId, target_active: bool, team: Option<Vec<PlayerId>>) -> (r: (
    ChatDelivery,
    bool,
))
    ensures
        chat_delivery(
            recipient,
            scene_id,
            target_active,
            match team {
                Some(v) => Some(v@),
                None => None,
            },
            r.0,
        ),
        r.1 == (recipient is TeamOf),
{
    match recipient {
        ChatRecipient::Broadcast => (ChatDelivery::Realm, false),
        ChatRecipient::Arena => (ChatDelivery::Scene(scene_id), false),
        ChatRecipient::Player(p) => {
            if target_active {
                let mut v: Vec<PlayerId> = Vec::new();
                v.push(p);
                proof {
                    assert(v@ =~= seq![p]);
                }
                (ChatDelivery::Players(v), false)
            } else {
                (ChatDelivery::Nowhere, false)
            }
        },
        ChatRecipient::TeamOf(_) => {
            match team {
                Some(members) => if target_active {
                    (ChatDelivery::Players(members), true)
                } else {
                    (ChatDelivery::Nowhere, true)
                },
                None => (ChatDelivery::Nowhere, true),
            }
        },
        ChatRecipient::Nobody => (ChatDelivery::Nowhere, false),
    }
}

/// What a server does with a snippet from the infrastructure.
#[derive(Clone, Copy, Debug, PartialEq, Eq, Structural)]
pub enum SnippetUse {
    /// Served as `ads.txt` for its referrer.
    AdsTxt,
    /// Sent to matching clients as a script.
    Script,
    /// Becomes the terms of service.
    Terms,
    /// Becomes the privacy policy.
    Privacy,
    /// Meant for another game: skipped.
    OtherGame,
    /// A name the server does not know: skipped, with a warning.
    Unknown,
}

/// The use of a snippet named `name`, meant for game `game_id` (any game
/// when none), on a server of game `this_game`.
pub open spec fn snippet_use(name: Seq<char>, game_id: Option<u32>, this_game: u32) -> SnippetUse {
    if game_id is Some && game_id != Some(this_game) {
        SnippetUse::OtherGame
    } else if name == "ads.txt"@ {
        SnippetUse::AdsTxt
    } else if name == "snippet.js"@ {
        SnippetUse::Script
    } else if name == "terms.md"@ {
        SnippetUse::Terms
    } else if name == "privacy.md"@ {
        SnippetUse::Privacy
    } else {
        SnippetUse::Unknown
    }
}

/// The use of a snippet (see `snippet_use`).
pub fn classify_snippet(name: &str, game_id: Option<u32>, this_game: u32) -> (r: SnippetUse)
    ensures
        r == snippet_use(name@, game_id, this_game),
{
    match game_id {
        Some(g) => if g != this_game {
            return SnippetUse::OtherGame;
        },
        None => {},
    }
    if same_text(name, "ads.txt") {
        SnippetUse::AdsTxt
    } else if same_text(name, "snippet.js") {
        SnippetUse::Script
    } else if same_text(name, "terms.md") {
        SnippetUse::Terms
    } else if same_text(name, "privacy.md") {
        SnippetUse::Privacy
    } else {
        SnippetUse::Unknown
    }
}

/// Whether a set of snippets is the first to arrive, so that the clients
/// already connected get the scripts too: the server had no scripts, and
/// the set is not empty.
pub fn snippets_bootstrap(scripts_held: usize, snippets_received: usize) -> (r: bool)
    ensures
        r == (scripts_held == 0 && snippets_received > 0),
{
    scripts_held == 0 && snippets_received > 0
}

/// What the infrastructure tells of a player's session.
#[derive(Debug)]
pub struct SessionUpdate {
    pub session_token: u64,
    pub visitor_id: u64,
    pub active_heartbeat: bool,
    pub user: bool,
    pub nick_name: Option<String>,
    pub admin: bool,
    pub moderator: bool,
}

/// Applies an update to a player's session when it is about that session
/// (the session token or the visitor matches); returns whether it applied.
/// The session then takes the update's visitor and flags, and its nick name.
pub fn apply_session_update(session: &mut SessionData, update: SessionUpdate) -> (r: bool)
    ensures
        r == (old(session).session_token == Some(update.session_token) || old(session).visitor_id == Some(
            update.visitor_id,
        )),
        !r ==> *final(session) == *old(session),
        r ==> {
            &&& final(session).active_heartbeat == update.active_heartbeat
            &&& final(session).user == update.user
            &&& final(session).visitor_id == Some(update.visitor_id)
            &&& final(session).nick_name == update.nick_name
            &&& final(session).admin == update.admin
            &&& final(session).moderator == update.moderator
            &&& final(session).session_token == old(session).session_token
            &&& final(session).claims == old(session).claims
        },
{
    let matches = match session.session_token {
        Some(t) => t == update.session_token,
        None => false,
    } || match session.visitor_id {
        Some(v) => v == update.visitor_id,
        None => false,
    };
    if !matches {
        return false;
    }
    session.active_heartbeat = update.active_heartbeat;
    session.user = update.user;
    session.visitor_id = Some(update.visitor_id);
    session.nick_name = update.nick_name;
    session.admin = update.admin;
    session.moderator = update.moderator;
    true
}

} // verus!
