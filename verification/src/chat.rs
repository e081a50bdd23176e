//! The AI sidebar's conversation list: conversations in most-recent-first
//! order, the active one, and the per-conversation message and turn counts.
use vstd::prelude::*;

use crate::bytes::{find_first, is_first, lemma_find_first};
use crate::handoff::AiMessageBackends;
use crate::labels::{trim_bounds, trim_by, trimmed_chars};
use vstd::string::{StrSliceExecFns, StringExecFns};

verus! {

/// Who wrote a chat message.
#[derive(Clone, Copy, Debug, PartialEq, Eq, Structural)]
pub enum AiChatRole {
    User,
    Assistant,
    System,
    Tool,
}

/// The summary reference a message may carry: its `kind` and, for a
/// conversation summary, how many user submissions it stands for.
#[derive(Debug)]
pub struct AiSummaryRef {
    pub kind: Option<String>,
    pub original_user_count: Option<u64>,
}

/// Metadata of a message; a compaction anchor records what it replaced.
#[derive(Debug)]
pub struct AiChatMessageMetadata {
    pub kind: String,
    pub original_count: Option<usize>,
    pub compacted_at_ms: Option<i64>,
    pub original_messages: Option<Vec<AiChatMessage>>,
    pub original_user_count: Option<usize>,
}

/// One chat message.
#[derive(Debug)]
pub struct AiChatMessage {
    pub id: String,
    pub role: AiChatRole,
    pub content: String,
    pub timestamp_ms: i64,
    pub model: Option<String>,
    pub context: Option<String>,
    pub thinking_content: Option<String>,
    pub is_streaming: bool,
    pub tool_call_id: Option<String>,
    pub metadata: Option<AiChatMessageMetadata>,
    pub summary_ref: Option<AiSummaryRef>,
}

pub open spec fn conversation_kind() -> Seq<char> {
    seq!['c', 'o', 'n', 'v', 'e', 'r', 's', 'a', 't', 'i', 'o', 'n']
}

pub open spec fn compaction_anchor_kind() -> Seq<char> {
    seq!['c', 'o', 'm', 'p', 'a', 'c', 't', 'i', 'o', 'n', '-', 'a', 'n', 'c', 'h', 'o', 'r']
}

/// The user submissions a conversation-summary reference stands for, when
/// the message carries one that fits in `usize`.
pub open spec fn summary_turns(m: AiChatMessage) -> Option<nat> {
    match m.summary_ref {
        Some(r) => match (r.kind, r.original_user_count) {
            (Some(k), Some(c)) => if k@ == conversation_kind() && c <= usize::MAX {
                Some(c as nat)
            } else {
                None
            },
            _ => None,
        },
        None => None,
    }
}

/// The user submissions in `msgs`, counting what summaries and compaction
/// anchors stand for.
pub open spec fn spec_turn_count(msgs: Seq<AiChatMessage>) -> nat
    decreases msgs, 0nat,
{
    if msgs.len() == 0 {
        0
    } else {
        spec_turn_count(msgs.drop_last()) + spec_message_turns(msgs.last())
    }
}

/// The user submissions one message stands for.
pub open spec fn spec_message_turns(m: AiChatMessage) -> nat
    decreases m, 1nat,
{
    match summary_turns(m) {
        Some(c) => c,
        None => match m.metadata {
            Some(md) => if md.kind@ == compaction_anchor_kind() {
                match md.original_user_count {
                    Some(c) => c as nat,
                    None => match md.original_messages {
                        Some(v) => if md.original_count is None || md.original_count->0 <= v@.len() {
                            spec_turn_count(v@)
                        } else {
                            (md.original_count->0 as nat + 1) / 2
                        },
                        None => match md.original_count {
                            Some(c) => (c as nat + 1) / 2,
                            None => 0,
                        },
                    },
                }
            } else if m.role == AiChatRole::User {
                1
            } else {
                0
            },
            None => if m.role == AiChatRole::User {
                1
            } else {
                0
            },
        },
    }
}

/// A compaction anchor that recorded only how many messages it replaced
/// (no user count, and no complete snapshot of them) stands for half of
/// them, rounded up: a conversation of that anchor alone counts `t` turns
/// with `c <= 2 * t <= c + 1`.
pub proof fn lemma_anchor_counts_half_its_messages(m: AiChatMessage)
    requires
        m.summary_ref is None,
        m.metadata is Some,
        m.metadata->0.kind@ == compaction_anchor_kind(),
        m.metadata->0.original_user_count is None,
        m.metadata->0.original_count is Some,
        m.metadata->0.original_messages is None || m.metadata->0.original_count->0
            > m.metadata->0.original_messages->0@.len(),
    ensures
        ({
            let c = m.metadata->0.original_count->0 as nat;
            let t = spec_turn_count(seq![m]);
            c <= 2 * t && 2 * t <= c + 1
        }),
{
    let one = seq![m];
    assert(one.drop_last() =~= Seq::<AiChatMessage>::empty());
    assert(one.last() == m);
    assert(summary_turns(m) is None);
    let md = m.metadata->0;
    let c = md.original_count->0 as nat;
    assert(spec_message_turns(m) == (c + 1) / 2) by {
        reveal_with_fuel(spec_message_turns, 1);
    }
    assert(spec_turn_count(one) == spec_turn_count(one.drop_last()) + spec_message_turns(m));
    assert(spec_turn_count(one.drop_last()) == 0);
}

/// `n`, or `usize::MAX` when it does not fit.
pub open spec fn saturated(n: nat) -> usize {
    if n > usize::MAX {
        usize::MAX
    } else {
        n as usize
    }
}

fn is_conversation_kind(kind: &String) -> (r: bool)
    ensures
        r == (kind@ == conversation_kind()),
{
    let expected = "conversation";
    proof {
        reveal_strlit("conversation");
    }
    let expected = expected.to_owned();
    assert(expected@ =~= conversation_kind());
    *kind == expected
}

fn is_compaction_anchor_kind(kind: &String) -> (r: bool)
    ensures
        r == (kind@ == compaction_anchor_kind()),
{
    let expected = "compaction-anchor";
    proof {
        reveal_strlit("compaction-anchor");
    }
    let expected = expected.to_owned();
    assert(expected@ =~= compaction_anchor_kind());
    *kind == expected
}

/// The user submissions one message stands for, saturated at `usize::MAX`.
fn message_turn_count(m: &AiChatMessage) -> (r: usize)
    ensures
        r == saturated(spec_message_turns(*m)),
    decreases *m, 1nat,
{
    if let Some(summary) = &m.summary_ref {
        if let (Some(kind), Some(count)) = (&summary.kind, summary.original_user_count) {
            if is_conversation_kind(kind) && count <= usize::MAX as u64 {
                return count as usize;
            }
        }
    }
    let is_user = m.role == AiChatRole::User;
    match &m.metadata {
        Some(md) => {
            if !is_compaction_anchor_kind(&md.kind) {
                return if is_user { 1 } else { 0 };
            }
            if let Some(count) = md.original_user_count {
                return count;
            }
            match &md.original_messages {
                Some(snapshots) => {
                    let complete = match md.original_count {
                        None => true,
                        Some(count) => count <= snapshots.len(),
                    };
                    if complete {
                        return ai_conversation_turn_count(snapshots.as_slice());
                    }
                    let count = md.original_count.unwrap();
                    count / 2 + count % 2
                },
                None => match md.original_count {
                    Some(count) => count / 2 + count % 2,
                    None => 0,
                },
            }
        },
        None => if is_user {
            1
        } else {
            0
        },
    }
}

/// The user submissions in `messages`: a conversation summary counts for the
/// submissions it stands for, a compaction anchor for those it replaced
/// (from its recorded count, else from its complete snapshot, else half its
/// recorded message count rounded up), any other user message for one.
/// Saturates at `usize::MAX`.
pub fn ai_conversation_turn_count(messages: &[AiChatMessage]) -> (r: usize)
    ensures
        r == saturated(spec_turn_count(messages@)),
    decreases messages@, 0nat,
{
    let mut turns: usize = 0;
    let mut i: usize = 0;
    while i < messages.len()
        invariant
            i <= messages@.len(),
            turns == saturated(spec_turn_count(messages@.take(i as int))),
        decreases messages.len() - i,
    {
        assert(messages@.take(i + 1).drop_last() =~= messages@.take(i as int));
        let t = message_turn_count(&messages[i]);
        turns = turns.saturating_add(t);
        i = i + 1;
    }
    assert(messages@.take(messages@.len() as int) =~= messages@);
    turns
}

/// The session metadata of a conversation, by the keys this library reads
/// and writes: the ones a sidebar conversation starts with, and the
/// provenance recorded per message.
#[derive(Debug)]
pub struct AiSessionMetadata {
    pub conversation_id: Option<String>,
    pub origin: Option<String>,
    pub profile_id: Option<String>,
    pub message_backends: Option<AiMessageBackends>,
}

/// One conversation of the sidebar.
#[derive(Debug)]
pub struct AiConversation {
    pub id: String,
    pub title: String,
    pub messages: Vec<AiChatMessage>,
    pub created_at_ms: i64,
    pub updated_at_ms: i64,
    pub origin: String,
    pub profile_id: Option<String>,
    pub message_count: usize,
    pub turn_count: usize,
    pub session_id: Option<String>,
    pub session_metadata: Option<AiSessionMetadata>,
    pub messages_loaded: bool,
}

/// The conversations, most recent first, and the id of the active one.
#[derive(Debug)]
pub struct AiChatState {
    pub conversations: Vec<AiConversation>,
    pub active_conversation_id: Option<String>,
}

impl Default for AiChatState {
    fn default() -> (r: Self)
        ensures
            r.conversations@.len() == 0,
            r.active_conversation_id is None,
    {
        AiChatState { conversations: Vec::new(), active_conversation_id: None }
    }
}

/// Whether a conversation has the id `id`.
pub open spec fn has_id(id: Seq<char>) -> spec_fn(AiConversation) -> bool {
    |c: AiConversation| c.id@ == id
}

/// The index of the first conversation with the id `id` (the length when
/// there is none).
pub open spec fn conversation_position(cs: Seq<AiConversation>, id: Seq<char>) -> int {
    find_first(cs, has_id(id))
}

/// Finds the first conversation with the id `id`.
fn find_conversation(cs: &Vec<AiConversation>, id: &String) -> (r: usize)
    ensures
        r == conversation_position(cs@, id@),
        r <= cs@.len(),
{
    let mut i: usize = 0;
    while i < cs.len()
        invariant
            i <= cs@.len(),
            forall|k: int| 0 <= k < i ==> !has_id(id@)(#[trigger] cs@[k]),
        ensures
            i <= cs@.len(),
            forall|k: int| 0 <= k < i ==> !has_id(id@)(#[trigger] cs@[k]),
            i < cs@.len() ==> has_id(id@)(cs@[i as int]),
        decreases cs.len() - i,
    {
        if cs[i].id == *id {
            break;
        }
        i = i + 1;
    }
    proof {
        assert(is_first(cs@, has_id(id@), i as int));
        lemma_find_first(cs@, has_id(id@), i as int);
    }
    i
}

/// Whether a conversation lacks the id `id`.
pub open spec fn lacks_id(id: Seq<char>) -> spec_fn(AiConversation) -> bool {
    |c: AiConversation| c.id@ != id
}

pub open spec fn sidebar_origin() -> Seq<char> {
    seq!['s', 'i', 'd', 'e', 'b', 'a', 'r']
}

pub open spec fn default_chat_title() -> Seq<char> {
    seq!['N', 'e', 'w', ' ', 'C', 'h', 'a', 't']
}

/// The title a new conversation gets: the given one unless it is blank.
pub open spec fn new_conversation_title(title: Option<String>) -> Seq<char> {
    match title {
        Some(t) => if trim_by(t@, trimmed_chars(false)).len() > 0 {
            t@
        } else {
            default_chat_title()
        },
        None => default_chat_title(),
    }
}

/// The session metadata `create_conversation` records.
pub open spec fn is_new_session_metadata(
    md: AiSessionMetadata,
    id: Seq<char>,
    profile_id: Option<String>,
) -> bool {
    &&& md.conversation_id matches Some(cid) && cid@ == id
    &&& md.origin matches Some(o) && o@ == sidebar_origin()
    &&& md.profile_id == profile_id
    &&& md.message_backends is None
}

/// A conversation as `create_conversation` makes it.
pub open spec fn is_new_conversation(
    c: AiConversation,
    id: Seq<char>,
    title: Seq<char>,
    now_ms: i64,
    profile_id: Option<String>,
) -> bool {
    &&& c.id@ == id
    &&& c.title@ == title
    &&& c.messages@.len() == 0
    &&& c.created_at_ms == now_ms
    &&& c.updated_at_ms == now_ms
    &&& c.origin@ == sidebar_origin()
    &&& c.profile_id == profile_id
    &&& c.message_count == 0
    &&& c.turn_count == 0
    &&& c.session_id is None
    &&& c.messages_loaded
    &&& c.session_metadata is Some
    &&& is_new_session_metadata(c.session_metadata->0, id, profile_id)
}

/// `d` is `c` retitled `title` at `now_ms`.
pub open spec fn is_renamed(c: AiConversation, d: AiConversation, title: Seq<char>, now_ms: i64) -> bool {
    &&& d.title@ == title
    &&& d.updated_at_ms == now_ms
    &&& d.id == c.id
    &&& d.messages == c.messages
    &&& d.created_at_ms == c.created_at_ms
    &&& d.origin == c.origin
    &&& d.profile_id == c.profile_id
    &&& d.message_count == c.message_count
    &&& d.turn_count == c.turn_count
    &&& d.session_id == c.session_id
    &&& d.session_metadata == c.session_metadata
    &&& d.messages_loaded == c.messages_loaded
}

/// `d` is `c` with `m` appended and its counts and update time refreshed.
pub open spec fn is_extended(c: AiConversation, d: AiConversation, m: AiChatMessage) -> bool {
    &&& d.messages@ == c.messages@.push(m)
    &&& d.updated_at_ms == m.timestamp_ms
    &&& d.message_count == d.messages@.len()
    &&& d.turn_count == saturated(spec_turn_count(d.messages@))
    &&& d.id == c.id
    &&& d.title == c.title
    &&& d.created_at_ms == c.created_at_ms
    &&& d.origin == c.origin
    &&& d.profile_id == c.profile_id
    &&& d.session_id == c.session_id
    &&& d.session_metadata == c.session_metadata
    &&& d.messages_loaded == c.messages_loaded
}

fn clone_optional_text(s: &Option<String>) -> (r: Option<String>)
    ensures
        r == *s,
{
    match s {
        Some(t) => Some(t.clone()),
        None => None,
    }
}

/// Whether a message has the id `id`.
pub open spec fn message_has_id(id: Seq<char>) -> spec_fn(AiChatMessage) -> bool {
    |m: AiChatMessage| m.id@ == id
}

/// The index of the first message with the id `id` (the length when there
/// is none).
pub open spec fn message_position(ms: Seq<AiChatMessage>, id: Seq<char>) -> int {
    find_first(ms, message_has_id(id))
}

pub(crate) fn find_message(ms: &Vec<AiChatMessage>, id: &String) -> (r: usize)
    ensures
        r == message_position(ms@, id@),
        r <= ms@.len(),
{
    let mut i: usize = 0;
    while i < ms.len()
        invariant
            i <= ms@.len(),
            forall|k: int| 0 <= k < i ==> !message_has_id(id@)(#[trigger] ms@[k]),
        ensures
            i <= ms@.len(),
            forall|k: int| 0 <= k < i ==> !message_has_id(id@)(#[trigger] ms@[k]),
            i < ms@.len() ==> message_has_id(id@)(ms@[i as int]),
        decreases ms.len() - i,
    {
        if ms[i].id == *id {
            break;
        }
        i = i + 1;
    }
    proof {
        assert(is_first(ms@, message_has_id(id@), i as int));
        lemma_find_first(ms@, message_has_id(id@), i as int);
    }
    i
}

impl AiChatState {
    /// The active conversation: the first one whose id is the active id.
    pub fn active_conversation(&self) -> (r: Option<&AiConversation>)
        ensures
            match self.active_conversation_id {
                None => r is None,
                Some(a) => {
                    let i = conversation_position(self.conversations@, a@);
                    if i < self.conversations@.len() {
                        r matches Some(c) && *c == self.conversations@[i]
                    } else {
                        r is None
                    }
                },
            },
    {
        match &self.active_conversation_id {
            None => None,
            Some(active_id) => {
                let i = find_conversation(&self.conversations, active_id);
                if i < self.conversations.len() {
                    Some(&self.conversations[i])
                } else {
                    None
                }
            },
        }
    }

    /// The active conversation, for editing in place.
    pub fn active_conversation_mut(&mut self) -> (r: Option<&mut AiConversation>)
        ensures
            final(self).active_conversation_id == old(self).active_conversation_id,
            match old(self).active_conversation_id {
                None => r is None && *final(self) == *old(self),
                Some(a) => {
                    let i = conversation_position(old(self).conversations@, a@);
                    if i < old(self).conversations@.len() {
                        r matches Some(c) && *c == old(self).conversations@[i]
                            && final(self).conversations@ == old(self).conversations@.update(i, *final(c))
                    } else {
                        r is None && *final(self) == *old(self)
                    }
                },
            },
    {
        let i = match &self.active_conversation_id {
            None => return None,
            Some(active_id) => find_conversation(&self.conversations, active_id),
        };
        if i < self.conversations.len() {
            Some(&mut self.conversations[i])
        } else {
            None
        }
    }

    /// Makes `id` the active conversation when a conversation has that id.
    pub fn set_active_conversation(&mut self, id: String)
        ensures
            final(self).conversations == old(self).conversations,
            final(self).active_conversation_id == if conversation_position(
                old(self).conversations@,
                id@,
            ) < old(self).conversations@.len() {
                Some(id)
            } else {
                old(self).active_conversation_id
            },
    {
        let i = find_conversation(&self.conversations, &id);
        if i < self.conversations.len() {
            self.active_conversation_id = Some(id);
        }
    }

    /// Removes every conversation and clears the active id.
    pub fn clear_conversations(&mut self)
        ensures
            final(self).conversations@.len() == 0,
            final(self).active_conversation_id is None,
    {
        self.conversations.clear();
        self.active_conversation_id = None;
    }

    /// Removes every conversation with the id `id`; when it was the active
    /// one, the first remaining conversation (if any) becomes active.
    pub fn delete_conversation(&mut self, id: &str)
        ensures
            final(self).conversations@ == old(self).conversations@.filter(lacks_id(id@)),
            forall|k: int|
                0 <= k < final(self).conversations@.len() ==> #[trigger] final(self).conversations@[k].id@
                    != id@,
            final(self).active_conversation_id == if old(self).active_conversation_id matches Some(
                a,
            ) && a@ == id@ {
                if final(self).conversations@.len() > 0 {
                    Some(final(self).conversations@[0].id)
                } else {
                    None
                }
            } else {
                old(self).active_conversation_id
            },
    {
        let target = id.to_owned();
        let ghost orig = self.conversations@;
        let ghost f = lacks_id(id@);
        let ghost mut j: int = 0;
        let mut i: usize = 0;
        while i < self.conversations.len()
            invariant
                0 <= j <= orig.len(),
                f == lacks_id(id@),
                target@ == id@,
                self.conversations@ == orig.take(j).filter(f) + orig.skip(j),
                i == orig.take(j).filter(f).len(),
                self.active_conversation_id == old(self).active_conversation_id,
            decreases self.conversations@.len() - i,
        {
            proof {
                assert(orig.skip(j).len() == orig.len() - j);
                assert(j < orig.len());
                let t = orig.take(j + 1);
                reveal(Seq::filter);
                assert(t.drop_last() =~= orig.take(j));
                assert(t.last() == orig[j]);
                assert(t.filter(f) == if f(orig[j]) {
                    orig.take(j).filter(f).push(orig[j])
                } else {
                    orig.take(j).filter(f)
                });
                assert(orig.skip(j) =~= seq![orig[j]] + orig.skip(j + 1));
                assert(self.conversations@[i as int] == orig[j]);
                assert(f(orig[j]) == (orig[j].id@ != id@));
            }
            if self.conversations[i].id == target {
                self.conversations.remove(i);
                proof {
                    assert(self.conversations@ =~= orig.take(j + 1).filter(f) + orig.skip(j + 1));
                }
            } else {
                i = i + 1;
                proof {
                    assert(self.conversations@ =~= orig.take(j + 1).filter(f) + orig.skip(j + 1));
                }
            }
            proof {
                j = j + 1;
            }
        }
        proof {
            assert(orig.take(orig.len() as int) =~= orig);
            assert(self.conversations@ =~= orig.filter(f));
            broadcast use vstd::seq_lib::group_filter_ensures;

            assert forall|k: int| 0 <= k < self.conversations@.len() implies #[trigger] self.conversations@[k].id@ != id@ by {
                assert(f(self.conversations@[k]));
            }
        }
        let was_active = match &self.active_conversation_id {
            Some(active) => *active == target,
            None => false,
        };
        if was_active {
            self.active_conversation_id = if self.conversations.len() > 0 {
                Some(self.conversations[0].id.clone())
            } else {
                None
            };
        }
    }

    /// Retitles the first conversation with the id `id` with `title`
    /// trimmed, and records `now_ms` as its update time; a blank title
    /// changes nothing.
    pub fn rename_conversation(&mut self, id: &str, title: String, now_ms: i64)
        ensures
            final(self).active_conversation_id == old(self).active_conversation_id,
            ({
                let t = trim_by(title@, trimmed_chars(false));
                let i = conversation_position(old(self).conversations@, id@);
                if t.len() == 0 || i >= old(self).conversations@.len() {
                    final(self).conversations == old(self).conversations
                } else {
                    &&& final(self).conversations@.len() == old(self).conversations@.len()
                    &&& forall|k: int|
                        0 <= k < old(self).conversations@.len() && k != i
                            ==> #[trigger] final(self).conversations@[k] == old(self).conversations@[k]
                    &&& is_renamed(old(self).conversations@[i], final(self).conversations@[i], t, now_ms)
                }
            }),
    {
        let (a, b) = trim_bounds(title.as_str(), false);
        if a == b {
            return;
        }
        let target = id.to_owned();
        let i = find_conversation(&self.conversations, &target);
        if i < self.conversations.len() {
            let trimmed = String::from_str(title.as_str().substring_char(a, b));
            let c = &mut self.conversations[i];
            c.title = trimmed;
            c.updated_at_ms = now_ms;
        }
    }

    /// Starts a conversation with the id `id` at the top of the list and
    /// makes it active; a blank or missing title becomes "New Chat".
    pub fn create_conversation(
        &mut self,
        id: String,
        title: Option<String>,
        now_ms: i64,
        profile_id: Option<String>,
    ) -> (r: String)
        ensures
            r == id,
            final(self).active_conversation_id == Some(id),
            final(self).conversations@.len() == old(self).conversations@.len() + 1,
            final(self).conversations@.skip(1) == old(self).conversations@,
            is_new_conversation(
                final(self).conversations@[0],
                id@,
                new_conversation_title(title),
                now_ms,
                profile_id,
            ),
            conversation_position(final(self).conversations@, id@) == 0,
    {
        let title = match title {
            Some(t) => {
                let (a, b) = trim_bounds(t.as_str(), false);
                if a < b {
                    t
                } else {
                    let d = "New Chat";
                    proof {
                        reveal_strlit("New Chat");
                    }
                    let d = d.to_owned();
                    assert(d@ =~= default_chat_title());
                    d
                }
            },
            None => {
                let d = "New Chat";
                proof {
                    reveal_strlit("New Chat");
                }
                let d = d.to_owned();
                assert(d@ =~= default_chat_title());
                d
            },
        };
        let origin = "sidebar";
        proof {
            reveal_strlit("sidebar");
        }
        let origin = origin.to_owned();
        assert(origin@ =~= sidebar_origin());
        let session_metadata = Some(
            AiSessionMetadata {
                conversation_id: Some(id.clone()),
                origin: Some(origin.clone()),
                profile_id: clone_optional_text(&profile_id),
                message_backends: None,
            },
        );
        let conversation = AiConversation {
            id: id.clone(),
            title,
            messages: Vec::new(),
            created_at_ms: now_ms,
            updated_at_ms: now_ms,
            origin,
            profile_id,
            message_count: 0,
            turn_count: 0,
            session_id: None,
            session_metadata,
            messages_loaded: true,
        };
        self.conversations.insert(0, conversation);
        assert(self.conversations@.skip(1) =~= old(self).conversations@);
        self.active_conversation_id = Some(id.clone());
        proof {
            assert(is_first(self.conversations@, has_id(id@), 0));
            lemma_find_first(self.conversations@, has_id(id@), 0);
        }
        id
    }

    /// The active conversation's id, or, when none is active, that of a
    /// conversation created as `create_conversation` does.
    pub fn ensure_conversation(
        &mut self,
        id: String,
        title: Option<String>,
        now_ms: i64,
        profile_id: Option<String>,
    ) -> (r: String)
        ensures
            final(self).active_conversation_id == Some(r),
            match old(self).active_conversation_id {
                Some(a) => r == a && *final(self) == *old(self),
                None => {
                    &&& r == id
                    &&& final(self).active_conversation_id == Some(id)
                    &&& final(self).conversations@.len() == old(self).conversations@.len() + 1
                    &&& final(self).conversations@.skip(1) == old(self).conversations@
                    &&& is_new_conversation(
                        final(self).conversations@[0],
                        id@,
                        new_conversation_title(title),
                        now_ms,
                        profile_id,
                    )
                    &&& conversation_position(final(self).conversations@, id@) == 0
                },
            },
    {
        match &self.active_conversation_id {
            Some(a) => a.clone(),
            None => self.create_conversation(id, title, now_ms, profile_id),
        }
    }

    /// Appends `message` to the first conversation with the id
    /// `conversation_id`, taking its timestamp as the update time and
    /// recounting messages and turns.
    pub fn add_message(&mut self, conversation_id: &str, message: AiChatMessage)
        ensures
            final(self).active_conversation_id == old(self).active_conversation_id,
            ({
                let i = conversation_position(old(self).conversations@, conversation_id@);
                if i >= old(self).conversations@.len() {
                    final(self).conversations == old(self).conversations
                } else {
                    &&& final(self).conversations@.len() == old(self).conversations@.len()
                    &&& forall|k: int|
                        0 <= k < old(self).conversations@.len() && k != i
                            ==> #[trigger] final(self).conversations@[k] == old(self).conversations@[k]
                    &&& is_extended(old(self).conversations@[i], final(self).conversations@[i], message)
                }
            }),
    {
        let target = conversation_id.to_owned();
        let i = find_conversation(&self.conversations, &target);
        if i < self.conversations.len() {
            let c = &mut self.conversations[i];
            c.updated_at_ms = message.timestamp_ms;
            c.messages.push(message);
            c.message_count = c.messages.len();
            c.turn_count = ai_conversation_turn_count(c.messages.as_slice());
        }
    }

    /// Applies `update` to the first message with the id `message_id` of the
    /// first conversation with the id `conversation_id`; nothing else changes.
    pub fn update_message<F: FnOnce(&mut AiChatMessage)>(
        &mut self,
        conversation_id: &str,
        message_id: &str,
        update: F,
    )
        requires
            forall|m: &mut AiChatMessage| call_requires(update, (m,)),
        ensures
            final(self).active_conversation_id == old(self).active_conversation_id,
            ({
                let i = conversation_position(old(self).conversations@, conversation_id@);
                let ms = old(self).conversations@[i].messages@;
                let k = message_position(ms, message_id@);
                if i >= old(self).conversations@.len() || k >= ms.len() {
                    final(self).conversations == old(self).conversations
                } else {
                    let c = old(self).conversations@[i];
                    let d = final(self).conversations@[i];
                    &&& final(self).conversations@ == old(self).conversations@.update(i, d)
                    &&& d.messages@ == ms.update(k, d.messages@[k])
                    &&& d == (AiConversation { messages: d.messages, ..c })
                    &&& exists|m: &mut AiChatMessage|
                        *m == ms[k] && *final(m) == d.messages@[k] && call_ensures(update, (m,), ())
                }
            }),
    {
        let target = conversation_id.to_owned();
        let i = find_conversation(&self.conversations, &target);
        if i >= self.conversations.len() {
            return;
        }
        let mid = message_id.to_owned();
        let k = find_message(&self.conversations[i].messages, &mid);
        if k >= self.conversations[i].messages.len() {
            return;
        }
        update(&mut self.conversations[i].messages[k]);
    }
}



/// What submitting the chat draft does: a blank draft is ignored; with AI
/// turned off a warning is shown; otherwise the trimmed text is sent.
#[derive(Debug, PartialEq, Eq)]
pub enum AiDraftAction {
    Ignore,
    WarnDisabled,
    Send(String),
}

/// Decides what submitting `draft` does.
pub fn ai_chat_draft_action(draft: &str, ai_enabled: bool) -> (r: AiDraftAction)
    ensures
        ({
            let t = trim_by(draft@, trimmed_chars(false));
            if t.len() == 0 {
                r is Ignore
            } else if !ai_enabled {
                r is WarnDisabled
            } else {
                r matches AiDraftAction::Send(s) && s@ == t
            }
        }),
{
    let (a, b) = trim_bounds(draft, false);
    if a == b {
        return AiDraftAction::Ignore;
    }
    if !ai_enabled {
        return AiDraftAction::WarnDisabled;
    }
    AiDraftAction::Send(String::from_str(draft.substring_char(a, b)))
}

/// The error code a tool reports when its target is ambiguous.
pub open spec fn target_disambiguation_code() -> Seq<char> {
    seq!['t', 'a', 'r', 'g', 'e', 't', '_', 'd', 'i', 's', 'a', 'm', 'b', 'i', 'g', 'u', 'a', 't', 'i', 'o', 'n', '_', 'r', 'e', 'q', 'u', 'i', 'r', 'e', 'd']
}

/// The error code a tool reports when a resource is ambiguous.
pub open spec fn resource_ambiguous_code() -> Seq<char> {
    seq!['r', 'e', 's', 'o', 'u', 'r', 'c', 'e', '_', 'a', 'm', 'b', 'i', 'g', 'u', 'o', 'u', 's']
}

/// Whether a tool result asks the user to pick a target: its error code
/// says the target is ambiguous and it offers at least two candidates.
pub fn candidate_selection_needed(error_code: Option<&str>, candidate_count: usize) -> (r: bool)
    ensures
        r == (error_code matches Some(c) && (c@ == target_disambiguation_code() || c@
            == resource_ambiguous_code()) && candidate_count >= 2),
{
    let code = match error_code {
        Some(c) => c.to_owned(),
        None => return false,
    };
    let target = "target_disambiguation_required";
    let resource = "resource_ambiguous";
    proof {
        reveal_strlit("target_disambiguation_required");
        reveal_strlit("resource_ambiguous");
    }
    let target = target.to_owned();
    let resource = resource.to_owned();
    assert(target@ =~= target_disambiguation_code());
    assert(resource@ =~= resource_ambiguous_code());
    let ambiguous = code == target || code == resource;
    ambiguous && candidate_count >= 2
}

/// How a target selection ends: the chosen candidate, when the choice is
/// one of them, else cancelled.
pub fn candidate_choice(selected_index: Option<usize>, candidate_count: usize) -> (r: Option<usize>)
    ensures
        r == (if selected_index matches Some(i) && i < candidate_count {
            selected_index
        } else {
            None
        }),
{
    match selected_index {
        Some(i) => if i < candidate_count {
            Some(i)
        } else {
            None
        },
        None => None,
    }
}

} // verus!
