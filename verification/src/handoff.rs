//! Where a handoff of a conversation to an external agent starts: the
//! message a handoff was last cut at, and which backend wrote a message.
use vstd::prelude::*;

use crate::bytes::{
    find_first, is_first, lemma_find_first, lemma_find_first_is_first, lemma_find_first_push,
};
use crate::chat::{message_position, AiChatMessage, AiConversation};

verus! {

/// The kind of backend that produced a message.
#[derive(Clone, Copy, Debug, PartialEq, Eq, Structural)]
pub enum AiMessageBackendKind {
    Provider,
    Acp,
}

/// Which backend and model produced a message.
#[derive(Clone, Debug, PartialEq, Eq)]
pub struct AiMessageBackendProvenance {
    pub kind: AiMessageBackendKind,
    pub backend_id: String,
    pub model: String,
}

/// The message a handoff was last cut at, with its timestamp for when the
/// message itself is gone.
#[derive(Debug)]
pub struct AcpConversationHandoffCursor {
    pub message_id: String,
    pub timestamp_ms: i64,
}

/// A cursor at the first message of `conversation` with the id
/// `message_id`, if there is one.
pub fn acp_conversation_handoff_cursor(conversation: &AiConversation, message_id: &str) -> (r:
    Option<AcpConversationHandoffCursor>)
    ensures
        ({
            let ms = conversation.messages@;
            let k = message_position(ms, message_id@);
            if k < ms.len() {
                r matches Some(c) && c.message_id == ms[k].id && c.timestamp_ms == ms[k].timestamp_ms
            } else {
                r is None
            }
        }),
{
    let target = message_id.to_owned();
    let k = crate::chat::find_message(&conversation.messages, &target);
    if k < conversation.messages.len() {
        let m = &conversation.messages[k];
        Some(AcpConversationHandoffCursor { message_id: m.id.clone(), timestamp_ms: m.timestamp_ms })
    } else {
        None
    }
}

/// A copy of `p`.
fn copy_provenance(p: &AiMessageBackendProvenance) -> (r: AiMessageBackendProvenance)
    ensures
        r == *p,
{
    AiMessageBackendProvenance {
        kind: p.kind,
        backend_id: p.backend_id.clone(),
        model: p.model.clone(),
    }
}

/// The `messageBackends` part of a conversation's session metadata: the
/// provenance recorded per message id, each id at most once.
#[derive(Debug)]
pub struct AiMessageBackends {
    entries: Vec<(String, AiMessageBackendProvenance)>,
}

/// Whether an entry is recorded for the id `id`.
pub open spec fn entry_has_id(id: Seq<char>) -> spec_fn((String, AiMessageBackendProvenance)) -> bool {
    |e: (String, AiMessageBackendProvenance)| e.0@ == id
}

/// The provenance the first entry for `id` carries.
pub open spec fn lookup_in(s: Seq<(String, AiMessageBackendProvenance)>, id: Seq<char>) -> Option<
    AiMessageBackendProvenance,
> {
    let k = find_first(s, entry_has_id(id));
    if k < s.len() {
        Some(s[k].1)
    } else {
        None
    }
}

proof fn lemma_lookup_push(
    s: Seq<(String, AiMessageBackendProvenance)>,
    e: (String, AiMessageBackendProvenance),
    id: Seq<char>,
)
    ensures
        lookup_in(s.push(e), id) == if lookup_in(s, id) is Some {
            lookup_in(s, id)
        } else if e.0@ == id {
            Some(e.1)
        } else {
            None
        },
{
    lemma_find_first_push(s, e, entry_has_id(id));
    lemma_find_first_is_first(s, entry_has_id(id));
    let k = find_first(s, entry_has_id(id));
    if k < s.len() {
        assert(s.push(e)[k] == s[k]);
    }
}

/// Whether some message has the id `id`.
pub open spec fn is_message_id(ms: Seq<AiChatMessage>, id: Seq<char>) -> bool {
    message_position(ms, id) < ms.len()
}

impl AiMessageBackends {
    #[verifier::type_invariant]
    spec fn ids_unique(self) -> bool {
        forall|i: int, j: int|
            0 <= i < j < self.entries@.len() ==> #[trigger] self.entries@[i].0@
                != #[trigger] self.entries@[j].0@
    }

    /// The recorded entries, in order.
    pub closed spec fn entries(self) -> Seq<(String, AiMessageBackendProvenance)> {
        self.entries@
    }

    /// How many ids have a recorded provenance.
    pub closed spec fn size(self) -> nat {
        self.entries@.len()
    }

    /// The provenance recorded for `id`.
    pub closed spec fn lookup(self, id: Seq<char>) -> Option<AiMessageBackendProvenance> {
        lookup_in(self.entries@, id)
    }

    /// No recorded provenance.
    pub fn new() -> (r: Self)
        ensures
            r.size() == 0,
            forall|id: Seq<char>| #[trigger] r.lookup(id) is None,
    {
        AiMessageBackends { entries: Vec::new() }
    }

    /// How many ids have a recorded provenance.
    pub fn len(&self) -> (r: usize)
        ensures
            r == self.size(),
    {
        self.entries.len()
    }

    fn position(&self, id: &String) -> (r: usize)
        ensures
            r == find_first(self.entries@, entry_has_id(id@)),
            r <= self.entries@.len(),
    {
        let mut i: usize = 0;
        while i < self.entries.len()
            invariant
                i <= self.entries@.len(),
                forall|k: int| 0 <= k < i ==> !entry_has_id(id@)(#[trigger] self.entries@[k]),
            ensures
                i <= self.entries@.len(),
                forall|k: int| 0 <= k < i ==> !entry_has_id(id@)(#[trigger] self.entries@[k]),
                i < self.entries@.len() ==> entry_has_id(id@)(self.entries@[i as int]),
            decreases self.entries.len() - i,
        {
            if self.entries[i].0 == *id {
                break;
            }
            i = i + 1;
        }
        proof {
            assert(is_first(self.entries@, entry_has_id(id@), i as int));
            lemma_find_first(self.entries@, entry_has_id(id@), i as int);
        }
        i
    }

    /// The provenance recorded for `id`.
    pub fn get(&self, id: &str) -> (r: Option<AiMessageBackendProvenance>)
        ensures
            r == self.lookup(id@),
    {
        let target = id.to_owned();
        let k = self.position(&target);
        if k < self.entries.len() {
            Some(copy_provenance(&self.entries[k].1))
        } else {
            None
        }
    }

    /// Records `provenance` for `id`, replacing what was recorded for it.
    pub fn insert(&mut self, id: String, provenance: AiMessageBackendProvenance)
        ensures
            final(self).lookup(id@) == Some(provenance),
            forall|other: Seq<char>| other != id@ ==> #[trigger] final(self).lookup(other) == old(
                self,
            ).lookup(other),
            final(self).size() == old(self).size() + if old(self).lookup(id@) is Some {
                0nat
            } else {
                1nat
            },
    {
        proof {
            use_type_invariant(&*self);
        }
        let k = self.position(&id);
        let ghost es = self.entries@;
        if k < self.entries.len() {
            let ghost key = self.entries@[k as int].0;
            let mut entries = Vec::new();
            core::mem::swap(&mut entries, &mut self.entries);
            entries.set(k, (id, provenance));
            proof {
                let ns = entries@;
                lemma_find_first_is_first(es, entry_has_id(id@));
                assert(es[k as int].0@ == id@);
                assert forall|q: int| 0 <= q < ns.len() implies #[trigger] ns[q].0@ == es[q].0@ by {
                    if q == k {
                        assert(ns[q].0@ == id@);
                    }
                }
                assert forall|i: int, j: int| 0 <= i < j < ns.len() implies #[trigger] ns[i].0@
                    != #[trigger] ns[j].0@ by {
                    assert(ns[i].0@ == es[i].0@);
                    assert(ns[j].0@ == es[j].0@);
                    assert(es[i].0@ != es[j].0@);
                }
                assert(is_first(ns, entry_has_id(id@), k as int));
                lemma_find_first(ns, entry_has_id(id@), k as int);
                assert forall|other: Seq<char>| other != id@ implies (AiMessageBackends {
                    entries,
                }).lookup(other) == old(self).lookup(other) by {
                    let f = entry_has_id(other);
                    lemma_find_first_is_first(es, f);
                    let p = find_first(es, f);
                    assert forall|q: int| 0 <= q < p implies !f(#[trigger] ns[q]) by {
                        assert(!f(es[q]));
                    }
                    if p < es.len() {
                        assert(p != k);
                        assert(ns[p] == es[p]);
                    }
                    assert(is_first(ns, f, p));
                    lemma_find_first(ns, f, p);
                }
            }
            self.entries = entries;
        } else {
            let ghost key = id@;
            proof {
                lemma_find_first_is_first(es, entry_has_id(id@));
            }
            let mut entries = Vec::new();
            core::mem::swap(&mut entries, &mut self.entries);
            entries.push((id, provenance));
            proof {
                let ns = entries@;
                assert forall|i: int, j: int| 0 <= i < j < ns.len() implies #[trigger] ns[i].0@
                    != #[trigger] ns[j].0@ by {
                    if j == es.len() {
                        assert(!entry_has_id(key)(es[i]));
                    } else {
                        assert(es[i].0@ != es[j].0@);
                    }
                }
                assert(is_first(ns, entry_has_id(key), es.len() as int));
                lemma_find_first(ns, entry_has_id(key), es.len() as int);
                assert forall|other: Seq<char>| other != key implies (AiMessageBackends {
                    entries,
                }).lookup(other) == old(self).lookup(other) by {
                    let f = entry_has_id(other);
                    lemma_find_first_is_first(es, f);
                    let p = find_first(es, f);
                    assert forall|q: int| 0 <= q < p implies !f(#[trigger] ns[q]) by {
                        assert(ns[q] == es[q]);
                    }
                    if p < es.len() {
                        assert(ns[p] == es[p]);
                        assert(is_first(ns, f, p));
                        lemma_find_first(ns, f, p);
                    } else {
                        assert(!f(ns[p]));
                        assert(is_first(ns, f, p + 1));
                        lemma_find_first(ns, f, p + 1);
                    }
                }
            }
            self.entries = entries;
        }
    }

    /// Drops the entries whose id no message in `messages` has.
    pub fn retain_message_ids(&mut self, messages: &Vec<AiChatMessage>)
        ensures
            forall|id: Seq<char>|
                #[trigger] final(self).lookup(id) == if is_message_id(messages@, id) {
                    old(self).lookup(id)
                } else {
                    None
                },
            final(self).size() <= old(self).size(),
    {
        proof {
            use_type_invariant(&*self);
        }
        let ghost es = self.entries@;
        let ghost ms = messages@;
        let mut kept: Vec<(String, AiMessageBackendProvenance)> = Vec::new();
        let mut i: usize = 0;
        while i < self.entries.len()
            invariant
                self.entries@ == es,
                messages@ == ms,
                i <= es.len(),
                kept@.len() <= i,
                forall|a: int, b: int|
                    0 <= a < b < es.len() ==> #[trigger] es[a].0@ != #[trigger] es[b].0@,
                forall|a: int, b: int|
                    0 <= a < b < kept@.len() ==> #[trigger] kept@[a].0@ != #[trigger] kept@[b].0@,
                forall|a: int|
                    0 <= a < kept@.len() ==> lookup_in(es.take(i as int), #[trigger] kept@[a].0@)
                        is Some,
                forall|id: Seq<char>|
                    #[trigger] lookup_in(kept@, id) == if is_message_id(ms, id) {
                        lookup_in(es.take(i as int), id)
                    } else {
                        None
                    },
            decreases es.len() - i,
        {
            let ghost before = kept@;
            let ghost e = es[i as int];
            proof {
                assert(es.take(i + 1) =~= es.take(i as int).push(e));
                assert forall|id: Seq<char>| #[trigger] lookup_in(es.take(i + 1), id) == if lookup_in(
                    es.take(i as int),
                    id,
                ) is Some {
                    lookup_in(es.take(i as int), id)
                } else if e.0@ == id {
                    Some(e.1)
                } else {
                    None
                } by {
                    lemma_lookup_push(es.take(i as int), e, id);
                }
                // The id of `e` occurs nowhere before it.
                let f = entry_has_id(e.0@);
                lemma_find_first_is_first(es.take(i as int), f);
                if find_first(es.take(i as int), f) < i {
                    let q = find_first(es.take(i as int), f);
                    assert(es.take(i as int)[q] == es[q]);
                    assert(es[q].0@ != es[i as int].0@);
                }
                assert(lookup_in(es.take(i as int), e.0@) is None);
            }
            let key = self.entries[i].0.clone();
            let found = crate::chat::find_message(messages, &key);
            if found < messages.len() {
                let copy = (key, copy_provenance(&self.entries[i].1));
                kept.push(copy);
                proof {
                    assert(copy == e);
                    assert forall|id: Seq<char>| #[trigger] lookup_in(kept@, id) == if is_message_id(
                        ms,
                        id,
                    ) {
                        lookup_in(es.take(i + 1), id)
                    } else {
                        None
                    } by {
                        lemma_lookup_push(before, e, id);
                        if !is_message_id(ms, id) {
                            assert(id != e.0@);
                        }
                    }
                    assert forall|a: int, b: int|
                        0 <= a < b < kept@.len() implies #[trigger] kept@[a].0@ != #[trigger] kept@[b].0@ by {
                        if b == before.len() {
                            assert(lookup_in(es.take(i as int), before[a].0@) is Some);
                            assert(kept@[a] == before[a]);
                        } else {
                            assert(kept@[a] == before[a]);
                            assert(kept@[b] == before[b]);
                        }
                    }
                    assert forall|a: int| 0 <= a < kept@.len() implies lookup_in(
                        es.take(i + 1),
                        #[trigger] kept@[a].0@,
                    ) is Some by {
                        if a < before.len() {
                            assert(kept@[a] == before[a]);
                        }
                    }
                }
            } else {
                proof {
                    assert forall|id: Seq<char>| #[trigger] lookup_in(kept@, id) == if is_message_id(
                        ms,
                        id,
                    ) {
                        lookup_in(es.take(i + 1), id)
                    } else {
                        None
                    } by {
                        if is_message_id(ms, id) {
                            assert(id != e.0@);
                        }
                    }
                }
            }
            i = i + 1;
        }
        proof {
            assert(es.take(es.len() as int) =~= es);
        }
        self.entries = kept;
    }
}

/// The provenance recorded in `c`'s session metadata for message `id`.
pub open spec fn spec_backend_provenance(c: AiConversation, id: Seq<char>) -> Option<
    AiMessageBackendProvenance,
> {
    match c.session_metadata {
        Some(md) => match md.message_backends {
            Some(b) => b.lookup(id),
            None => None,
        },
        None => None,
    }
}

/// How many ids have a recorded provenance in `c`'s session metadata.
pub open spec fn recorded_backends(c: AiConversation) -> nat {
    match c.session_metadata {
        Some(md) => match md.message_backends {
            Some(b) => b.size(),
            None => 0,
        },
        None => 0,
    }
}

/// The number of distinct ids among `ms`.
pub open spec fn distinct_message_ids(ms: Seq<AiChatMessage>) -> nat
    decreases ms.len(),
{
    if ms.len() == 0 {
        0
    } else {
        distinct_message_ids(ms.drop_last()) + if is_message_id(ms.drop_last(), ms.last().id@) {
            0nat
        } else {
            1nat
        }
    }
}

/// The provenance recorded for message `message_id` of `conversation`.
pub fn ai_message_backend_provenance(conversation: &AiConversation, message_id: &str) -> (r: Option<
    AiMessageBackendProvenance,
>)
    ensures
        r == spec_backend_provenance(*conversation, message_id@),
{
    match &conversation.session_metadata {
        Some(md) => match &md.message_backends {
            Some(b) => b.get(message_id),
            None => None,
        },
        None => None,
    }
}

proof fn lemma_position_in_prefix(ms: Seq<AiChatMessage>, i: int, id: Seq<char>)
    requires
        0 <= i <= ms.len(),
    ensures
        is_message_id(ms.take(i), id) <==> message_position(ms, id) < i,
{
    let f = crate::chat::message_has_id(id);
    lemma_find_first_is_first(ms, f);
    lemma_find_first_is_first(ms.take(i), f);
    let p = find_first(ms, f);
    let q = find_first(ms.take(i), f);
    if p < i {
        assert(ms.take(i)[p] == ms[p]);
        if q < p {
            assert(ms.take(i)[q] == ms[q]);
        }
    }
    if q < i {
        assert(ms.take(i)[q] == ms[q]);
    }
}

fn distinct_id_count(ms: &Vec<AiChatMessage>) -> (r: usize)
    ensures
        r == distinct_message_ids(ms@),
{
    let mut count: usize = 0;
    let mut i: usize = 0;
    while i < ms.len()
        invariant
            i <= ms@.len(),
            count <= i,
            count == distinct_message_ids(ms@.take(i as int)),
        decreases ms.len() - i,
    {
        let p = crate::chat::find_message(ms, &ms[i].id);
        proof {
            let t = ms@.take(i + 1);
            assert(t.drop_last() =~= ms@.take(i as int));
            assert(t.last() == ms@[i as int]);
            lemma_position_in_prefix(ms@, i as int, ms@[i as int].id@);
            let f = crate::chat::message_has_id(ms@[i as int].id@);
            lemma_find_first_is_first(ms@, f);
        }
        if p == i {
            count = count + 1;
        }
        i = i + 1;
    }
    assert(ms@.take(ms@.len() as int) =~= ms@);
    count
}

/// Records `provenance` for message `message_id` of `conversation` in its
/// session metadata, when the conversation has such a message; once more
/// ids are recorded than 32 past the number of distinct message ids, the
/// ids no message has any more are dropped. Returns whether it recorded.
pub fn store_ai_message_backend_provenance(
    conversation: &mut AiConversation,
    message_id: &str,
    provenance: AiMessageBackendProvenance,
) -> (r: bool)
    ensures
        r == is_message_id(old(conversation).messages@, message_id@),
        !r ==> *final(conversation) == *old(conversation),
        r ==> ({
            let ms = old(conversation).messages@;
            let grown = recorded_backends(*old(conversation)) + if spec_backend_provenance(
                *old(conversation),
                message_id@,
            ) is Some {
                0nat
            } else {
                1nat
            };
            let pruned = grown > distinct_message_ids(ms) + 32;
            &&& spec_backend_provenance(*final(conversation), message_id@) == Some(provenance)
            &&& forall|id: Seq<char>|
                id != message_id@ ==> #[trigger] spec_backend_provenance(*final(conversation), id)
                    == if pruned && !is_message_id(ms, id) {
                    None
                } else {
                    spec_backend_provenance(*old(conversation), id)
                }
            &&& final(conversation).session_metadata matches Some(md) && match old(
                conversation,
            ).session_metadata {
                Some(om) => md.conversation_id == om.conversation_id && md.origin == om.origin
                    && md.profile_id == om.profile_id,
                None => md.conversation_id is None && md.origin is None && md.profile_id is None,
            }
            &&& *final(conversation) == (AiConversation {
                session_metadata: final(conversation).session_metadata,
                ..*old(conversation)
            })
        }),
{
    let target = message_id.to_owned();
    if crate::chat::find_message(&conversation.messages, &target) >= conversation.messages.len() {
        return false;
    }
    let distinct = distinct_id_count(&conversation.messages);
    let mut taken: Option<crate::chat::AiSessionMetadata> = None;
    core::mem::swap(&mut taken, &mut conversation.session_metadata);
    let mut metadata = match taken {
        Some(md) => md,
        None => crate::chat::AiSessionMetadata {
            conversation_id: None,
            origin: None,
            profile_id: None,
            message_backends: None,
        },
    };
    let mut recorded: Option<AiMessageBackends> = None;
    core::mem::swap(&mut recorded, &mut metadata.message_backends);
    let mut backends = match recorded {
        Some(b) => b,
        None => AiMessageBackends::new(),
    };
    backends.insert(target, provenance);
    if backends.len() > distinct.saturating_add(32) {
        backends.retain_message_ids(&conversation.messages);
    }
    metadata.message_backends = Some(backends);
    conversation.session_metadata = Some(metadata);
    true
}

} // verus!
