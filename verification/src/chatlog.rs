//! The host's chat-log records: conversations, messages and the event
//! payloads streamed to the UI, with the list operations the host's
//! database performs on them. Retrieval results reach a chat as
//! `SourceReference` values.

use vstd::prelude::*;

use crate::text::{lex_lt, str_eq, str_lt};

verus! {

/// One conversation's metadata.
pub struct Conversation {
    pub id: String,
    pub title: String,
    pub created_at: String,
    pub updated_at: String,
    pub pinned: bool,
    pub tags: Vec<String>,
    pub folder: Option<String>,
}

/// A retrieved chunk cited by an assistant message: filename, scaled
/// similarity score, and the cited text.
pub struct SourceReference {
    pub filename: String,
    pub score: i64,
    pub content: String,
}

/// One chat message, with the sources that grounded it, if any.
pub struct Message {
    pub id: String,
    pub conversation_id: String,
    pub role: String,
    pub content: String,
    pub provider: String,
    pub model: String,
    pub created_at: String,
    pub sources: Option<Vec<SourceReference>>,
}

/// One hit of a conversation search: the conversation and the snippet that
/// matched.
pub struct SearchConversationResult {
    pub id: String,
    pub title: String,
    pub updated_at: String,
    pub snippet: String,
    pub pinned: bool,
    pub tags: Vec<String>,
    pub folder: Option<String>,
}

/// One streamed delta of an assistant reply.
pub struct StreamingChunk {
    pub message_id: String,
    pub conversation_id: String,
    pub delta: String,
    pub done: bool,
}

/// The event announcing that a streamed reply has begun.
pub struct StreamStarted {
    pub message_id: String,
    pub conversation_id: String,
    pub provider: String,
    pub model: String,
}

/// Registers a conversation in front of the existing ones.
pub fn create_conversation(conversations: &mut Vec<Conversation>, conversation: Conversation)
    ensures
        final(conversations)@ == old(conversations)@.insert(0, conversation),
{
    conversations.insert(0, conversation);
}

/// Appends a message after the existing ones.
pub fn save_message(messages: &mut Vec<Message>, message: Message)
    ensures
        final(messages)@ == old(messages)@.push(message),
{
    messages.push(message);
}

/// Whether a message survives removal of the message with identifier `id`.
pub open spec fn message_kept(m: Message, id: Seq<char>) -> bool {
    m.id@ != id
}

/// Removes the messages whose identifier equals `message_id`, keeping the
/// rest in order.
pub fn delete_message(messages: &mut Vec<Message>, message_id: &str)
    ensures
        final(messages)@ == old(messages)@.filter(|m: Message| message_kept(m, message_id@)),
{
    let ghost orig = messages@;
    let mut kept: Vec<Message> = Vec::new();
    proof {
        assert(orig.subrange(0, 0) =~= Seq::<Message>::empty());
        assert(orig.subrange(0, 0).filter(|m: Message| message_kept(m, message_id@)) =~= Seq::<
            Message,
        >::empty());
        assert(messages@ =~= orig.skip(0));
    }
    let initial_len = messages.len();
    let mut done: usize = 0;
    while messages.len() > 0
        invariant
            orig.len() == initial_len,
            done <= orig.len(),
            messages@ == orig.skip(done as int),
            kept@ == orig.subrange(0, done as int).filter(|m: Message| message_kept(m, message_id@)),
        decreases messages@.len(),
    {
        proof {
            assert(done < orig.len());
        }
        let message = messages.remove(0);
        proof {
            assert(orig.skip(done as int).drop_first() =~= orig.skip(done as int + 1));
            assert(orig.skip(done as int)[0] == orig[done as int]);
        }
        let keep = !str_eq(message.id.as_str(), message_id);
        proof {
            let prefix = orig.subrange(0, done as int);
            let prefix1 = orig.subrange(0, done as int + 1);
            assert(prefix1.drop_last() =~= prefix);
            assert(prefix1.last() == orig[done as int]);
            reveal(Seq::filter);
            if message_kept(orig[done as int], message_id@) {
                assert(prefix1.filter(|m: Message| message_kept(m, message_id@)) =~= prefix.filter(
                    |m: Message| message_kept(m, message_id@),
                ).push(orig[done as int]));
            } else {
                assert(prefix1.filter(|m: Message| message_kept(m, message_id@)) =~= prefix.filter(
                    |m: Message| message_kept(m, message_id@),
                ));
            }
        }
        if keep {
            kept.push(message);
        }
        done += 1;
    }
    proof {
        assert(orig.subrange(0, orig.len() as int) =~= orig);
    }
    *messages = kept;
}

/// Whether a conversation survives removal of the conversation with
/// identifier `id`.
pub open spec fn conversation_kept(c: Conversation, id: Seq<char>) -> bool {
    c.id@ != id
}

/// Whether a message survives removal of the conversation with identifier
/// `id` (its messages go with it).
pub open spec fn message_outside_conversation(m: Message, id: Seq<char>) -> bool {
    m.conversation_id@ != id
}

/// Removes a conversation and all its messages, keeping everything else in
/// order.
pub fn delete_conversation(
    conversations: &mut Vec<Conversation>,
    messages: &mut Vec<Message>,
    id: &str,
)
    ensures
        final(conversations)@ == old(conversations)@.filter(
            |c: Conversation| conversation_kept(c, id@),
        ),
        final(messages)@ == old(messages)@.filter(
            |m: Message| message_outside_conversation(m, id@),
        ),
{
    let ghost corig = conversations@;
    let mut ckept: Vec<Conversation> = Vec::new();
    proof {
        assert(corig.subrange(0, 0) =~= Seq::<Conversation>::empty());
        assert(corig.subrange(0, 0).filter(|c: Conversation| conversation_kept(c, id@)) =~= Seq::<
            Conversation,
        >::empty());
        assert(conversations@ =~= corig.skip(0));
    }
    let c_initial = conversations.len();
    let mut cdone: usize = 0;
    while conversations.len() > 0
        invariant
            corig.len() == c_initial,
            cdone <= corig.len(),
            conversations@ == corig.skip(cdone as int),
            ckept@ == corig.subrange(0, cdone as int).filter(
                |c: Conversation| conversation_kept(c, id@),
            ),
        decreases conversations@.len(),
    {
        proof {
            assert(cdone < corig.len());
        }
        let conversation = conversations.remove(0);
        proof {
            assert(corig.skip(cdone as int).drop_first() =~= corig.skip(cdone as int + 1));
            assert(corig.skip(cdone as int)[0] == corig[cdone as int]);
        }
        let keep = !str_eq(conversation.id.as_str(), id);
        proof {
            let prefix = corig.subrange(0, cdone as int);
            let prefix1 = corig.subrange(0, cdone as int + 1);
            assert(prefix1.drop_last() =~= prefix);
            assert(prefix1.last() == corig[cdone as int]);
            reveal(Seq::filter);
            if conversation_kept(corig[cdone as int], id@) {
                assert(prefix1.filter(|c: Conversation| conversation_kept(c, id@)) =~= prefix.filter(
                    |c: Conversation| conversation_kept(c, id@),
                ).push(corig[cdone as int]));
            } else {
                assert(prefix1.filter(|c: Conversation| conversation_kept(c, id@)) =~= prefix.filter(
                    |c: Conversation| conversation_kept(c, id@),
                ));
            }
        }
        if keep {
            ckept.push(conversation);
        }
        cdone += 1;
    }
    proof {
        assert(corig.subrange(0, corig.len() as int) =~= corig);
    }
    *conversations = ckept;
    let ghost morig = messages@;
    let mut mkept: Vec<Message> = Vec::new();
    proof {
        assert(morig.subrange(0, 0) =~= Seq::<Message>::empty());
        assert(morig.subrange(0, 0).filter(|m: Message| message_outside_conversation(m, id@))
            =~= Seq::<Message>::empty());
        assert(messages@ =~= morig.skip(0));
    }
    let m_initial = messages.len();
    let mut mdone: usize = 0;
    while messages.len() > 0
        invariant
            morig.len() == m_initial,
            mdone <= morig.len(),
            messages@ == morig.skip(mdone as int),
            mkept@ == morig.subrange(0, mdone as int).filter(
                |m: Message| message_outside_conversation(m, id@),
            ),
        decreases messages@.len(),
    {
        proof {
            assert(mdone < morig.len());
        }
        let message = messages.remove(0);
        proof {
            assert(morig.skip(mdone as int).drop_first() =~= morig.skip(mdone as int + 1));
            assert(morig.skip(mdone as int)[0] == morig[mdone as int]);
        }
        let keep = !str_eq(message.conversation_id.as_str(), id);
        proof {
            let prefix = morig.subrange(0, mdone as int);
            let prefix1 = morig.subrange(0, mdone as int + 1);
            assert(prefix1.drop_last() =~= prefix);
            assert(prefix1.last() == morig[mdone as int]);
            reveal(Seq::filter);
            if message_outside_conversation(morig[mdone as int], id@) {
                assert(prefix1.filter(|m: Message| message_outside_conversation(m, id@))
                    =~= prefix.filter(|m: Message| message_outside_conversation(m, id@)).push(
                    morig[mdone as int],
                ));
            } else {
                assert(prefix1.filter(|m: Message| message_outside_conversation(m, id@))
                    =~= prefix.filter(|m: Message| message_outside_conversation(m, id@)));
            }
        }
        if keep {
            mkept.push(message);
        }
        mdone += 1;
    }
    proof {
        assert(morig.subrange(0, morig.len() as int) =~= morig);
    }
    *messages = mkept;
}

/// Whether conversation `a` strictly precedes `b` in the list order:
/// pinned conversations first, then most recently updated first.
pub open spec fn conversation_before(a: Conversation, b: Conversation) -> bool {
    ||| (a.pinned && !b.pinned)
    ||| (a.pinned == b.pinned && lex_lt(b.updated_at@, a.updated_at@))
}

/// Whether `a` strictly precedes `b` in the conversation list order.
fn conversation_before_exec(a: &Conversation, b: &Conversation) -> (r: bool)
    ensures
        r == conversation_before(*a, *b),
{
    if a.pinned && !b.pinned {
        true
    } else if a.pinned == b.pinned {
        str_lt(b.updated_at.as_str(), a.updated_at.as_str())
    } else {
        false
    }
}

/// Inserts a conversation into an ordered list: in front of the first one
/// it strictly precedes, so equal keys keep their earlier relative order.
pub open spec fn insert_conversation(s: Seq<Conversation>, c: Conversation) -> Seq<Conversation>
    decreases s.len(),
{
    if s.len() == 0 {
        seq![c]
    } else if conversation_before(c, s[0]) {
        seq![c] + s
    } else {
        seq![s[0]] + insert_conversation(s.drop_first(), c)
    }
}

/// The stable ordering of a conversation list: pinned first, then most
/// recently updated first, ties in their original order.
pub open spec fn sorted_conversations(s: Seq<Conversation>) -> Seq<Conversation>
    decreases s.len(),
{
    if s.len() == 0 {
        Seq::empty()
    } else {
        insert_conversation(sorted_conversations(s.drop_last()), s.last())
    }
}

/// Inserts a conversation into an ordered vector, in front of the first
/// entry it strictly precedes.
fn insert_conversation_exec(sorted: &mut Vec<Conversation>, c: Conversation)
    ensures
        final(sorted)@ == insert_conversation(old(sorted)@, c),
{
    let ghost orig = sorted@;
    let mut k: usize = 0;
    proof {
        assert(orig.skip(0) =~= orig);
        assert(orig.take(0) =~= Seq::<Conversation>::empty());
    }
    while k < sorted.len() && !conversation_before_exec(&c, &sorted[k])
        invariant
            k <= orig.len(),
            sorted@ == orig,
            insert_conversation(orig, c) == orig.take(k as int) + insert_conversation(
                orig.skip(k as int),
                c,
            ),
        decreases orig.len() - k,
    {
        proof {
            assert(orig.skip(k as int)[0] == orig[k as int]);
            assert(orig.skip(k as int).drop_first() =~= orig.skip(k as int + 1));
            assert(insert_conversation(orig.skip(k as int), c) == seq![orig[k as int]]
                + insert_conversation(orig.skip(k as int + 1), c));
            assert(orig.take(k as int) + (seq![orig[k as int]] + insert_conversation(
                orig.skip(k as int + 1),
                c,
            )) =~= orig.take(k as int + 1) + insert_conversation(orig.skip(k as int + 1), c));
        }
        k += 1;
    }
    if k == sorted.len() {
        proof {
            assert(orig.skip(k as int) =~= Seq::<Conversation>::empty());
            assert(insert_conversation(orig, c) =~= orig.take(k as int) + seq![c]);
            assert(orig.take(k as int) =~= orig);
        }
        sorted.push(c);
        proof {
            assert(sorted@ =~= orig + seq![c]);
            assert(insert_conversation(orig, c) =~= orig + seq![c]);
        }
    } else {
        proof {
            assert(orig.skip(k as int)[0] == orig[k as int]);
            assert(conversation_before(c, orig[k as int]));
            assert(insert_conversation(orig.skip(k as int), c) == seq![c] + orig.skip(k as int));
        }
        sorted.insert(k, c);
        proof {
            assert(sorted@ =~= orig.take(k as int) + (seq![c] + orig.skip(k as int)));
        }
    }
}

/// Orders the conversation list for display: pinned conversations first,
/// then most recently updated first, ties kept in their stored order.
pub fn sort_conversations(conversations: &mut Vec<Conversation>)
    ensures
        final(conversations)@ == sorted_conversations(old(conversations)@),
{
    let ghost orig = conversations@;
    let mut sorted: Vec<Conversation> = Vec::new();
    proof {
        assert(orig.subrange(0, 0) =~= Seq::<Conversation>::empty());
        assert(sorted_conversations(orig.subrange(0, 0)) =~= Seq::<Conversation>::empty());
        assert(conversations@ =~= orig.skip(0));
    }
    let initial_len = conversations.len();
    let mut done: usize = 0;
    while conversations.len() > 0
        invariant
            orig.len() == initial_len,
            done <= orig.len(),
            conversations@ == orig.skip(done as int),
            sorted@ == sorted_conversations(orig.subrange(0, done as int)),
        decreases conversations@.len(),
    {
        proof {
            assert(done < orig.len());
        }
        let c = conversations.remove(0);
        proof {
            assert(orig.skip(done as int).drop_first() =~= orig.skip(done as int + 1));
            assert(orig.skip(done as int)[0] == orig[done as int]);
            let prefix1 = orig.subrange(0, done as int + 1);
            assert(prefix1.drop_last() =~= orig.subrange(0, done as int));
            assert(prefix1.last() == orig[done as int]);
        }
        insert_conversation_exec(&mut sorted, c);
        done += 1;
    }
    proof {
        assert(orig.subrange(0, orig.len() as int) =~= orig);
    }
    *conversations = sorted;
}

/// Whether a message belongs to the conversation with identifier `id`.
pub open spec fn message_in_conversation(m: Message, id: Seq<char>) -> bool {
    m.conversation_id@ == id
}

/// Whether message `a` strictly precedes `b` in a transcript: created
/// earlier first.
pub open spec fn message_before(a: Message, b: Message) -> bool {
    lex_lt(a.created_at@, b.created_at@)
}

/// Inserts a message into an ordered transcript: in front of the first one
/// it strictly precedes, so equal timestamps keep their earlier relative
/// order.
pub open spec fn insert_message(s: Seq<Message>, m: Message) -> Seq<Message>
    decreases s.len(),
{
    if s.len() == 0 {
        seq![m]
    } else if message_before(m, s[0]) {
        seq![m] + s
    } else {
        seq![s[0]] + insert_message(s.drop_first(), m)
    }
}

/// The stable ordering of a transcript: created earlier first, ties in
/// their original order.
pub open spec fn sorted_messages(s: Seq<Message>) -> Seq<Message>
    decreases s.len(),
{
    if s.len() == 0 {
        Seq::empty()
    } else {
        insert_message(sorted_messages(s.drop_last()), s.last())
    }
}

/// Inserts a message into an ordered vector, in front of the first entry it
/// strictly precedes.
fn insert_message_exec(sorted: &mut Vec<Message>, m: Message)
    ensures
        final(sorted)@ == insert_message(old(sorted)@, m),
{
    let ghost orig = sorted@;
    let mut k: usize = 0;
    proof {
        assert(orig.skip(0) =~= orig);
        assert(orig.take(0) =~= Seq::<Message>::empty());
    }
    while k < sorted.len() && !str_lt(m.created_at.as_str(), sorted[k].created_at.as_str())
        invariant
            k <= orig.len(),
            sorted@ == orig,
            insert_message(orig, m) == orig.take(k as int) + insert_message(
                orig.skip(k as int),
                m,
            ),
        decreases orig.len() - k,
    {
        proof {
            assert(orig.skip(k as int)[0] == orig[k as int]);
            assert(orig.skip(k as int).drop_first() =~= orig.skip(k as int + 1));
            assert(insert_message(orig.skip(k as int), m) == seq![orig[k as int]] + insert_message(
                orig.skip(k as int + 1),
                m,
            ));
            assert(orig.take(k as int) + (seq![orig[k as int]] + insert_message(
                orig.skip(k as int + 1),
                m,
            )) =~= orig.take(k as int + 1) + insert_message(orig.skip(k as int + 1), m));
        }
        k += 1;
    }
    if k == sorted.len() {
        proof {
            assert(orig.skip(k as int) =~= Seq::<Message>::empty());
            assert(insert_message(orig, m) =~= orig.take(k as int) + seq![m]);
            assert(orig.take(k as int) =~= orig);
        }
        sorted.push(m);
        proof {
            assert(sorted@ =~= orig + seq![m]);
            assert(insert_message(orig, m) =~= orig + seq![m]);
        }
    } else {
        proof {
            assert(orig.skip(k as int)[0] == orig[k as int]);
            assert(message_before(m, orig[k as int]));
            assert(insert_message(orig.skip(k as int), m) == seq![m] + orig.skip(k as int));
        }
        sorted.insert(k, m);
        proof {
            assert(sorted@ =~= orig.take(k as int) + (seq![m] + orig.skip(k as int)));
        }
    }
}

/// The transcript of one conversation: its messages, created earlier
/// first, equal timestamps in their stored order.
pub fn messages_of_conversation(messages: Vec<Message>, conversation_id: &str) -> (r: Vec<Message>)
    ensures
        r@ == sorted_messages(
            messages@.filter(|m: Message| message_in_conversation(m, conversation_id@)),
        ),
{
    let ghost orig = messages@;
    let ghost pred = |m: Message| message_in_conversation(m, conversation_id@);
    let mut remaining = messages;
    let mut sorted: Vec<Message> = Vec::new();
    proof {
        assert(orig.subrange(0, 0) =~= Seq::<Message>::empty());
        assert(orig.subrange(0, 0).filter(pred) =~= Seq::<Message>::empty());
        assert(sorted_messages(orig.subrange(0, 0).filter(pred)) =~= Seq::<Message>::empty());
        assert(remaining@ =~= orig.skip(0));
    }
    let initial_len = remaining.len();
    let mut done: usize = 0;
    while remaining.len() > 0
        invariant
            orig.len() == initial_len,
            done <= orig.len(),
            remaining@ == orig.skip(done as int),
            pred == (|m: Message| message_in_conversation(m, conversation_id@)),
            sorted@ == sorted_messages(orig.subrange(0, done as int).filter(pred)),
        decreases remaining@.len(),
    {
        proof {
            assert(done < orig.len());
        }
        let m = remaining.remove(0);
        proof {
            assert(orig.skip(done as int).drop_first() =~= orig.skip(done as int + 1));
            assert(orig.skip(done as int)[0] == orig[done as int]);
        }
        let here = str_eq(m.conversation_id.as_str(), conversation_id);
        proof {
            let prefix = orig.subrange(0, done as int);
            let prefix1 = orig.subrange(0, done as int + 1);
            assert(prefix1.drop_last() =~= prefix);
            assert(prefix1.last() == orig[done as int]);
            reveal(Seq::filter);
            if message_in_conversation(orig[done as int], conversation_id@) {
                assert(prefix1.filter(pred) =~= prefix.filter(pred).push(orig[done as int]));
                assert(prefix1.filter(pred).drop_last() =~= prefix.filter(pred));
                assert(prefix1.filter(pred).last() == orig[done as int]);
            } else {
                assert(prefix1.filter(pred) =~= prefix.filter(pred));
            }
        }
        if here {
            insert_message_exec(&mut sorted, m);
        }
        done += 1;
    }
    proof {
        assert(orig.subrange(0, orig.len() as int) =~= orig);
    }
    sorted
}

/// Retitles the first conversation with identifier `id`; every other
/// conversation is untouched, and a missing conversation means no change.
pub fn update_conversation_title(conversations: &mut Vec<Conversation>, id: &str, title: &str)
    ensures
        ({
            ||| {
                &&& (forall|m: int|
                    0 <= m < old(conversations)@.len() ==> (#[trigger] old(conversations)@[m]).id@
                        != id@)
                &&& final(conversations)@ == old(conversations)@
            }
            ||| (exists|j: int|
                {
                    &&& 0 <= j < old(conversations)@.len()
                    &&& (#[trigger] old(conversations)@[j]).id@ == id@
                    &&& (forall|m: int|
                        0 <= m < j ==> (#[trigger] old(conversations)@[m]).id@ != id@)
                    &&& final(conversations)@.len() == old(conversations)@.len()
                    &&& (forall|m: int|
                        0 <= m < old(conversations)@.len() && m != j ==> final(conversations)@[m]
                            == (#[trigger] old(conversations)@[m]))
                    &&& final(conversations)@[j].title@ == title@
                    &&& final(conversations)@[j].id == old(conversations)@[j].id
                    &&& final(conversations)@[j].created_at == old(conversations)@[j].created_at
                    &&& final(conversations)@[j].updated_at == old(conversations)@[j].updated_at
                    &&& final(conversations)@[j].pinned == old(conversations)@[j].pinned
                    &&& final(conversations)@[j].tags == old(conversations)@[j].tags
                    &&& final(conversations)@[j].folder == old(conversations)@[j].folder
                })
        }),
{
    let mut j: usize = 0;
    while j < conversations.len()
        invariant
            j <= conversations@.len(),
            conversations@ == old(conversations)@,
            forall|m: int| 0 <= m < j ==> (#[trigger] conversations@[m]).id@ != id@,
        decreases conversations@.len() - j,
    {
        if str_eq(conversations[j].id.as_str(), id) {
            let mut conversation = conversations.remove(j);
            conversation.title = title.to_owned();
            conversations.insert(j, conversation);
            proof {
                let jj = j as int;
                assert(old(conversations)@[jj].id@ == id@);
                assert(forall|m: int|
                    0 <= m < old(conversations)@.len() && m != jj ==> conversations@[m]
                        == (#[trigger] old(conversations)@[m]));
                assert(conversations@[jj].title@ == title@);
            }
            return ;
        }
        j += 1;
    }
}

/// Replaces the tags of the first conversation with identifier `id`; every
/// other conversation is untouched, and a missing conversation means no
/// change.
pub fn update_conversation_tags(conversations: &mut Vec<Conversation>, id: &str, tags: &Vec<String>)
    ensures
        ({
            ||| {
                &&& (forall|m: int|
                    0 <= m < old(conversations)@.len() ==> (#[trigger] old(conversations)@[m]).id@
                        != id@)
                &&& final(conversations)@ == old(conversations)@
            }
            ||| (exists|j: int|
                {
                    &&& 0 <= j < old(conversations)@.len()
                    &&& (#[trigger] old(conversations)@[j]).id@ == id@
                    &&& (forall|m: int|
                        0 <= m < j ==> (#[trigger] old(conversations)@[m]).id@ != id@)
                    &&& final(conversations)@.len() == old(conversations)@.len()
                    &&& (forall|m: int|
                        0 <= m < old(conversations)@.len() && m != j ==> final(conversations)@[m]
                            == (#[trigger] old(conversations)@[m]))
                    &&& final(conversations)@[j].tags@ == tags@
                    &&& final(conversations)@[j].id == old(conversations)@[j].id
                    &&& final(conversations)@[j].title == old(conversations)@[j].title
                    &&& final(conversations)@[j].created_at == old(conversations)@[j].created_at
                    &&& final(conversations)@[j].updated_at == old(conversations)@[j].updated_at
                    &&& final(conversations)@[j].pinned == old(conversations)@[j].pinned
                    &&& final(conversations)@[j].folder == old(conversations)@[j].folder
                })
        }),
{
    let mut j: usize = 0;
    while j < conversations.len()
        invariant
            j <= conversations@.len(),
            conversations@ == old(conversations)@,
            forall|m: int| 0 <= m < j ==> (#[trigger] conversations@[m]).id@ != id@,
        decreases conversations@.len() - j,
    {
        if str_eq(conversations[j].id.as_str(), id) {
            let mut copied: Vec<String> = Vec::new();
            let mut t: usize = 0;
            while t < tags.len()
                invariant
                    t <= tags@.len(),
                    copied@ == tags@.subrange(0, t as int),
                decreases tags@.len() - t,
            {
                copied.push(tags[t].clone());
                proof {
                    assert(copied@ =~= tags@.subrange(0, t as int + 1));
                }
                t += 1;
            }
            proof {
                assert(copied@ =~= tags@);
            }
            let mut conversation = conversations.remove(j);
            conversation.tags = copied;
            conversations.insert(j, conversation);
            proof {
                let jj = j as int;
                assert(old(conversations)@[jj].id@ == id@);
                assert(forall|m: int|
                    0 <= m < old(conversations)@.len() && m != jj ==> conversations@[m]
                        == (#[trigger] old(conversations)@[m]));
                assert(conversations@[jj].tags@ == tags@);
            }
            return ;
        }
        j += 1;
    }
}

/// Moves the first conversation with identifier `id` into a folder (or out
/// of any); every other conversation is untouched, and a missing
/// conversation means no change.
pub fn update_conversation_folder(
    conversations: &mut Vec<Conversation>,
    id: &str,
    folder: Option<&str>,
)
    ensures
        ({
            ||| {
                &&& (forall|m: int|
                    0 <= m < old(conversations)@.len() ==> (#[trigger] old(conversations)@[m]).id@
                        != id@)
                &&& final(conversations)@ == old(conversations)@
            }
            ||| (exists|j: int|
                {
                    &&& 0 <= j < old(conversations)@.len()
                    &&& (#[trigger] old(conversations)@[j]).id@ == id@
                    &&& (forall|m: int|
                        0 <= m < j ==> (#[trigger] old(conversations)@[m]).id@ != id@)
                    &&& final(conversations)@.len() == old(conversations)@.len()
                    &&& (forall|m: int|
                        0 <= m < old(conversations)@.len() && m != j ==> final(conversations)@[m]
                            == (#[trigger] old(conversations)@[m]))
                    &&& (match folder {
                        None => final(conversations)@[j].folder is None,
                        Some(f) => final(conversations)@[j].folder matches Some(g) && g@ == f@,
                    })
                    &&& final(conversations)@[j].id == old(conversations)@[j].id
                    &&& final(conversations)@[j].title == old(conversations)@[j].title
                    &&& final(conversations)@[j].created_at == old(conversations)@[j].created_at
                    &&& final(conversations)@[j].updated_at == old(conversations)@[j].updated_at
                    &&& final(conversations)@[j].pinned == old(conversations)@[j].pinned
                    &&& final(conversations)@[j].tags == old(conversations)@[j].tags
                })
        }),
{
    let mut j: usize = 0;
    while j < conversations.len()
        invariant
            j <= conversations@.len(),
            conversations@ == old(conversations)@,
            forall|m: int| 0 <= m < j ==> (#[trigger] conversations@[m]).id@ != id@,
        decreases conversations@.len() - j,
    {
        if str_eq(conversations[j].id.as_str(), id) {
            let new_folder: Option<String> = match folder {
                None => None,
                Some(f) => Some(f.to_owned()),
            };
            let mut conversation = conversations.remove(j);
            conversation.folder = new_folder;
            conversations.insert(j, conversation);
            proof {
                let jj = j as int;
                assert(old(conversations)@[jj].id@ == id@);
                assert(forall|m: int|
                    0 <= m < old(conversations)@.len() && m != jj ==> conversations@[m]
                        == (#[trigger] old(conversations)@[m]));
            }
            return ;
        }
        j += 1;
    }
}

/// Rewrites the content of the first message with identifier `message_id`;
/// every other message is untouched, and a missing message means no change.
pub fn update_message_content(messages: &mut Vec<Message>, message_id: &str, content: &str)
    ensures
        ({
            ||| {
                &&& (forall|m: int|
                    0 <= m < old(messages)@.len() ==> (#[trigger] old(messages)@[m]).id@
                        != message_id@)
                &&& final(messages)@ == old(messages)@
            }
            ||| (exists|j: int|
                {
                    &&& 0 <= j < old(messages)@.len()
                    &&& (#[trigger] old(messages)@[j]).id@ == message_id@
                    &&& (forall|m: int|
                        0 <= m < j ==> (#[trigger] old(messages)@[m]).id@ != message_id@)
                    &&& final(messages)@.len() == old(messages)@.len()
                    &&& (forall|m: int|
                        0 <= m < old(messages)@.len() && m != j ==> final(messages)@[m]
                            == (#[trigger] old(messages)@[m]))
                    &&& final(messages)@[j].content@ == content@
                    &&& final(messages)@[j].id == old(messages)@[j].id
                    &&& final(messages)@[j].conversation_id == old(messages)@[j].conversation_id
                    &&& final(messages)@[j].role == old(messages)@[j].role
                    &&& final(messages)@[j].provider == old(messages)@[j].provider
                    &&& final(messages)@[j].model == old(messages)@[j].model
                    &&& final(messages)@[j].created_at == old(messages)@[j].created_at
                    &&& final(messages)@[j].sources == old(messages)@[j].sources
                })
        }),
{
    let mut j: usize = 0;
    while j < messages.len()
        invariant
            j <= messages@.len(),
            messages@ == old(messages)@,
            forall|m: int| 0 <= m < j ==> (#[trigger] messages@[m]).id@ != message_id@,
        decreases messages@.len() - j,
    {
        if str_eq(messages[j].id.as_str(), message_id) {
            let mut message = messages.remove(j);
            message.content = content.to_owned();
            messages.insert(j, message);
            proof {
                let jj = j as int;
                assert(old(messages)@[jj].id@ == message_id@);
                assert(forall|m: int|
                    0 <= m < old(messages)@.len() && m != jj ==> messages@[m] == (#[trigger] old(
                        messages,
                    )@[m]));
                assert(messages@[jj].content@ == content@);
            }
            return ;
        }
        j += 1;
    }
}

/// Pins or unpins the first conversation with identifier `id`; every other
/// conversation is untouched, and a missing conversation means no change.
pub fn update_conversation_pinned(conversations: &mut Vec<Conversation>, id: &str, pinned: bool)
    ensures
        ({
            ||| {
                &&& (forall|m: int|
                    0 <= m < old(conversations)@.len() ==> (#[trigger] old(conversations)@[m]).id@
                        != id@)
                &&& final(conversations)@ == old(conversations)@
            }
            ||| (exists|j: int|
                {
                    &&& 0 <= j < old(conversations)@.len()
                    &&& (#[trigger] old(conversations)@[j]).id@ == id@
                    &&& (forall|m: int|
                        0 <= m < j ==> (#[trigger] old(conversations)@[m]).id@ != id@)
                    &&& final(conversations)@ == old(conversations)@.update(
                        j,
                        (Conversation { pinned, ..old(conversations)@[j] }),
                    )
                })
        }),
{
    let mut j: usize = 0;
    while j < conversations.len()
        invariant
            j <= conversations@.len(),
            conversations@ == old(conversations)@,
            forall|m: int| 0 <= m < j ==> (#[trigger] conversations@[m]).id@ != id@,
        decreases conversations@.len() - j,
    {
        if str_eq(conversations[j].id.as_str(), id) {
            let mut conversation = conversations.remove(j);
            conversation.pinned = pinned;
            conversations.insert(j, conversation);
            proof {
                let jj = j as int;
                assert(old(conversations)@[jj].id@ == id@);
                assert(conversations@ =~= old(conversations)@.update(
                    jj,
                    (Conversation { pinned, ..old(conversations)@[jj] }),
                ));
            }
            return ;
        }
        j += 1;
    }
}

} // verus!
