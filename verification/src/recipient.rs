//! Where answers go, and in what form.
use vstd::prelude::*;

use crate::attachment::Attachment;
use crate::config::Config;
use crate::exchange::{chained, tip, Edit, Exchange};
use crate::ids::{uuid_bytes, ServiceId, Thread};
use crate::message::{
    ours, quote_author, revision, root_from, uuid_in, Content, ContentBody, DataMessage,
    EditMessage, GroupContext, Quote, BOT_FILE_NAME,
};
use crate::text::copy;

verus! {

/// Who gets a message.
#[derive(Clone, Copy)]
pub enum Recipient {
    Contact(ServiceId),
    Group([u8; 32]),
}

/// The recipient of what is said in a chat.
pub open spec fn recipient_of(thread: Thread) -> Recipient {
    match thread {
        Thread::Contact(sid) => Recipient::Contact(sid),
        Thread::Group(key) => Recipient::Group(key),
    }
}

/// Group messages carry the group context, direct ones do not.
pub open spec fn addressed(r: Recipient, context: Option<GroupContext>) -> bool {
    match r {
        Recipient::Group(key) => context is Some && context->0.master_key@ == key@
            && context->0.revision == 0,
        Recipient::Contact(_) => context is None,
    }
}

impl Recipient {
    pub fn from_thread(thread: &Thread) -> (r: Recipient)
        ensures
            r == recipient_of(*thread),
    {
        match thread {
            Thread::Contact(sid) => Recipient::Contact(*sid),
            Thread::Group(key) => Recipient::Group(*key),
        }
    }

    /// Group messages must carry the group context, direct ones must not.
    pub fn group_context(&self) -> (r: Option<GroupContext>)
        ensures
            addressed(*self, r),
    {
        match self {
            Recipient::Group(key) => Some(
                GroupContext {
                    master_key: vstd::slice::slice_to_vec(vstd::array::array_as_slice(key)),
                    revision: 0,
                },
            ),
            Recipient::Contact(_) => None,
        }
    }
}

/// The message that summoned the bot, as its answer refers to it.
pub struct TriggerRef {
    pub ts: u64,
    pub sender: u128,
    pub body: String,
}

/// A quote of the message that summoned the bot: its time, its author, its text, and
/// nothing else.
pub open spec fn quotes(q: Option<Quote>, trigger: TriggerRef) -> bool {
    match q {
        Some(q) => {
            &&& q.id == Some(trigger.ts)
            &&& q.author_aci is None
            &&& q.author_aci_binary is Some
            &&& quote_author(q) == Some(trigger.sender)
            &&& q.text is Some
            &&& q.text->0@ == trigger.body@
            &&& q.body_ranges@.len() == 0
            &&& q.thumbnails@.len() == 0
        },
        None => false,
    }
}

/// Quotes the message that summoned the bot, so that a later reply to the answer
/// can walk back to the trigger's images (and any earlier image in the chain).
/// Without this link the reply chain dead-ends at the bot's answer. The author is
/// read back from it.
pub fn trigger_quote(trigger: &TriggerRef) -> (r: Quote)
    ensures
        quotes(Some(r), *trigger),
{
    let bytes = uuid_bytes(trigger.sender);
    assert(uuid_in(bytes@) == Some(trigger.sender));
    Quote {
        id: Some(trigger.ts),
        author_aci: None,
        author_aci_binary: Some(bytes),
        text: Some(copy(&trigger.body)),
        body_ranges: Vec::new(),
        thumbnails: Vec::new(),
    }
}

/// A message of text and a quote alone.
pub open spec fn is_text_message(
    m: DataMessage,
    recipient: Recipient,
    text: Seq<char>,
    ts: u64,
    quote: Option<Quote>,
) -> bool {
    &&& m.body is Some
    &&& m.body->0@ == text
    &&& m.timestamp == Some(ts)
    &&& addressed(recipient, m.group_v2)
    &&& m.quote == quote
    &&& m.attachments@.len() == 0
    &&& m.sticker is None
    &&& m.body_ranges@.len() == 0
}

/// The message that is edited into an answer as it takes shape.
pub fn text_message(recipient: &Recipient, text: String, ts: u64, quote: Option<Quote>) -> (r:
    DataMessage)
    ensures
        is_text_message(r, *recipient, text@, ts, quote),
{
    DataMessage {
        body: Some(text),
        timestamp: Some(ts),
        group_v2: recipient.group_context(),
        quote,
        attachments: Vec::new(),
        sticker: None,
        body_ranges: Vec::new(),
    }
}

/// A new revision of the message at `target_ts`.
pub fn edit_of(
    recipient: &Recipient,
    target_ts: u64,
    text: String,
    edit_ts: u64,
    quote: Option<Quote>,
) -> (r: EditMessage)
    ensures
        r.target_sent_timestamp == Some(target_ts),
        r.data_message is Some,
        is_text_message(r.data_message->0, *recipient, text@, edit_ts, quote),
{
    EditMessage {
        target_sent_timestamp: Some(target_ts),
        data_message: Some(text_message(recipient, text, edit_ts, quote)),
    }
}

/// A message of an answer: text alone, with a quote of the trigger.
pub open spec fn answers(
    m: DataMessage,
    recipient: Recipient,
    text: Seq<char>,
    ts: u64,
    trigger: TriggerRef,
) -> bool {
    &&& is_text_message(m, recipient, text, ts, m.quote)
    &&& quotes(m.quote, trigger)
}

/// The message that an edit of an answer is sent as.
pub open spec fn revises(
    m: EditMessage,
    recipient: Recipient,
    edit: Edit,
    trigger: TriggerRef,
) -> bool {
    &&& m.target_sent_timestamp == Some(edit.target)
    &&& m.data_message is Some
    &&& answers(m.data_message->0, recipient, edit.text@, edit.ts, trigger)
}

/// The placeholder of an exchange, which is edited into the answer: it quotes the
/// trigger.
pub fn placeholder_message(
    cfg: &Config,
    exchange: &Exchange,
    recipient: &Recipient,
    trigger: &TriggerRef,
) -> (r: DataMessage)
    ensures
        answers(r, *recipient, cfg.processing_msg@, exchange.placeholder_ts, *trigger),
{
    let quote = Some(trigger_quote(trigger));
    text_message(recipient, copy(&cfg.processing_msg), exchange.placeholder_ts, quote)
}

/// The message that an edit is sent as: it quotes the trigger as the placeholder does.
pub fn edit_message(edit: Edit, recipient: &Recipient, trigger: &TriggerRef) -> (r: EditMessage)
    ensures
        revises(r, *recipient, edit, *trigger),
{
    let quote = Some(trigger_quote(trigger));
    edit_of(recipient, edit.target, edit.text, edit.ts, quote)
}

/// An envelope of ours with a message as it was sent, be it the one that was sent or
/// the one that other devices of the account get.
pub open spec fn keeps_message(c: Option<Content>, my_aci: u128, m: DataMessage) -> bool {
    &&& c is Some
    &&& ours(c->0, my_aci)
    &&& match c->0.body {
        ContentBody::DataMessage(dm) => dm == m,
        ContentBody::SynchronizeMessage(Some(sent)) => sent.message == Some(m),
        _ => false,
    }
}

/// An envelope of ours with an edit as it was sent, be it the one that was sent or the
/// one that other devices of the account get.
pub open spec fn keeps_edit(c: Option<Content>, my_aci: u128, m: EditMessage) -> bool {
    &&& c is Some
    &&& ours(c->0, my_aci)
    &&& match c->0.body {
        ContentBody::EditMessage(e) => e == m,
        ContentBody::SynchronizeMessage(Some(sent)) => sent.message is None && sent.edit_message
            == Some(m),
        _ => false,
    }
}

/// The message in an envelope quotes the trigger.
pub open spec fn leads_to(c: Option<Content>, trigger: TriggerRef) -> bool {
    &&& c is Some
    &&& revision(c->0) is Some
    &&& quotes((revision(c->0)->0).1.quote, trigger)
}

/// A reply to any message of an answer walks back to the trigger: where the placeholder
/// of an exchange and its edits are stored as they were sent, each of them quotes the
/// trigger, and the last leads to the placeholder.
pub proof fn law_answers_lead_to_the_trigger(
    store: spec_fn(u64) -> Option<Content>,
    my_aci: u128,
    recipient: Recipient,
    trigger: TriggerRef,
    text: Seq<char>,
    root_ts: u64,
    first: DataMessage,
    edits: Seq<Edit>,
    sent: Seq<EditMessage>,
    left: nat,
)
    requires
        answers(first, recipient, text, root_ts, trigger),
        keeps_message(store(root_ts), my_aci, first),
        chained(root_ts, edits),
        sent.len() == edits.len(),
        forall|i: int|
            0 <= i < edits.len() ==> revises(#[trigger] sent[i], recipient, edits[i], trigger)
                && keeps_edit(store(edits[i].ts), my_aci, sent[i]),
        edits.len() < left,
    ensures
        leads_to(store(root_ts), trigger),
        forall|i: int|
            0 <= i < edits.len() ==> leads_to(store((#[trigger] edits[i]).ts), trigger),
        root_from(store, my_aci, text, tip(root_ts, edits), left) == Some(root_ts),
    decreases edits.len(),
{
    if edits.len() == 0 {
    } else {
        let n = edits.len() - 1;
        let head = edits.drop_last();
        let head_sent = sent.drop_last();
        assert(chained(root_ts, head)) by {
            assert forall|i: int| 0 <= i < head.len() implies (#[trigger] head[i]).target
                == tip(root_ts, head.take(i)) by {
                assert(head[i] == edits[i]);
                assert(head.take(i) =~= edits.take(i));
            }
        }
        assert forall|i: int| 0 <= i < head.len() implies revises(
            #[trigger] head_sent[i],
            recipient,
            head[i],
            trigger,
        ) && keeps_edit(store(head[i].ts), my_aci, head_sent[i]) by {
            assert(head_sent[i] == sent[i] && head[i] == edits[i]);
        }
        law_answers_lead_to_the_trigger(
            store,
            my_aci,
            recipient,
            trigger,
            text,
            root_ts,
            first,
            head,
            head_sent,
            (left - 1) as nat,
        );
        assert(revises(sent[n], recipient, edits[n], trigger));
        assert(edits[n].target == tip(root_ts, edits.take(n)));
        assert(edits.take(n) =~= head);
        assert forall|i: int| 0 <= i < edits.len() implies leads_to(
            store((#[trigger] edits[i]).ts),
            trigger,
        ) by {
            if i < n {
                assert(head[i] == edits[i]);
            }
        }
    }
}

/// The bot's attachments as a message of their own.
pub fn attachments_message(recipient: &Recipient, uploaded: Vec<Attachment>, ts: u64) -> (r:
    DataMessage)
    ensures
        r.body is None,
        r.timestamp == Some(ts),
        addressed(*recipient, r.group_v2),
        r.quote is None,
        r.attachments == uploaded,
        r.sticker is None,
        r.body_ranges@.len() == 0,
{
    DataMessage {
        body: None,
        timestamp: Some(ts),
        group_v2: recipient.group_context(),
        quote: None,
        attachments: uploaded,
        sticker: None,
        body_ranges: Vec::new(),
    }
}

/// What is said of a file when it is uploaded.
pub struct Upload {
    pub content_type: String,
    pub length: usize,
    pub file_name: String,
}

/// What is said of one of the bot's files when it is uploaded; its name marks it as
/// ours.
pub fn upload_spec(mime: String, bytes: &[u8]) -> (r: Upload)
    ensures
        r.content_type == mime,
        r.length == bytes@.len(),
        r.file_name@ == BOT_FILE_NAME@,
{
    Upload { content_type: mime, length: bytes.len(), file_name: copy(BOT_FILE_NAME) }
}

/// What is said in a chat goes to that chat: to the one it is with, or to its group.
pub proof fn law_answers_go_where_they_are_asked_for(
    sid: ServiceId,
    key: [u8; 32],
    context: Option<GroupContext>,
)
    ensures
        recipient_of(Thread::Contact(sid)) == Recipient::Contact(sid),
        recipient_of(Thread::Group(key)) == Recipient::Group(key),
        addressed(recipient_of(Thread::Contact(sid)), context) ==> context is None,
        addressed(recipient_of(Thread::Group(key)), context) ==> context is Some
            && context->0.master_key@ == key@,
{
}

/// A message of an answer says its text, was sent at its time, and quotes the message that
/// asked for it; nothing is attached to it. An edit of it targets what it edits.
pub proof fn law_an_answer_says_its_text(
    m: DataMessage,
    recipient: Recipient,
    text: Seq<char>,
    ts: u64,
    trigger: TriggerRef,
    e: EditMessage,
    edit: Edit,
)
    ensures
        answers(m, recipient, text, ts, trigger) ==> {
            &&& m.body is Some && m.body->0@ == text
            &&& m.timestamp == Some(ts)
            &&& m.attachments@.len() == 0 && m.sticker is None && m.body_ranges@.len() == 0
            &&& m.quote is Some
            &&& m.quote->0.id == Some(trigger.ts)
            &&& m.quote->0.text is Some && m.quote->0.text->0@ == trigger.body@
            &&& quote_author(m.quote->0) == Some(trigger.sender)
            &&& addressed(recipient, m.group_v2)
        },
        revises(e, recipient, edit, trigger) ==> {
            &&& e.target_sent_timestamp == Some(edit.target)
            &&& e.data_message is Some
            &&& e.data_message->0.body is Some
            &&& e.data_message->0.body->0@ == edit.text@
            &&& e.data_message->0.timestamp == Some(edit.ts)
            &&& e.data_message->0.quote is Some
            &&& e.data_message->0.quote->0.id == Some(trigger.ts)
            &&& addressed(recipient, e.data_message->0.group_v2)
        },
{
}

} // verus!
