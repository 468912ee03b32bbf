//! Messages as they are sent, received and stored.
use vstd::prelude::*;

use crate::attachment::{
    attachments, copy_attachments, copy_bytes, lemma_attachments_push, text_opt, Attachment,
    AttachmentV,
};
use crate::ids::{be_value, parse_uuid, uuid_of_bytes, uuid_value, ServiceId, Thread};
use crate::text::{
    begins, chars_of, copy, find, find_chars, is_digit, parse_unsigned, same_text, starts_with,
    string_between, texts, unsigned,
};

verus! {

/// The file name that the bot's own uploads carry.
pub const BOT_FILE_NAME: &'static str = "signal-ai-bot";

/// Signal puts an OBJECT REPLACEMENT CHARACTER in the body for each @-mention;
/// the body ranges say which account each one refers to.
pub const MENTION: char = '\u{FFFC}';

/// How many revisions are followed back at most: a reply is at most a placeholder
/// and a few edits deep.
pub const MAX_REVISIONS: usize = 16;

/// What a range of a body is about.
pub enum RangeValue {
    MentionAci(String),
    MentionAciBinary(Vec<u8>),
    Style,
}

/// A range of a body, and what it is about.
pub struct BodyRange {
    pub start: Option<u32>,
    pub associated_value: Option<RangeValue>,
}

/// The mathematical model of what a range is about.
pub enum RangeValueV {
    MentionAci(Seq<char>),
    MentionAciBinary(Seq<u8>),
    Style,
}

/// The mathematical model of a range.
pub struct BodyRangeV {
    pub start: Option<u32>,
    pub associated_value: Option<RangeValueV>,
}

impl View for RangeValue {
    type V = RangeValueV;

    open spec fn view(&self) -> RangeValueV {
        match self {
            RangeValue::MentionAci(s) => RangeValueV::MentionAci(s@),
            RangeValue::MentionAciBinary(b) => RangeValueV::MentionAciBinary(b@),
            RangeValue::Style => RangeValueV::Style,
        }
    }
}

impl View for BodyRange {
    type V = BodyRangeV;

    open spec fn view(&self) -> BodyRangeV {
        BodyRangeV {
            start: self.start,
            associated_value: match self.associated_value {
                Some(v) => Some(v@),
                None => None,
            },
        }
    }
}

/// The models of a list of ranges.
pub open spec fn ranges(v: Seq<BodyRange>) -> Seq<BodyRangeV> {
    Seq::new(v.len(), |i: int| v[i]@)
}

impl BodyRange {
    /// The same range again.
    pub fn copy(&self) -> (r: BodyRange)
        ensures
            r@ == self@,
    {
        BodyRange {
            start: self.start,
            associated_value: match &self.associated_value {
                Some(RangeValue::MentionAci(s)) => Some(RangeValue::MentionAci(copy(s))),
                Some(RangeValue::MentionAciBinary(b)) => Some(
                    RangeValue::MentionAciBinary(copy_bytes(b)),
                ),
                Some(RangeValue::Style) => Some(RangeValue::Style),
                None => None,
            },
        }
    }
}

/// The same ranges again.
pub fn copy_ranges(v: &[BodyRange]) -> (r: Vec<BodyRange>)
    ensures
        ranges(r@) == ranges(v@),
{
    let mut out: Vec<BodyRange> = Vec::new();
    for i in 0..v.len()
        invariant
            out@.len() == i,
            forall|j: int| 0 <= j < i ==> (#[trigger] out@[j])@ == v@[j]@,
    {
        out.push(v[i].copy());
    }
    assert(ranges(out@) =~= ranges(v@));
    out
}

/// What a message quotes: the message it replies to.
pub struct Quote {
    pub id: Option<u64>,
    pub author_aci: Option<String>,
    pub author_aci_binary: Option<Vec<u8>>,
    pub text: Option<String>,
    pub body_ranges: Vec<BodyRange>,
    /// a still-image thumbnail for each attached item, where there is one
    pub thumbnails: Vec<Option<Attachment>>,
}

/// The group that a message belongs to.
pub struct GroupContext {
    pub master_key: Vec<u8>,
    pub revision: u32,
}

/// A message, as it is sent or received.
pub struct DataMessage {
    pub body: Option<String>,
    pub timestamp: Option<u64>,
    pub group_v2: Option<GroupContext>,
    pub quote: Option<Quote>,
    pub attachments: Vec<Attachment>,
    /// a sticker's image; stickers have a field of their own
    pub sticker: Option<Attachment>,
    pub body_ranges: Vec<BodyRange>,
}

/// A new revision of a message.
pub struct EditMessage {
    pub target_sent_timestamp: Option<u64>,
    pub data_message: Option<DataMessage>,
}

/// What another device of this account has sent.
pub struct Sent {
    pub message: Option<DataMessage>,
    pub edit_message: Option<EditMessage>,
}

/// What an envelope holds.
pub enum ContentBody {
    DataMessage(DataMessage),
    EditMessage(EditMessage),
    SynchronizeMessage(Option<Sent>),
    Other,
}

/// An envelope, as it is received or stored.
pub struct Content {
    pub sender: ServiceId,
    /// the envelope's own timestamp
    pub envelope_ts: u64,
    /// the timestamp of the message, which for an edit is the one it targets
    pub timestamp: u64,
    /// the chat it belongs to, where that can be told
    pub thread: Option<Thread>,
    pub body: ContentBody,
}

// ---------------------------------------------------------------------------
// who

/// The account that 16 bytes name.
pub open spec fn uuid_in(bytes: Seq<u8>) -> Option<u128> {
    if bytes.len() == 16 {
        Some(be_value(bytes) as u128)
    } else {
        None
    }
}

/// The account that a quote is of. It may be given as text or as bytes; the text
/// is preferred where it can be read.
pub open spec fn quote_author(q: Quote) -> Option<u128> {
    let by_text = match q.author_aci {
        Some(a) => uuid_value(a@),
        None => None,
    };
    match by_text {
        Some(u) => Some(u),
        None => match q.author_aci_binary {
            Some(b) => uuid_in(b@),
            None => None,
        },
    }
}

/// The account of a quote's author. Modern clients send it as raw bytes, older
/// ones as the uuid's text. Tries both.
pub fn quote_author_uuid(quote: &Quote) -> (r: Option<u128>)
    ensures
        r == quote_author(*quote),
{
    if let Some(a) = &quote.author_aci {
        if let Some(u) = parse_uuid(a) {
            return Some(u);
        }
    }
    match &quote.author_aci_binary {
        Some(b) => uuid_of_bytes(b),
        None => None,
    }
}

/// The account that a range mentions.
pub open spec fn mentioned(range: BodyRangeV) -> Option<u128> {
    match range.associated_value {
        Some(RangeValueV::MentionAci(s)) => uuid_value(s),
        Some(RangeValueV::MentionAciBinary(b)) => uuid_in(b),
        _ => None,
    }
}

/// The account that a mention range points at.
pub fn mention_aci(range: &BodyRange) -> (r: Option<u128>)
    ensures
        r == mentioned(range@),
{
    match &range.associated_value {
        Some(RangeValue::MentionAci(s)) => parse_uuid(s),
        Some(RangeValue::MentionAciBinary(b)) => uuid_of_bytes(b),
        _ => None,
    }
}

/// `x` put behind every element that does not come after it.
pub open spec fn placed(s: Seq<(u32, u128)>, x: (u32, u128)) -> Seq<(u32, u128)>
    decreases s.len(),
{
    if s.len() > 0 && s.last().0 > x.0 {
        placed(s.drop_last(), x).push(s.last())
    } else {
        s.push(x)
    }
}

/// The mentions among the ranges, from left to right; of two with the same start
/// the one that is listed first.
pub open spec fn mentions_of(rs: Seq<BodyRangeV>) -> Seq<(u32, u128)>
    decreases rs.len(),
{
    if rs.len() == 0 {
        Seq::empty()
    } else {
        let rest = mentions_of(rs.drop_last());
        match (rs.last().start, mentioned(rs.last())) {
            (Some(start), Some(aci)) => placed(rest, (start, aci)),
            _ => rest,
        }
    }
}

proof fn lemma_placed(s: Seq<(u32, u128)>, x: (u32, u128), n: int)
    requires
        0 <= n <= s.len(),
        forall|i: int| n <= i < s.len() ==> (#[trigger] s[i]).0 > x.0,
        n == 0 || s[n - 1].0 <= x.0,
    ensures
        placed(s, x) == s.insert(n, x),
    decreases s.len(),
{
    if n < s.len() {
        assert(s[s.len() - 1].0 > x.0);
        assert forall|i: int| n <= i < s.drop_last().len() implies (
        #[trigger] s.drop_last()[i]).0 > x.0 by {
            assert(s.drop_last()[i] == s[i]);
        }
        lemma_placed(s.drop_last(), x, n);
        assert(s.drop_last().insert(n, x).push(s.last()) =~= s.insert(n, x));
    } else {
        assert(s.push(x) =~= s.insert(n, x));
    }
}

/// From left to right.
pub open spec fn in_order(s: Seq<(u32, u128)>) -> bool {
    forall|i: int, j: int| 0 <= i <= j < s.len() ==> s[i].0 <= s[j].0
}

proof fn lemma_placed_in_order(s: Seq<(u32, u128)>, x: (u32, u128))
    requires
        in_order(s),
    ensures
        in_order(placed(s, x)),
        forall|i: int|
            0 <= i < placed(s, x).len() ==> (#[trigger] placed(s, x)[i]) == x || s.contains(
                placed(s, x)[i],
            ),
    decreases s.len(),
{
    let p = placed(s, x);
    if s.len() > 0 && s.last().0 > x.0 {
        let head = s.drop_last();
        lemma_placed_in_order(head, x);
        let q = placed(head, x);
        assert forall|i: int| 0 <= i < p.len() implies (#[trigger] p[i]) == x || s.contains(
            p[i],
        ) by {
            if i < q.len() {
                assert(p[i] == q[i]);
                if q[i] != x {
                    let k = choose|k: int| 0 <= k < head.len() && head[k] == q[i];
                    assert(s[k] == p[i]);
                }
            } else {
                assert(p[i] == s[s.len() - 1]);
            }
        }
        assert forall|i: int, j: int| 0 <= i <= j < p.len() implies p[i].0 <= p[j].0 by {
            if j < q.len() {
                assert(p[i] == q[i] && p[j] == q[j]);
            } else if i < q.len() {
                assert(p[i] == q[i]);
                if q[i] != x {
                    let k = choose|k: int| 0 <= k < head.len() && head[k] == q[i];
                    assert(s[k] == q[i]);
                }
            }
        }
    } else {
        assert forall|i: int| 0 <= i < p.len() implies (#[trigger] p[i]) == x || s.contains(
            p[i],
        ) by {
            if i < s.len() {
                assert(p[i] == s[i]);
            }
        }
        assert forall|i: int, j: int| 0 <= i <= j < p.len() implies p[i].0 <= p[j].0 by {
            if j == s.len() && i < s.len() {
                assert(s[i].0 <= s[s.len() - 1].0);
            }
        }
    }
}

/// The mentions among the ranges, as they are listed.
pub open spec fn mentions_in(rs: Seq<BodyRangeV>) -> Seq<(u32, u128)>
    decreases rs.len(),
{
    if rs.len() == 0 {
        Seq::empty()
    } else {
        let rest = mentions_in(rs.drop_last());
        match (rs.last().start, mentioned(rs.last())) {
            (Some(start), Some(aci)) => rest.push((start, aci)),
            _ => rest,
        }
    }
}

proof fn lemma_placed_adds_one(s: Seq<(u32, u128)>, x: (u32, u128))
    ensures
        placed(s, x).to_multiset() == s.to_multiset().insert(x),
    decreases s.len(),
{
    broadcast use vstd::seq_lib::group_to_multiset_ensures;

    if s.len() > 0 && s.last().0 > x.0 {
        let head = s.drop_last();
        lemma_placed_adds_one(head, x);
        assert(s =~= head.push(s.last()));
        assert(placed(s, x).to_multiset() =~= s.to_multiset().insert(x));
    }
}

/// Mentions are taken from left to right, and every one is taken.
pub proof fn law_mentions_go_left_to_right(rs: Seq<BodyRangeV>)
    ensures
        in_order(mentions_of(rs)),
        mentions_of(rs).to_multiset() == mentions_in(rs).to_multiset(),
    decreases rs.len(),
{
    broadcast use vstd::seq_lib::group_to_multiset_ensures;

    if rs.len() > 0 {
        law_mentions_go_left_to_right(rs.drop_last());
        if let (Some(start), Some(aci)) = (rs.last().start, mentioned(rs.last())) {
            lemma_placed_in_order(mentions_of(rs.drop_last()), (start, aci));
            lemma_placed_adds_one(mentions_of(rs.drop_last()), (start, aci));
        }
    }
}

/// The accounts of mentions.
pub open spec fn accounts(s: Seq<(u32, u128)>) -> Seq<u128> {
    Seq::new(s.len(), |i: int| s[i].1)
}

/// The accounts whose names a body needs: those it mentions, from left to right;
/// none where it holds no placeholder.
pub open spec fn needed_names(body: Seq<char>, rs: Seq<BodyRangeV>) -> Seq<u128> {
    if body.contains(MENTION) {
        accounts(mentions_of(rs))
    } else {
        Seq::empty()
    }
}

fn has_mention(body: &str) -> (r: bool)
    ensures
        r == body@.contains(MENTION),
{
    let cs = chars_of(body);
    for i in 0..cs.len()
        invariant
            cs@ == body@,
            forall|j: int| 0 <= j < i ==> cs@[j] != MENTION,
    {
        if cs[i] == '\u{FFFC}' {
            assert(body@[i as int] == MENTION);
            return true;
        }
    }
    false
}

/// The accounts whose names a body needs, in the order of its placeholders.
pub fn mention_accounts(body: &str, body_ranges: &[BodyRange]) -> (r: Vec<u128>)
    ensures
        r@ == needed_names(body@, ranges(body_ranges@)),
{
    let mut out: Vec<u128> = Vec::new();
    if !has_mention(body) {
        assert(out@ =~= Seq::empty());
        return out;
    }
    let ghost all = ranges(body_ranges@);
    let mut found: Vec<(u32, u128)> = Vec::new();
    assert(all.take(0) =~= Seq::empty());
    for i in 0..body_ranges.len()
        invariant
            all == ranges(body_ranges@),
            found@ == mentions_of(all.take(i as int)),
    {
        assert(all.take(i + 1).drop_last() =~= all.take(i as int));
        assert(all.take(i + 1).last() == body_ranges@[i as int]@);
        if let Some(start) = body_ranges[i].start {
            if let Some(aci) = mention_aci(&body_ranges[i]) {
                let mut at: usize = found.len();
                while at > 0 && found[at - 1].0 > start
                    invariant
                        at <= found@.len(),
                        forall|j: int| at <= j < found@.len() ==> (#[trigger] found@[j]).0 > start,
                    ensures
                        at <= found@.len(),
                        forall|j: int| at <= j < found@.len() ==> (#[trigger] found@[j]).0 > start,
                        at == 0 || found@[at - 1].0 <= start,
                    decreases at,
                {
                    at -= 1;
                }
                proof {
                    lemma_placed(found@, (start, aci), at as int);
                }
                found.insert(at, (start, aci));
            }
        }
    }
    assert(all.take(all.len() as int) =~= all);
    for i in 0..found.len()
        invariant
            out@ == accounts(found@).take(i as int),
    {
        out.push(found[i].1);
        assert(accounts(found@).take(i + 1) =~= accounts(found@).take(i as int).push(
            accounts(found@)[i as int],
        ));
    }
    assert(accounts(found@).take(found@.len() as int) =~= accounts(found@));
    out
}

/// How many placeholders a body holds.
pub open spec fn placeholders(body: Seq<char>) -> nat
    decreases body.len(),
{
    if body.len() == 0 {
        0
    } else {
        placeholders(body.drop_last()) + if body.last() == MENTION {
            1nat
        } else {
            0
        }
    }
}

/// The body with each placeholder, in order, replaced by the name that belongs to
/// it; one that no name is left for stays.
pub open spec fn spliced(body: Seq<char>, names: Seq<Seq<char>>) -> Seq<char>
    decreases body.len(),
{
    if body.len() == 0 {
        Seq::empty()
    } else {
        let rest = spliced(body.drop_last(), names);
        let n = placeholders(body.drop_last());
        if body.last() == MENTION && n < names.len() {
            rest + "@["@ + names[n as int] + "]"@
        } else {
            rest.push(body.last())
        }
    }
}

/// Rewrites each mention placeholder as "@[name]" so that the model sees who was
/// mentioned.
pub fn resolve_mentions(body: &str, names: &Vec<String>) -> (r: String)
    ensures
        r@ == spliced(body@, texts(names@)),
{
    let cs = chars_of(body);
    let mut out = String::new();
    let mut used: usize = 0;
    assert(cs@.take(0) =~= Seq::empty());
    for i in 0..cs.len()
        invariant
            used <= names@.len(),
            used == (if placeholders(cs@.take(i as int)) < names@.len() {
                placeholders(cs@.take(i as int)) as int
            } else {
                names@.len() as int
            }),
            out@ == spliced(cs@.take(i as int), texts(names@)),
    {
        let ghost head = cs@.take(i as int);
        assert(cs@.take(i + 1).drop_last() =~= head);
        if cs[i] == '\u{FFFC}' && used < names.len() {
            out.append("@[");
            out.append(&names[used]);
            out.append("]");
            used += 1;
        } else {
            out.push(cs[i]);
        }
    }
    assert(cs@.take(cs@.len() as int) =~= cs@);
    out
}

/// A body without placeholders stays as it is, whatever names there are.
pub proof fn law_plain_body_is_kept(body: Seq<char>, names: Seq<Seq<char>>)
    requires
        !body.contains(MENTION),
    ensures
        spliced(body, names) == body,
    decreases body.len(),
{
    if body.len() > 0 {
        assert(body[body.len() - 1] != MENTION);
        assert forall|i: int| 0 <= i < body.drop_last().len() implies body.drop_last()[i]
            != MENTION by {
            assert(body.drop_last()[i] == body[i]);
        }
        law_plain_body_is_kept(body.drop_last(), names);
        assert(body.drop_last().push(body.last()) =~= body);
    }
}

/// Where the name of a replied-to message's author comes from.
#[derive(Clone, Copy, PartialEq, Eq, Structural)]
pub enum AuthorSource {
    /// the account itself is known
    Account(u128),
    /// the sender of the stored message with this timestamp; "someone" where it
    /// is not in the store
    StoredAt(u64),
    /// nothing is known
    Someone,
}

/// Where to look for the author of a replied-to message: prefers the quote's
/// account, else falls back to the original message's sender.
pub fn author_source(in_thread: bool, author: Option<u128>, quoted_ts: Option<u64>) -> (r:
    AuthorSource)
    ensures
        r == (match (author, quoted_ts) {
            (Some(u), _) => AuthorSource::Account(u),
            (None, Some(ts)) if in_thread => AuthorSource::StoredAt(ts),
            _ => AuthorSource::Someone,
        }),
{
    if let Some(u) = author {
        return AuthorSource::Account(u);
    }
    match quoted_ts {
        Some(ts) => if in_thread {
            AuthorSource::StoredAt(ts)
        } else {
            AuthorSource::Someone
        },
        None => AuthorSource::Someone,
    }
}

/// The name of an author that the chosen source gave, or did not give.
pub fn resolve_author(found: Option<String>) -> (r: String)
    ensures
        r@ == (match found {
            Some(n) => n@,
            None => "someone"@,
        }),
{
    match found {
        Some(n) => n,
        None => copy("someone"),
    }
}

// ---------------------------------------------------------------------------
// what

/// A message that another one replies to.
pub struct ReplyRef {
    pub author: String,
    pub text: String,
    /// when the quoted message was sent
    pub ts: Option<u64>,
    /// the quoted message is one of the bot's own replies
    pub is_ai: bool,
}

/// The mathematical model of a replied-to message.
pub struct ReplyRefV {
    pub author: Seq<char>,
    pub text: Seq<char>,
    pub ts: Option<u64>,
    pub is_ai: bool,
}

impl View for ReplyRef {
    type V = ReplyRefV;

    open spec fn view(&self) -> ReplyRefV {
        ReplyRefV { author: self.author@, text: self.text@, ts: self.ts, is_ai: self.is_ai }
    }
}

/// The model of a replied-to message, where there is one.
pub open spec fn reply_opt(r: Option<ReplyRef>) -> Option<ReplyRefV> {
    match r {
        Some(x) => Some(x@),
        None => None,
    }
}

/// A message that may summon the bot.
pub struct Trigger {
    pub thread: Thread,
    pub body: String,
    pub quoted_text: Option<String>,
    pub quoted_ts: Option<u64>,
    pub quoted_author: Option<u128>,
    pub quoted_thumbnails: Vec<Attachment>,
    pub own_atts: Vec<Attachment>,
    pub body_ranges: Vec<BodyRange>,
}

/// The mathematical model of a message that may summon the bot.
#[verifier::ext_equal]
pub struct TriggerV {
    pub thread: Thread,
    pub body: Seq<char>,
    pub quoted_text: Option<Seq<char>>,
    pub quoted_ts: Option<u64>,
    pub quoted_author: Option<u128>,
    pub quoted_thumbnails: Seq<AttachmentV>,
    pub own_atts: Seq<AttachmentV>,
    pub body_ranges: Seq<BodyRangeV>,
}

impl View for Trigger {
    type V = TriggerV;

    open spec fn view(&self) -> TriggerV {
        TriggerV {
            thread: self.thread,
            body: self.body@,
            quoted_text: text_opt(self.quoted_text),
            quoted_ts: self.quoted_ts,
            quoted_author: self.quoted_author,
            quoted_thumbnails: attachments(self.quoted_thumbnails@),
            own_atts: attachments(self.own_atts@),
            body_ranges: ranges(self.body_ranges@),
        }
    }
}

impl TriggerV {
    /// It quotes another message.
    pub open spec fn is_reply(self) -> bool {
        ||| self.quoted_text is Some
        ||| self.quoted_ts is Some
        ||| self.quoted_author is Some
        ||| self.quoted_thumbnails.len() > 0
    }
}

impl Trigger {
    /// Does it quote another message?
    pub fn is_reply(&self) -> (r: bool)
        ensures
            r == self@.is_reply(),
    {
        self.quoted_text.is_some() || self.quoted_ts.is_some() || self.quoted_author.is_some()
            || self.quoted_thumbnails.len() > 0
    }
}

/// The attachments whose type says that they are images, in order.
pub open spec fn pictures(atts: Seq<AttachmentV>) -> Seq<AttachmentV>
    decreases atts.len(),
{
    if atts.len() == 0 {
        Seq::empty()
    } else {
        let rest = pictures(atts.drop_last());
        if begins(atts.last().mime(), "image/"@) {
            rest.push(atts.last())
        } else {
            rest
        }
    }
}

/// The attachments whose type says that they are images.
pub fn image_pointers(atts: &[Attachment]) -> (r: Vec<Attachment>)
    ensures
        attachments(r@) == pictures(attachments(atts@)),
{
    broadcast use lemma_attachments_push;

    let ghost all = attachments(atts@);
    let mut out: Vec<Attachment> = Vec::new();
    assert(all.take(0) =~= Seq::empty());
    assert(attachments(out@) =~= Seq::empty());
    for i in 0..atts.len()
        invariant
            all == attachments(atts@),
            attachments(out@) == pictures(all.take(i as int)),
    {
        assert(all.take(i + 1).drop_last() =~= all.take(i as int));
        let mime = atts[i].mime();
        if starts_with(&mime, "image/") {
            out.push(atts[i].copy());
        }
    }
    assert(all.take(all.len() as int) =~= all);
    out
}

/// A sticker's image as a list.
pub open spec fn sticker_files(dm: DataMessage) -> Seq<AttachmentV> {
    match dm.sticker {
        Some(s) => seq![s@],
        None => Seq::empty(),
    }
}

/// Everything attached to a message, a sticker's image included.
pub open spec fn dm_files(dm: DataMessage) -> Seq<AttachmentV> {
    attachments(dm.attachments@) + sticker_files(dm)
}

fn push_sticker(out: &mut Vec<Attachment>, dm: &DataMessage)
    ensures
        attachments(final(out)@) == attachments(old(out)@) + sticker_files(*dm),
{
    broadcast use lemma_attachments_push;

    let ghost start = attachments(out@);
    if let Some(data) = &dm.sticker {
        out.push(data.copy());
        assert(attachments(out@) =~= start + seq![data@]);
    } else {
        assert(attachments(out@) =~= start + Seq::empty());
    }
}

/// Everything attached to a message: its attachments plus a sticker's image.
pub fn dm_attachments(dm: &DataMessage) -> (r: Vec<Attachment>)
    ensures
        attachments(r@) == dm_files(*dm),
{
    let mut out = copy_attachments(&dm.attachments);
    push_sticker(&mut out, dm);
    out
}

/// Image attachments of a message: regular image attachments plus a sticker's
/// image.
pub fn dm_images(dm: &DataMessage) -> (r: Vec<Attachment>)
    ensures
        attachments(r@) == pictures(attachments(dm.attachments@)) + sticker_files(*dm),
{
    let mut out = image_pointers(&dm.attachments);
    push_sticker(&mut out, dm);
    out
}

/// The message that an envelope holds, sent or received, where it holds one that
/// is no edit.
pub open spec fn plain_message(content: Content) -> Option<DataMessage> {
    match content.body {
        ContentBody::DataMessage(dm) => Some(dm),
        ContentBody::SynchronizeMessage(Some(sent)) => sent.message,
        _ => None,
    }
}

fn message_of(content: &Content) -> (r: Option<&DataMessage>)
    ensures
        match r {
            Some(dm) => plain_message(*content) == Some(*dm),
            None => plain_message(*content) is None,
        },
{
    match &content.body {
        ContentBody::DataMessage(dm) => Some(dm),
        ContentBody::SynchronizeMessage(Some(sent)) => match &sent.message {
            Some(dm) => Some(dm),
            None => None,
        },
        _ => None,
    }
}

/// The images that came with a message.
pub fn content_images(content: &Content) -> (r: Vec<Attachment>)
    ensures
        attachments(r@) == (match plain_message(*content) {
            Some(dm) => pictures(attachments(dm.attachments@)) + sticker_files(dm),
            None => Seq::empty(),
        }),
{
    match message_of(content) {
        Some(dm) => dm_images(dm),
        None => {
            let none: Vec<Attachment> = Vec::new();
            assert(attachments(none@) =~= Seq::empty());
            none
        },
    }
}

/// What came attached to a message.
pub fn content_attachments(content: &Content) -> (r: Vec<Attachment>)
    ensures
        attachments(r@) == (match plain_message(*content) {
            Some(dm) => dm_files(dm),
            None => Seq::empty(),
        }),
{
    match message_of(content) {
        Some(dm) => dm_attachments(dm),
        None => {
            let none: Vec<Attachment> = Vec::new();
            assert(attachments(none@) =~= Seq::empty());
            none
        },
    }
}

/// The thumbnails that there are, in order.
pub open spec fn embedded(thumbs: Seq<Option<Attachment>>) -> Seq<AttachmentV>
    decreases thumbs.len(),
{
    if thumbs.len() == 0 {
        Seq::empty()
    } else {
        let rest = embedded(thumbs.drop_last());
        match thumbs.last() {
            Some(a) => rest.push(a@),
            None => rest,
        }
    }
}

fn embedded_thumbnails(thumbs: &Vec<Option<Attachment>>) -> (r: Vec<Attachment>)
    ensures
        attachments(r@) == embedded(thumbs@),
{
    broadcast use lemma_attachments_push;

    let mut out: Vec<Attachment> = Vec::new();
    assert(thumbs@.take(0) =~= Seq::empty());
    assert(attachments(out@) =~= Seq::empty());
    for i in 0..thumbs.len()
        invariant
            attachments(out@) == embedded(thumbs@.take(i as int)),
    {
        assert(thumbs@.take(i + 1).drop_last() =~= thumbs@.take(i as int));
        if let Some(a) = &thumbs[i] {
            out.push(a.copy());
        }
    }
    assert(thumbs@.take(thumbs@.len() as int) =~= thumbs@);
    out
}

/// The text of a quote, where it has any.
pub open spec fn quote_words(q: Quote) -> Option<Seq<char>> {
    match q.text {
        Some(t) => if t@.len() > 0 {
            Some(t@)
        } else {
            None
        },
        None => None,
    }
}

/// What a message that may summon the bot says: it belongs to a chat and has a
/// body.
pub open spec fn extracted(content: Content) -> Option<TriggerV> {
    match (content.thread, plain_message(content)) {
        (Some(thread), Some(dm)) => match dm.body {
            Some(body) => Some(
                TriggerV {
                    thread,
                    body: body@,
                    quoted_text: match dm.quote {
                        Some(q) => quote_words(q),
                        None => None,
                    },
                    quoted_ts: match dm.quote {
                        Some(q) => q.id,
                        None => None,
                    },
                    quoted_author: match dm.quote {
                        Some(q) => quote_author(q),
                        None => None,
                    },
                    quoted_thumbnails: match dm.quote {
                        Some(q) => embedded(q.thumbnails@),
                        None => Seq::empty(),
                    },
                    own_atts: dm_files(dm),
                    body_ranges: ranges(dm.body_ranges@),
                },
            ),
            None => None,
        },
        _ => None,
    }
}

/// Pulls text, reply info and attachments out of a message (sent or received).
///
/// A quote embeds a still-image thumbnail for each attached media item,
/// including videos and gifs, so they are all taken regardless of the original
/// media type: the thumbnail itself is always an image.
pub fn extract(content: &Content) -> (r: Option<Trigger>)
    ensures
        match r {
            Some(t) => extracted(*content) == Some(t@),
            None => extracted(*content) is None,
        },
{
    let thread = match content.thread {
        Some(t) => t,
        None => {
            return None;
        },
    };
    let dm = match message_of(content) {
        Some(dm) => dm,
        None => {
            return None;
        },
    };
    let body = match &dm.body {
        Some(b) => copy(b),
        None => {
            return None;
        },
    };
    let mut quoted_text: Option<String> = None;
    let mut quoted_ts: Option<u64> = None;
    let mut quoted_author: Option<u128> = None;
    let mut quoted_thumbnails: Vec<Attachment> = Vec::new();
    assert(attachments(quoted_thumbnails@) =~= Seq::empty());
    if let Some(q) = &dm.quote {
        if let Some(t) = &q.text {
            if !t.as_str().is_empty() {
                quoted_text = Some(copy(t));
            }
        }
        quoted_ts = q.id;
        quoted_author = quote_author_uuid(q);
        quoted_thumbnails = embedded_thumbnails(&q.thumbnails);
    }
    Some(
        Trigger {
            thread,
            body,
            quoted_text,
            quoted_ts,
            quoted_author,
            quoted_thumbnails,
            own_atts: dm_attachments(dm),
            body_ranges: copy_ranges(&dm.body_ranges),
        },
    )
}

/// The message of an edit and the revision that it targets.
pub open spec fn edit_parts(e: EditMessage) -> Option<(Option<u64>, DataMessage)> {
    match (e.target_sent_timestamp, e.data_message) {
        (Some(t), Some(dm)) => Some((Some(t), dm)),
        _ => None,
    }
}

/// The message that an envelope holds, with the revision that it targets where
/// it is an edit.
pub open spec fn revision(content: Content) -> Option<(Option<u64>, DataMessage)> {
    match content.body {
        ContentBody::DataMessage(dm) => Some((None, dm)),
        ContentBody::EditMessage(e) => edit_parts(e),
        ContentBody::SynchronizeMessage(Some(sent)) => match (sent.message, sent.edit_message) {
            (Some(dm), _) => Some((None, dm)),
            (None, Some(e)) => edit_parts(e),
            (None, None) => None,
        },
        _ => None,
    }
}

fn edit_message(e: &EditMessage) -> (r: Option<(Option<u64>, &DataMessage)>)
    ensures
        match r {
            Some((t, dm)) => edit_parts(*e) == Some((t, *dm)),
            None => edit_parts(*e) is None,
        },
{
    match (e.target_sent_timestamp, &e.data_message) {
        (Some(t), Some(dm)) => Some((Some(t), dm)),
        _ => None,
    }
}

/// Pulls the data message (and edit target, if any) out of a stored envelope.
/// Gives nothing for other bodies, or an edit missing its target or message.
pub fn data_message(content: &Content) -> (r: Option<(Option<u64>, &DataMessage)>)
    ensures
        match r {
            Some((t, dm)) => revision(*content) == Some((t, *dm)),
            None => revision(*content) is None,
        },
{
    match &content.body {
        ContentBody::DataMessage(dm) => Some((None, dm)),
        ContentBody::EditMessage(e) => edit_message(e),
        ContentBody::SynchronizeMessage(Some(sent)) => match (&sent.message, &sent.edit_message) {
            (Some(dm), _) => Some((None, dm)),
            (None, Some(e)) => edit_message(e),
            (None, None) => None,
        },
        _ => None,
    }
}

/// A synced send, or sent by our account.
pub open spec fn ours(content: Content, my_aci: u128) -> bool {
    content.body is SynchronizeMessage || content.sender.uuid() == my_aci
}

/// A stored message is ours if it is a synced send, or its sender is our account.
pub fn from_me(content: &Content, my_aci: u128) -> (r: bool)
    ensures
        r == ours(*content, my_aci),
{
    let synced = match &content.body {
        ContentBody::SynchronizeMessage(_) => true,
        _ => false,
    };
    synced || content.sender.raw_uuid() == my_aci
}

// ---------------------------------------------------------------------------
// which of our answers a message is a revision of

/// The body of a message is the given text.
pub open spec fn says(dm: DataMessage, text: Seq<char>) -> bool {
    match dm.body {
        Some(b) => b@ == text,
        None => false,
    }
}

/// The root of the answer that the message at `ts` is a revision of: the edit
/// chain is followed back, at most `left` messages long, and has to end at our
/// placeholder.
pub open spec fn root_from(
    store: spec_fn(u64) -> Option<Content>,
    my_aci: u128,
    placeholder: Seq<char>,
    ts: u64,
    left: nat,
) -> Option<u64>
    decreases left,
{
    if left == 0 {
        None
    } else {
        match store(ts) {
            Some(content) => if !ours(content, my_aci) {
                None
            } else {
                match revision(content) {
                    Some((Some(t), _)) => root_from(
                        store,
                        my_aci,
                        placeholder,
                        t,
                        (left - 1) as nat,
                    ),
                    Some((None, dm)) => if says(dm, placeholder) {
                        Some(ts)
                    } else {
                        None
                    },
                    None => None,
                }
            },
            None => None,
        }
    }
}

/// A walk back along an edit chain: the message to look up next.
pub struct RootWalk {
    pub ts: u64,
    pub left: usize,
}

/// Where a walk stands after a message was looked up.
pub enum WalkStep {
    /// look up the next one
    Next(RootWalk),
    /// the root of one of our answers, or nothing of the kind
    Done(Option<u64>),
}

impl RootWalk {
    /// The walk from the message at `ts`.
    pub fn new(ts: u64) -> (r: RootWalk)
        ensures
            r.ts == ts,
            r.left == MAX_REVISIONS,
    {
        RootWalk { ts, left: 16 }
    }

    /// One step of the walk, given what the store holds at `ts`. A reply lives in
    /// the store as a placeholder edited into the answer, each revision its own
    /// row. A quote may reference any revision, so the edit chain is walked back
    /// to the original, which has to be our placeholder.
    ///
    /// Whatever else the store holds, the walk is on its way to the root that the
    /// store gives for it, with one message less to go.
    pub fn step(self, content: Option<&Content>, my_aci: u128, placeholder: &str) -> (r: WalkStep)
        requires
            self.left > 0,
        ensures
            forall|store: spec_fn(u64) -> Option<Content>|
                #![trigger root_from(store, my_aci, placeholder@, self.ts, self.left as nat)]
                store(self.ts) == (match content {
                    Some(c) => Some(*c),
                    None => None,
                }) ==> root_from(store, my_aci, placeholder@, self.ts, self.left as nat) == (
                match r {
                    WalkStep::Next(w) => root_from(
                        store,
                        my_aci,
                        placeholder@,
                        w.ts,
                        w.left as nat,
                    ),
                    WalkStep::Done(root) => root,
                }),
            match r {
                WalkStep::Next(w) => 0 < w.left == self.left - 1 && content is Some && revision(
                    *content->0,
                ) is Some && (revision(*content->0)->0).0 == Some(w.ts),
                WalkStep::Done(Some(root)) => root == self.ts,
                WalkStep::Done(None) => true,
            },
    {
        let c = match content {
            Some(c) => c,
            None => {
                return WalkStep::Done(None);
            },
        };
        if !from_me(c, my_aci) {
            return WalkStep::Done(None);
        }
        match data_message(c) {
            Some((Some(t), _)) => if self.left > 1 {
                WalkStep::Next(RootWalk { ts: t, left: self.left - 1 })
            } else {
                assert forall|store: spec_fn(u64) -> Option<Content>|
                    store(self.ts) == Some(*c) implies (
                #[trigger] root_from(store, my_aci, placeholder@, self.ts, self.left as nat))
                    is None by {
                    reveal_with_fuel(root_from, 2);
                }
                WalkStep::Done(None)
            },
            Some((None, dm)) => {
                let matches = match &dm.body {
                    Some(b) => same_text(b, placeholder),
                    None => false,
                };
                if matches {
                    WalkStep::Done(Some(self.ts))
                } else {
                    WalkStep::Done(None)
                }
            },
            None => WalkStep::Done(None),
        }
    }
}

/// The message at `ts` is one of ours, and edits the one at `target`.
pub open spec fn edits(
    store: spec_fn(u64) -> Option<Content>,
    my_aci: u128,
    ts: u64,
    target: u64,
) -> bool {
    match store(ts) {
        Some(c) => ours(c, my_aci) && match revision(c) {
            Some((Some(t), _)) => t == target,
            _ => false,
        },
        None => false,
    }
}

/// The message at `ts` is our placeholder.
pub open spec fn is_placeholder(
    store: spec_fn(u64) -> Option<Content>,
    my_aci: u128,
    placeholder: Seq<char>,
    ts: u64,
) -> bool {
    match store(ts) {
        Some(c) => ours(c, my_aci) && match revision(c) {
            Some((None, dm)) => says(dm, placeholder),
            _ => false,
        },
        None => false,
    }
}

/// Every revision of one of our answers leads to its placeholder, however it is
/// addressed: `chain` is the placeholder and its edits, each of the one before.
pub proof fn law_revisions_lead_to_the_root(
    store: spec_fn(u64) -> Option<Content>,
    my_aci: u128,
    placeholder: Seq<char>,
    chain: Seq<u64>,
    left: nat,
)
    requires
        0 < chain.len() <= left,
        is_placeholder(store, my_aci, placeholder, chain[0]),
        forall|i: int|
            0 < i < chain.len() ==> edits(store, my_aci, #[trigger] chain[i], chain[i - 1]),
    ensures
        root_from(store, my_aci, placeholder, chain.last(), left) == Some(chain[0]),
    decreases chain.len(),
{
    if chain.len() > 1 {
        let head = chain.drop_last();
        let n = chain.len() - 1;
        assert(edits(store, my_aci, chain[n], chain[n - 1]));
        assert forall|i: int| 0 < i < head.len() implies edits(
            store,
            my_aci,
            #[trigger] head[i],
            head[i - 1],
        ) by {
            assert(head[i] == chain[i] && head[i - 1] == chain[i - 1]);
        }
        law_revisions_lead_to_the_root(store, my_aci, placeholder, head, (left - 1) as nat);
        assert(head.last() == chain[n - 1]);
    }
}

// ---------------------------------------------------------------------------
// revisions

/// One revision of a message (original or edit).
pub struct Version {
    pub own_ts: u64,
    pub target: Option<u64>,
    pub is_ai: bool,
    pub speaker: String,
    pub reply_to: Option<ReplyRef>,
    pub body: String,
    pub atts: Vec<Attachment>,
}

/// The mathematical model of a revision.
pub struct VersionV {
    pub own_ts: u64,
    pub target: Option<u64>,
    pub is_ai: bool,
    pub speaker: Seq<char>,
    pub reply_to: Option<ReplyRefV>,
    pub body: Seq<char>,
    pub atts: Seq<AttachmentV>,
}

impl View for Version {
    type V = VersionV;

    open spec fn view(&self) -> VersionV {
        VersionV {
            own_ts: self.own_ts,
            target: self.target,
            is_ai: self.is_ai,
            speaker: self.speaker@,
            reply_to: reply_opt(self.reply_to),
            body: self.body@,
            atts: attachments(self.atts@),
        }
    }
}

/// What a stored message says of a revision, before any name is looked up.
pub open spec fn version_head(content: Content, my_aci: u128, thinking: Seq<char>) -> Option<
    VersionV,
> {
    match revision(content) {
        Some((target, dm)) => match dm.body {
            Some(body) => if body@.len() == 0 {
                None
            } else {
                Some(
                    VersionV {
                        own_ts: if target is Some {
                            content.envelope_ts
                        } else {
                            content.timestamp
                        },
                        target,
                        is_ai: ours(content, my_aci) && target is None && body@ == thinking,
                        speaker: Seq::empty(),
                        reply_to: None,
                        body: body@,
                        atts: dm_files(dm),
                    },
                )
            },
            None => None,
        },
        None => None,
    }
}

/// Extracts a text version (original or edit) from a stored message: its body as
/// it was sent, without the names of the speaker and of who is replied to.
/// `thinking` is the placeholder text by which the bot's own replies are
/// recognised (they all start life as that placeholder before editing).
///
/// The timestamp of an edit is the *target's*; this revision's own id is its
/// envelope's, so that edit chains link by target instead of orphaning.
pub fn message_version(content: &Content, my_aci: u128, thinking: &str) -> (r: Option<Version>)
    ensures
        match r {
            Some(v) => version_head(*content, my_aci, thinking@) == Some(v@),
            None => version_head(*content, my_aci, thinking@) is None,
        },
{
    let (target, dm) = match data_message(content) {
        Some(p) => p,
        None => {
            return None;
        },
    };
    let body = match &dm.body {
        Some(b) => copy(b),
        None => {
            return None;
        },
    };
    if body.as_str().is_empty() {
        return None;
    }
    let is_ai = from_me(content, my_aci) && target.is_none() && same_text(&body, thinking);
    let own_ts: u64 = if target.is_some() {
        content.envelope_ts
    } else {
        content.timestamp
    };
    let r = Version {
        own_ts,
        target,
        is_ai,
        speaker: String::new(),
        reply_to: None,
        body,
        atts: dm_attachments(dm),
    };
    assert(r.speaker@ =~= Seq::empty());
    Some(r)
}

impl Version {
    /// The revision with the names filled in: the body with its mentions
    /// resolved, the speaker, and who is replied to.
    pub fn named(self, body: String, speaker: String, reply_to: Option<ReplyRef>) -> (r: Version)
        ensures
            r@ == (VersionV {
                body: body@,
                speaker: speaker@,
                reply_to: reply_opt(reply_to),
                ..self@
            }),
    {
        Version {
            own_ts: self.own_ts,
            target: self.target,
            is_ai: self.is_ai,
            speaker,
            reply_to,
            body,
            atts: self.atts,
        }
    }
}

/// The text that a quote repeats.
pub fn quote_text(quote: &Quote) -> (r: String)
    ensures
        r@ == (match quote.text {
            Some(t) => t@,
            None => Seq::empty(),
        }),
{
    match &quote.text {
        Some(t) => copy(t),
        None => {
            let r = String::new();
            assert(r@ =~= Seq::empty());
            r
        },
    }
}

/// What a message replies to: the quoted message with its author's name, its text with
/// the mentions resolved, and whether it is one of the bot's own replies.
pub fn reply_ref(quote: &Quote, author: String, text: String, root: Option<u64>) -> (r: ReplyRef)
    ensures
        r@ == (ReplyRefV { author: author@, text: text@, ts: quote.id, is_ai: root is Some }),
{
    ReplyRef { author, text, ts: quote.id, is_ai: root.is_some() }
}

// ---------------------------------------------------------------------------
// what the trigger asks for

/// The digits that a text begins with.
pub open spec fn leading_digits(s: Seq<char>) -> Seq<char>
    decreases s.len(),
{
    if s.len() > 0 && is_digit(s[0]) {
        seq![s[0]] + leading_digits(s.skip(1))
    } else {
        Seq::empty()
    }
}

/// How many messages of context a prompt asks for: the number right behind the
/// first trigger in it.
pub open spec fn asked_context(text: Seq<char>, trigger: Seq<char>) -> Option<nat> {
    match find(text, trigger) {
        Some(i) => unsigned(leading_digits(text.skip(i + trigger.len())), usize::MAX as nat),
        None => None,
    }
}

/// The digits that a text begins with are all of them up to another character.
pub proof fn lemma_leading_digits(s: Seq<char>, n: int)
    requires
        0 <= n <= s.len(),
        forall|i: int| 0 <= i < n ==> is_digit(#[trigger] s[i]),
        n == s.len() || !is_digit(s[n]),
    ensures
        leading_digits(s) == s.take(n),
    decreases n,
{
    if n > 0 {
        assert(is_digit(s[0]));
        assert forall|i: int| 0 <= i < n - 1 implies is_digit(#[trigger] s.skip(1)[i]) by {
            assert(s.skip(1)[i] == s[i + 1]);
        }
        lemma_leading_digits(s.skip(1), n - 1);
        assert(seq![s[0]] + s.skip(1).take(n - 1) =~= s.take(n));
    } else {
        assert(s.take(0) =~= Seq::empty());
    }
}

/// `@ai2` asks for a shorter window than the configured one.
pub fn requested_context(text: &str, trigger: &str) -> (r: Option<usize>)
    ensures
        match r {
            Some(n) => asked_context(text@, trigger@) == Some(n as nat),
            None => asked_context(text@, trigger@) is None,
        },
{
    let cs = chars_of(text);
    let pat = chars_of(trigger);
    let at = match find_chars(&cs, &pat, 0) {
        Some(i) => i,
        None => {
            return None;
        },
    };
    proof {
        crate::text::lemma_find_from(cs@, pat@, 0);
    }
    let from: usize = at + pat.len();
    let mut end: usize = from;
    while end < cs.len() && '0' <= cs[end] && cs[end] <= '9'
        invariant
            from <= end <= cs@.len(),
            forall|i: int| from <= i < end ==> is_digit(#[trigger] cs@[i]),
        ensures
            from <= end <= cs@.len(),
            forall|i: int| from <= i < end ==> is_digit(#[trigger] cs@[i]),
            end == cs@.len() || !is_digit(cs@[end as int]),
        decreases cs@.len() - end,
    {
        end += 1;
    }
    let run = string_between(&cs, from, end);
    proof {
        let rest = cs@.skip(from as int);
        assert forall|i: int| 0 <= i < end - from implies is_digit(#[trigger] rest[i]) by {
            assert(rest[i] == cs@[from + i]);
        }
        if end < cs@.len() {
            assert(rest[end - from] == cs@[end as int]);
        }
        lemma_leading_digits(rest, end - from);
        assert(run@ =~= rest.take(end - from));
    }
    match parse_unsigned(&run, usize::MAX as u64) {
        Some(n) => Some(n as usize),
        None => None,
    }
}

// ---------------------------------------------------------------------------
// laws

/// The author of a quote is the account that its text names; only where that says nothing
/// do the bytes count, sixteen of them.
pub proof fn law_who_is_quoted(q: Quote, u: u128)
    ensures
        q.author_aci is Some && uuid_value(q.author_aci->0@) == Some(u) ==> quote_author(q) == Some(
            u,
        ),
        (q.author_aci is None || uuid_value(q.author_aci->0@) is None) && q.author_aci_binary is Some
            && q.author_aci_binary->0@.len() == 16 ==> quote_author(q) == Some(
            be_value(q.author_aci_binary->0@) as u128,
        ),
        (q.author_aci is None || uuid_value(q.author_aci->0@) is None) && (
        q.author_aci_binary is None || q.author_aci_binary->0@.len() != 16) ==> quote_author(
            q,
        ) is None,
{
}

/// A range mentions the account that its text or its sixteen bytes name; a style mentions
/// nobody.
pub proof fn law_who_is_mentioned(start: Option<u32>, s: Seq<char>, b: Seq<u8>)
    ensures
        mentioned(
            BodyRangeV { start, associated_value: Some(RangeValueV::MentionAci(s)) },
        ) == uuid_value(s),
        b.len() == 16 ==> mentioned(
            BodyRangeV { start, associated_value: Some(RangeValueV::MentionAciBinary(b)) },
        ) == Some(be_value(b) as u128),
        b.len() != 16 ==> mentioned(
            BodyRangeV { start, associated_value: Some(RangeValueV::MentionAciBinary(b)) },
        ) is None,
        mentioned(BodyRangeV { start, associated_value: Some(RangeValueV::Style) }) is None,
        mentioned(BodyRangeV { start, associated_value: None }) is None,
{
}

/// Every range that mentions an account at some place counts, and no other does.
pub proof fn law_all_mentions_count(rs: Seq<BodyRangeV>, r: BodyRangeV)
    ensures
        mentions_in(Seq::empty()).len() == 0,
        r.start is Some && mentioned(r) is Some ==> mentions_in(rs.push(r)) == mentions_in(rs).push(
            (r.start->0, mentioned(r)->0),
        ),
        r.start is None || mentioned(r) is None ==> mentions_in(rs.push(r)) == mentions_in(rs),
{
    assert(rs.push(r).drop_last() =~= rs);
}

/// A new mention stands behind those with the same start, and before those with a later
/// one.
pub proof fn law_later_mentions_stand_behind(s: Seq<(u32, u128)>, x: (u32, u128), n: int)
    requires
        0 <= n <= s.len(),
        forall|i: int| 0 <= i < n ==> (#[trigger] s[i]).0 <= x.0,
        forall|i: int| n <= i < s.len() ==> (#[trigger] s[i]).0 > x.0,
    ensures
        placed(s, x) == s.take(n) + seq![x] + s.skip(n),
{
    lemma_placed(s, x, n);
    assert(s.insert(n, x) =~= s.take(n) + seq![x] + s.skip(n));
}

/// A body with a placeholder needs the names of all that it mentions, from left to right;
/// one without needs none.
pub proof fn law_names_are_needed_for_placeholders(
    body: Seq<char>,
    rs: Seq<BodyRangeV>,
    at: int,
    i: int,
)
    ensures
        0 <= at < body.len() && body[at] == '\u{FFFC}' ==> needed_names(body, rs).len()
            == mentions_of(rs).len() && (0 <= i < mentions_of(rs).len() ==> needed_names(
            body,
            rs,
        )[i] == mentions_of(rs)[i].1),
        (forall|k: int| 0 <= k < body.len() ==> #[trigger] body[k] != '\u{FFFC}') ==> needed_names(
            body,
            rs,
        ).len() == 0,
{
    if 0 <= at < body.len() && body[at] == '\u{FFFC}' {
        assert(body.contains(body[at]));
    }
}

proof fn lemma_spliced_in_two(x: Seq<char>, y: Seq<char>, names: Seq<Seq<char>>, n: int)
    requires
        n == (if placeholders(x) <= names.len() {
            placeholders(x) as int
        } else {
            names.len() as int
        }),
    ensures
        placeholders(x + y) == placeholders(x) + placeholders(y),
        spliced(x + y, names) == spliced(x, names) + spliced(y, names.skip(n)),
    decreases y.len(),
{
    if y.len() == 0 {
        assert(x + y =~= x);
        assert(spliced(x, names) + spliced(y, names.skip(n)) =~= spliced(x, names));
    } else {
        let head = y.drop_last();
        assert((x + y).drop_last() =~= x + head);
        assert((x + y).last() == y.last());
        lemma_spliced_in_two(x, head, names, n);
        let rest = spliced(x, names);
        let more = spliced(head, names.skip(n));
        let k = placeholders(x + head);
        if y.last() == MENTION && k < names.len() {
            assert(n == placeholders(x));
            assert(names.skip(n)[placeholders(head) as int] == names[k as int]);
            let name = names[k as int];
            assert(rest + more + "@["@ + name + "]"@ =~= rest + (more + "@["@ + name + "]"@));
        } else {
            assert((rest + more).push(y.last()) =~= rest + more.push(y.last()));
        }
    }
}

/// The first placeholder in a body gives way to the first name, set in brackets behind an
/// at sign, and the rest of the body takes the other names; where no name is left it stays.
pub proof fn law_placeholders_take_the_names_in_turn(
    before: Seq<char>,
    after: Seq<char>,
    name: Seq<char>,
    names: Seq<Seq<char>>,
)
    requires
        forall|i: int| 0 <= i < before.len() ==> #[trigger] before[i] != '\u{FFFC}',
    ensures
        spliced(before, names) == before,
        spliced(before + seq!['\u{FFFC}'] + after, seq![name] + names) == before + "@["@ + name
            + "]"@ + spliced(after, names),
        spliced(before + seq!['\u{FFFC}'] + after, Seq::empty()) == before + seq!['\u{FFFC}']
            + spliced(after, Seq::empty()),
{
    let one = seq!['\u{FFFC}'];
    let all = seq![name] + names;
    let none = Seq::<Seq<char>>::empty();
    assert(!before.contains(MENTION));
    law_plain_body_is_kept(before, names);
    law_plain_body_is_kept(before, all);
    law_plain_body_is_kept(before, none);
    lemma_no_placeholders(before);
    assert(one.drop_last() =~= Seq::empty());
    assert(placeholders(Seq::empty()) == 0);
    assert(placeholders(one) == 1);
    lemma_spliced_in_two(before, one, all, 0);
    lemma_spliced_in_two(before, one, none, 0);
    assert(all.skip(0) =~= all);
    assert(none.skip(0) =~= none);
    assert(spliced(Seq::<char>::empty(), all) =~= Seq::<char>::empty());
    assert(spliced(one, all) =~= "@["@ + name + "]"@);
    assert(spliced(Seq::<char>::empty(), none) =~= Seq::<char>::empty());
    assert(spliced(one, none) =~= one);
    lemma_spliced_in_two(before + one, after, all, 1);
    lemma_spliced_in_two(before + one, after, none, 0);
    assert(all.skip(1) =~= names);
    assert(before + ("@["@ + name + "]"@) =~= before + "@["@ + name + "]"@);
}

proof fn lemma_no_placeholders(body: Seq<char>)
    requires
        forall|i: int| 0 <= i < body.len() ==> #[trigger] body[i] != MENTION,
    ensures
        placeholders(body) == 0,
    decreases body.len(),
{
    if body.len() > 0 {
        lemma_no_placeholders(body.drop_last());
    }
}

/// The pictures among attachments are all those whose type says that they are, in their
/// order.
pub proof fn law_all_pictures_are_taken(atts: Seq<AttachmentV>)
    ensures
        pictures(atts) == atts.filter(|a: AttachmentV| begins(a.mime(), "image/"@)),
    decreases atts.len(),
{
    reveal(Seq::filter);
    if atts.len() > 0 {
        law_all_pictures_are_taken(atts.drop_last());
    }
}

/// The files of a message are its attachments, each in its place, and a sticker's image
/// behind them.
pub proof fn law_all_files_are_taken(dm: DataMessage, i: int)
    ensures
        dm_files(dm).len() == dm.attachments@.len() + (if dm.sticker is Some {
            1int
        } else {
            0
        }),
        0 <= i < dm.attachments@.len() ==> dm_files(dm)[i] == dm.attachments@[i]@,
        dm.sticker is Some ==> dm_files(dm).last() == dm.sticker->0@,
{
}

/// Every thumbnail that there is counts, in its order.
pub proof fn law_all_thumbnails_are_taken(thumbs: Seq<Option<Attachment>>, a: Attachment)
    ensures
        embedded(Seq::empty()).len() == 0,
        embedded(thumbs.push(Some(a))) == embedded(thumbs).push(a@),
        embedded(thumbs.push(None)) == embedded(thumbs),
{
    assert(thumbs.push(Some(a)).drop_last() =~= thumbs);
    assert(thumbs.push(None).drop_last() =~= thumbs);
}

/// A message that belongs to a chat and has a body is taken in whole: what it says, what
/// it quotes, and all that is attached to it. It may be received, or sent by another device.
pub proof fn law_a_message_is_taken_in_whole(c: Content, dm: DataMessage)
    requires
        c.body == ContentBody::DataMessage(dm) || (c.body matches ContentBody::SynchronizeMessage(
            Some(sent),
        ) && sent.message == Some(dm)),
    ensures
        extracted(c) is Some <==> c.thread is Some && dm.body is Some,
        extracted(c) is Some ==> {
            let t = extracted(c)->0;
            &&& t.thread == c.thread->0
            &&& t.body == dm.body->0@
            &&& t.own_atts == dm_files(dm)
            &&& t.body_ranges == ranges(dm.body_ranges@)
            &&& dm.quote is None ==> t.quoted_text is None && t.quoted_ts is None
                && t.quoted_author is None && t.quoted_thumbnails.len() == 0
            &&& dm.quote is Some ==> t.quoted_ts == dm.quote->0.id && t.quoted_author
                == quote_author(dm.quote->0) && t.quoted_thumbnails == embedded(
                dm.quote->0.thumbnails@,
            )
            &&& dm.quote is Some && dm.quote->0.text is Some && dm.quote->0.text->0@.len() > 0
                ==> t.quoted_text == Some(dm.quote->0.text->0@)
            &&& dm.quote is Some && (dm.quote->0.text is None || dm.quote->0.text->0@.len() == 0)
                ==> t.quoted_text is None
        },
{
}

/// What holds no message that is new, such as an edit, summons nobody.
pub proof fn law_only_new_messages_are_taken_in(c: Content)
    requires
        c.body is Other || c.body is EditMessage || c.body == ContentBody::SynchronizeMessage(None)
            || (c.body matches ContentBody::SynchronizeMessage(Some(sent)) && sent.message is None),
    ensures
        extracted(c) is None,
{
}

/// A message is a revision of its own, an edit one of the message that it targets, whether
/// received or sent by another device.
pub proof fn law_what_is_a_revision(c: Content, dm: DataMessage, e: EditMessage, target: u64)
    ensures
        c.body == ContentBody::DataMessage(dm) ==> revision(c) == Some((None::<u64>, dm)),
        c.body matches ContentBody::SynchronizeMessage(Some(sent)) && sent.message == Some(dm)
            ==> revision(c) == Some((None::<u64>, dm)),
        (c.body == ContentBody::EditMessage(e) || (c.body matches ContentBody::SynchronizeMessage(
            Some(sent),
        ) && sent.message is None && sent.edit_message == Some(e))) && e.target_sent_timestamp
            == Some(target) && e.data_message == Some(dm) ==> revision(c) == Some(
            (Some(target), dm),
        ),
        (c.body == ContentBody::EditMessage(e) || (c.body matches ContentBody::SynchronizeMessage(
            Some(sent),
        ) && sent.message is None && sent.edit_message == Some(e))) && (
        e.target_sent_timestamp is None || e.data_message is None) ==> revision(c) is None,
        c.body is Other || c.body == ContentBody::SynchronizeMessage(None) ==> revision(c) is None,
{
}

/// What another device of ours has sent is ours, and so is what our account has sent;
/// nothing else is.
pub proof fn law_what_is_ours(c: Content, my_aci: u128)
    ensures
        c.body is SynchronizeMessage ==> ours(c, my_aci),
        c.sender == ServiceId::Aci(my_aci) ==> ours(c, my_aci),
        ours(c, my_aci) && !(c.body is SynchronizeMessage) ==> c.sender == ServiceId::Aci(my_aci)
            || c.sender == ServiceId::Pni(my_aci),
{
}

/// A stored message that says something is told as it stands, with all its files: an edit
/// under the time of its envelope, any other under its own. It is an answer in the making
/// where it is ours, new, and says that we are thinking.
pub proof fn law_a_revision_is_told_in_full(
    c: Content,
    my_aci: u128,
    thinking: Seq<char>,
    target: Option<u64>,
    dm: DataMessage,
)
    requires
        revision(c) == Some((target, dm)),
    ensures
        dm.body is None || dm.body->0@.len() == 0 ==> version_head(c, my_aci, thinking) is None,
        dm.body is Some && dm.body->0@.len() > 0 ==> {
            let v = version_head(c, my_aci, thinking);
            &&& v is Some
            &&& v->0.body == dm.body->0@
            &&& v->0.target == target
            &&& v->0.atts == dm_files(dm)
            &&& target is Some ==> v->0.own_ts == c.envelope_ts && !v->0.is_ai
            &&& target is None ==> v->0.own_ts == c.timestamp && (v->0.is_ai <==> (
            c.body is SynchronizeMessage || c.sender.uuid() == my_aci) && dm.body->0@ == thinking)
        },
{
}

/// What is no revision is told as none.
pub proof fn law_nothing_else_is_a_revision(c: Content, my_aci: u128, thinking: Seq<char>)
    requires
        revision(c) is None,
    ensures
        version_head(c, my_aci, thinking) is None,
{
}

/// Only our own placeholder is ever taken for the root of an answer.
pub proof fn law_a_root_is_our_placeholder(
    store: spec_fn(u64) -> Option<Content>,
    my_aci: u128,
    placeholder: Seq<char>,
    ts: u64,
    left: nat,
)
    ensures
        root_from(store, my_aci, placeholder, ts, left) matches Some(root) ==> {
            &&& store(root) is Some
            &&& store(root)->0.body is SynchronizeMessage || store(root)->0.sender.uuid() == my_aci
            &&& revision(store(root)->0) matches Some((None, dm)) && dm.body is Some
                && dm.body->0@ == placeholder
        },
        store(ts) is None ==> root_from(store, my_aci, placeholder, ts, left) is None,
        store(ts) is Some && !(store(ts)->0.body is SynchronizeMessage) && store(
            ts,
        )->0.sender.uuid() != my_aci ==> root_from(store, my_aci, placeholder, ts, left) is None,
    decreases left,
{
    if left > 0 {
        if let Some(content) = store(ts) {
            if ours(content, my_aci) {
                if let Some((Some(t), _)) = revision(content) {
                    law_a_root_is_our_placeholder(
                        store,
                        my_aci,
                        placeholder,
                        t,
                        (left - 1) as nat,
                    );
                }
            }
        }
    }
}

} // verus!
