//! The turn of the message that summons the bot.
use vstd::prelude::*;

use crate::attachment::{attachments, lemma_attachments_push, Attachment, AttachmentV};
use crate::config::Config;
use crate::json::Json;
use crate::media::{pairs, Media, MediaV};
use crate::message::{reply_opt, ReplyRef, ReplyRefV, Trigger, TriggerV};
use crate::text::{copy, copy_opt, trim, trimmed};
use crate::tools::{all_entered, announcement, same_file, Inline};
use crate::transcript::{user_line, user_turn, user_turn_value, with_note, Transcript, TranscriptV};

verus! {

/// Stands in for a replied-to attachment that the store no longer has.
pub open spec fn missing_quoted() -> Seq<char> {
    "[the attachment on the message being replied to is no longer available]"@
}

/// What a message replies to, where it is a reply.
pub open spec fn replied_to(t: TriggerV, author: Seq<char>, reply_to_ai: bool) -> Option<
    ReplyRefV,
> {
    if t.is_reply() {
        Some(
            ReplyRefV {
                author,
                text: match t.quoted_text {
                    Some(s) => s,
                    None => Seq::empty(),
                },
                ts: t.quoted_ts,
                is_ai: reply_to_ai,
            },
        )
    } else {
        None
    }
}

/// What a message replies to, where it is a reply.
pub fn reply_of(trigger: &Trigger, author: String, reply_to_ai: bool) -> (r: Option<ReplyRef>)
    ensures
        reply_opt(r) == replied_to(trigger@, author@, reply_to_ai),
{
    if !trigger.is_reply() {
        return None;
    }
    let text = match copy_opt(&trigger.quoted_text) {
        Some(s) => s,
        None => {
            let empty = String::new();
            assert(empty@ =~= Seq::empty());
            empty
        },
    };
    Some(ReplyRef { author, text, ts: trigger.quoted_ts, is_ai: reply_to_ai })
}

/// Where the media of the message that is replied to comes from.
#[derive(Clone, Copy, PartialEq, Eq, Structural)]
pub enum QuoteSource {
    /// this conversation already carries it
    Inlined(u64),
    /// the stored message, falling back to the quote's thumbnails
    Store(u64),
    /// the quote's thumbnails alone
    Thumbnails,
    Nothing,
}

/// Where the media of the message that is replied to comes from.
pub open spec fn source_of(cfg: Config, t: TriggerV, inlined: Set<u64>) -> QuoteSource {
    match t.quoted_ts {
        Some(ts) => if inlined.contains(ts) {
            QuoteSource::Inlined(ts)
        } else {
            QuoteSource::Store(ts)
        },
        None => if cfg.vision && t.quoted_thumbnails.len() > 0 {
            QuoteSource::Thumbnails
        } else {
            QuoteSource::Nothing
        },
    }
}

/// The messages that have their media inline, once that of the message at `ts` is
/// there.
pub open spec fn inlined_with(inlined: Set<u64>, ts: u64, own: MediaV) -> Set<u64> {
    if own.is_empty() {
        inlined
    } else {
        inlined.insert(ts)
    }
}

/// Where the media of the message that is replied to comes from, once the message's
/// own media is there.
pub fn quote_source(
    cfg: &Config,
    transcript: &Transcript,
    trigger: &Trigger,
    trigger_ts: u64,
    own: &Media,
) -> (r: QuoteSource)
    ensures
        r == source_of(*cfg, trigger@, inlined_with(transcript@.inlined, trigger_ts, own@)),
{
    match trigger.quoted_ts {
        Some(ts) => if transcript.is_inlined(ts) || (ts == trigger_ts && !own.is_empty()) {
            QuoteSource::Inlined(ts)
        } else {
            QuoteSource::Store(ts)
        },
        None => if cfg.vision && trigger.quoted_thumbnails.len() > 0 {
            QuoteSource::Thumbnails
        } else {
            QuoteSource::Nothing
        },
    }
}

/// One of `own` is the same file as `a`.
pub open spec fn carried(own: Seq<AttachmentV>, a: AttachmentV) -> bool {
    exists|i: int| 0 <= i < own.len() && (#[trigger] own[i]).same_file(a)
}

/// The stored attachments that this turn does not carry anyway, in order.
pub open spec fn fresh_files(own: Seq<AttachmentV>, stored: Seq<AttachmentV>) -> Seq<AttachmentV>
    decreases stored.len(),
{
    if stored.len() == 0 {
        Seq::empty()
    } else {
        let rest = fresh_files(own, stored.drop_last());
        if carried(own, stored.last()) {
            rest
        } else {
            rest.push(stored.last())
        }
    }
}

/// The stored attachments to fetch: a file attached to both messages is already
/// encoded in this turn.
pub fn fresh(own_atts: &[Attachment], stored: &[Attachment]) -> (r: Vec<Attachment>)
    ensures
        attachments(r@) == fresh_files(attachments(own_atts@), attachments(stored@)),
{
    broadcast use lemma_attachments_push;

    let ghost own = attachments(own_atts@);
    let ghost all = attachments(stored@);
    let mut out: Vec<Attachment> = Vec::new();
    assert(all.take(0) =~= Seq::empty());
    assert(attachments(out@) =~= Seq::empty());
    for i in 0..stored.len()
        invariant
            own == attachments(own_atts@),
            all == attachments(stored@),
            attachments(out@) == fresh_files(own, all.take(i as int)),
    {
        assert(all.take(i + 1).drop_last() =~= all.take(i as int));
        let mut known = false;
        for j in 0..own_atts.len()
            invariant
                own == attachments(own_atts@),
                i < stored@.len(),
                known == exists|k: int|
                    0 <= k < j && (#[trigger] own[k]).same_file(stored@[i as int]@),
        {
            assert(own[j as int] == own_atts@[j as int]@);
            if same_file(&own_atts[j], &stored[i]) {
                known = true;
            }
        }
        assert(known == carried(own, all[i as int]));
        if !known {
            out.push(stored[i].copy());
        }
    }
    assert(all.take(all.len() as int) =~= all);
    out
}

/// The quote's thumbnails stand in for what the store gave no image of, unless the
/// turn carries one of the files anyway.
pub open spec fn thumbs_stand_in(
    cfg: Config,
    own: Seq<AttachmentV>,
    stored: Seq<AttachmentV>,
    quoted: MediaV,
) -> bool {
    cfg.vision && quoted.images.len() == 0 && fresh_files(own, stored).len() == stored.len()
}

/// Are the quote's thumbnails to be fetched? A quote only ever embeds still-image
/// thumbnails, so audio has no such fallback.
pub fn needs_thumbnails(
    cfg: &Config,
    own_atts: &[Attachment],
    stored: &[Attachment],
    quoted: &Media,
) -> (r: bool)
    ensures
        r == thumbs_stand_in(*cfg, attachments(own_atts@), attachments(stored@), quoted@),
{
    let left = fresh(own_atts, stored);
    assert(left@.len() == attachments(left@).len());
    cfg.vision && quoted.images.len() == 0 && left.len() == stored.len()
}

/// What was fetched for a turn.
pub struct TurnMedia {
    /// the message's own media
    pub own: Media,
    /// what came attached to the message that is replied to, as the store has it
    pub stored: Vec<Attachment>,
    /// the media of those of them that the turn does not carry anyway
    pub quoted: Media,
    /// the quote's thumbnails as images
    pub thumbs: Vec<(String, String)>,
}

/// The mathematical model of what was fetched for a turn.
pub struct TurnMediaV {
    pub own: MediaV,
    pub stored: Seq<AttachmentV>,
    pub quoted: MediaV,
    pub thumbs: Seq<(Seq<char>, Seq<char>)>,
}

impl View for TurnMedia {
    type V = TurnMediaV;

    open spec fn view(&self) -> TurnMediaV {
        TurnMediaV {
            own: self.own@,
            stored: attachments(self.stored@),
            quoted: self.quoted@,
            thumbs: pairs(self.thumbs@),
        }
    }
}

/// What a summoning message comes to: its text with the notes on attachments, the
/// media it carries, and the transcript after it.
#[verifier::ext_equal]
pub struct TurnV {
    pub text: Seq<char>,
    pub media: MediaV,
    pub transcript: TranscriptV,
}

impl TurnV {
    /// With the stored attachments listed as shown.
    pub open spec fn listing(self, cfg: Config, stored: Seq<AttachmentV>) -> TurnV {
        TurnV {
            text: with_note(
                self.text,
                announcement(cfg, self.transcript.catalog, stored, Inline::Shown),
            ),
            transcript: self.transcript.announcing(stored),
            ..self
        }
    }

    /// With the media of the message at `ts`, which is replied to.
    pub open spec fn quoting(self, ts: u64, quoted: MediaV) -> TurnV {
        TurnV {
            media: self.media.and(quoted),
            transcript: if quoted.is_empty() {
                self.transcript
            } else {
                self.transcript.inlining(ts)
            },
            ..self
        }
    }

    /// With a note that the attachment is gone, where that is so.
    pub open spec fn noting(self, gone: bool) -> TurnV {
        TurnV {
            text: if gone {
                with_note(self.text, missing_quoted())
            } else {
                self.text
            },
            ..self
        }
    }

    /// With these images behind the others.
    pub open spec fn showing(self, images: Seq<(Seq<char>, Seq<char>)>) -> TurnV {
        TurnV { media: MediaV { images: self.media.images + images, ..self.media }, ..self }
    }
}

/// The message itself: its text, its own attachments listed as shown, and its own
/// media.
pub open spec fn own_turn(
    cfg: Config,
    before: TranscriptV,
    sender: Seq<char>,
    t: TriggerV,
    ts: u64,
    reply_to: Option<ReplyRefV>,
    own: MediaV,
) -> TurnV {
    let numbered = before.numbering(ts);
    let line = user_line(numbered.numbers, ts, sender, reply_to, trimmed(t.body));
    let listed = numbered.announcing(t.own_atts);
    TurnV {
        text: with_note(line, announcement(cfg, numbered.catalog, t.own_atts, Inline::Shown)),
        media: own,
        transcript: if own.is_empty() {
            listed
        } else {
            listed.inlining(ts)
        },
    }
}

/// The media of the message that is replied to: what was fetched of it, with the
/// quote's thumbnails for images where they stand in.
pub open spec fn quoted_media(cfg: Config, t: TriggerV, fetched: TurnMediaV) -> MediaV {
    if thumbs_stand_in(cfg, t.own_atts, fetched.stored, fetched.quoted) {
        MediaV { images: fetched.thumbs, ..fetched.quoted }
    } else {
        fetched.quoted
    }
}

/// The message that is replied to had an attachment, and nothing is left of it. A
/// quote embeds a thumbnail per attachment, so it shows that one was there even when
/// the message itself is gone from the store.
pub open spec fn quoted_is_gone(cfg: Config, t: TriggerV, fetched: TurnMediaV) -> bool {
    &&& quoted_media(cfg, t, fetched).is_empty()
    &&& fetched.stored.len() > 0 || t.quoted_thumbnails.len() > 0
    &&& fresh_files(t.own_atts, fetched.stored).len() == fetched.stored.len()
}

/// What a summoning message comes to.
pub open spec fn turn_of(
    cfg: Config,
    before: TranscriptV,
    sender: Seq<char>,
    t: TriggerV,
    ts: u64,
    reply_to: Option<ReplyRefV>,
    fetched: TurnMediaV,
) -> TurnV {
    let own = own_turn(cfg, before, sender, t, ts, reply_to, fetched.own);
    match source_of(cfg, t, own.transcript.inlined) {
        QuoteSource::Inlined(_) => own.listing(cfg, fetched.stored),
        QuoteSource::Store(q) => own.listing(cfg, fetched.stored).noting(
            quoted_is_gone(cfg, t, fetched),
        ).quoting(q, quoted_media(cfg, t, fetched)),
        QuoteSource::Thumbnails => own.showing(fetched.thumbs),
        QuoteSource::Nothing => own,
    }
}

fn push_note(text: &mut String, note: &str)
    ensures
        final(text)@ == with_note(old(text)@, note@),
{
    if !note.is_empty() {
        text.append("\n");
        text.append(note);
    }
}

/// The final `user` turn for the triggering message: its text plus its own
/// attachments. The quoted message's media rides along too, as a reply is the
/// clearest signal that it matters, unless this conversation already carries it
/// inline, in which case the annotation points back at the copy that is there.
///
/// The trigger stays in the text so that this turn matches the past trigger messages
/// in context rather than looking stripped.
pub fn trigger_turn(
    cfg: &Config,
    transcript: &mut Transcript,
    sender: &str,
    trigger: &Trigger,
    trigger_ts: u64,
    reply_to: Option<&ReplyRef>,
    fetched: TurnMedia,
) -> (r: (Json, Media))
    requires
        old(transcript).wf(),
        old(transcript).room(1),
    ensures
        ({
            let goal = turn_of(
                *cfg,
                old(transcript)@,
                sender@,
                trigger@,
                trigger_ts,
                match reply_to {
                    Some(x) => Some(x@),
                    None => None,
                },
                fetched@,
            );
            &&& r.0@ == user_turn(goal.text, goal.media)
            &&& r.1@ == goal.media
            &&& final(transcript)@ == goal.transcript
        }),
        final(transcript).wf(),
{
    let ghost start = transcript@;
    let ghost reply = match reply_to {
        Some(x) => Some(x@),
        None => None,
    };
    let ghost got = fetched@;
    let mut q = transcript.user_text(trigger_ts, sender, reply_to, &trim(&trigger.body));
    let note = transcript.announce(cfg, &trigger.own_atts, Inline::Shown);
    push_note(&mut q, &note);
    let source = quote_source(cfg, transcript, trigger, trigger_ts, &fetched.own);
    if !fetched.own.is_empty() {
        transcript.mark_inlined(trigger_ts);
    }
    let ghost own = own_turn(*cfg, start, sender@, trigger@, trigger_ts, reply, got.own);
    assert(transcript@ =~= own.transcript);
    assert(q@ == own.text);
    let TurnMedia { own: own_media, stored, quoted, thumbs } = fetched;
    let mut media = own_media;
    match source {
        QuoteSource::Inlined(_) => {
            let note = transcript.announce(cfg, &stored, Inline::Shown);
            push_note(&mut q, &note);
        },
        QuoteSource::Store(ts) => {
            let note = transcript.announce(cfg, &stored, Inline::Shown);
            push_note(&mut q, &note);
            let left = fresh(&trigger.own_atts, &stored);
            assert(left@.len() == attachments(left@).len());
            let overlaps = left.len() < stored.len();
            proof {
                lemma_fresh_len(trigger@.own_atts, got.stored);
            }
            let stand_in = needs_thumbnails(cfg, &trigger.own_atts, &stored, &quoted);
            let mut more = quoted;
            if stand_in {
                more.images = thumbs;
            }
            assert(more@ =~= quoted_media(*cfg, trigger@, got));
            let had_attachment = stored.len() > 0 || trigger.quoted_thumbnails.len() > 0;
            if more.is_empty() && had_attachment && !overlaps {
                proof {
                    reveal_strlit(
                        "[the attachment on the message being replied to is no longer available]",
                    );
                }
                push_note(
                    &mut q,
                    "[the attachment on the message being replied to is no longer available]",
                );
            }
            if !more.is_empty() {
                transcript.mark_inlined(ts);
            }
            media.extend(more);
        },
        QuoteSource::Thumbnails => {
            let mut shown = thumbs;
            let ghost before = media.images@;
            let ghost added = shown@;
            media.images.append(&mut shown);
            assert(pairs(media.images@) =~= pairs(before) + pairs(added));
        },
        QuoteSource::Nothing => {},
    }
    let ghost goal = turn_of(*cfg, start, sender@, trigger@, trigger_ts, reply, got);
    assert(media@ =~= goal.media);
    assert(q@ == goal.text);
    assert(transcript@ =~= goal.transcript);
    (user_turn_value(q, &media), media)
}

proof fn lemma_fresh_len(own: Seq<AttachmentV>, stored: Seq<AttachmentV>)
    ensures
        fresh_files(own, stored).len() <= stored.len(),
    decreases stored.len(),
{
    if stored.len() > 0 {
        lemma_fresh_len(own, stored.drop_last());
    }
}

/// Media is never sent twice: what a conversation already carries of the message
/// that is replied to is not added to the turn again.
pub proof fn law_quoted_media_is_sent_once(
    cfg: Config,
    before: TranscriptV,
    sender: Seq<char>,
    t: TriggerV,
    ts: u64,
    reply_to: Option<ReplyRefV>,
    fetched: TurnMediaV,
)
    requires
        t.quoted_ts is Some,
    ensures
        before.inlined.contains(t.quoted_ts->0) ==> turn_of(
            cfg,
            before,
            sender,
            t,
            ts,
            reply_to,
            fetched,
        ).media == fetched.own,
        turn_of(cfg, before, sender, t, ts, reply_to, fetched).media != fetched.own ==> turn_of(
            cfg,
            before,
            sender,
            t,
            ts,
            reply_to,
            fetched,
        ).transcript.inlined.contains(t.quoted_ts->0),
{
    let own = own_turn(cfg, before, sender, t, ts, reply_to, fetched.own);
    let more = quoted_media(cfg, t, fetched);
    if more.is_empty() {
        assert(own.media.and(more) =~= own.media);
    }
}

/// A file that is attached to both messages is not fetched for the quoted one.
pub proof fn law_shared_files_are_not_fetched_again(
    own: Seq<AttachmentV>,
    stored: Seq<AttachmentV>,
    a: AttachmentV,
)
    requires
        fresh_files(own, stored).contains(a),
    ensures
        !carried(own, a),
        stored.contains(a),
    decreases stored.len(),
{
    if stored.len() > 0 {
        let rest = fresh_files(own, stored.drop_last());
        let all = fresh_files(own, stored);
        let i = choose|i: int| 0 <= i < all.len() && all[i] == a;
        if i < rest.len() {
            assert(rest[i] == a);
            law_shared_files_are_not_fetched_again(own, stored.drop_last(), a);
            let k = choose|k: int|
                0 <= k < stored.drop_last().len() && stored.drop_last()[k] == a;
            assert(stored[k] == a);
        } else {
            assert(stored[stored.len() - 1] == a);
        }
    }
}

// ---------------------------------------------------------------------------
// what a summoning message comes to, told by what was fetched for it

/// The message carries this file itself: one of its own attachments has the same digest.
pub open spec fn has_file(own: Seq<AttachmentV>, a: AttachmentV) -> bool {
    exists|i: int| 0 <= i < own.len() && (#[trigger] own[i]).digest is Some && own[i].digest == a.digest
}

proof fn lemma_has_file(own: Seq<AttachmentV>, a: AttachmentV)
    ensures
        has_file(own, a) == carried(own, a),
{
    if carried(own, a) {
        let i = choose|i: int| 0 <= i < own.len() && (#[trigger] own[i]).same_file(a);
        assert(own[i].digest is Some && own[i].digest == a.digest);
    }
    if has_file(own, a) {
        let i = choose|i: int|
            0 <= i < own.len() && (#[trigger] own[i]).digest is Some && own[i].digest == a.digest;
        assert(own[i].same_file(a));
    }
}

/// Of what is attached to the message that is replied to, all is fetched that this
/// message does not carry itself, in order, and nothing else.
pub proof fn law_all_other_files_are_fetched(own: Seq<AttachmentV>, stored: Seq<AttachmentV>)
    ensures
        fresh_files(own, stored) == stored.filter(|a: AttachmentV| !has_file(own, a)),
    decreases stored.len(),
{
    reveal(Seq::filter);
    if stored.len() > 0 {
        law_all_other_files_are_fetched(own, stored.drop_last());
        lemma_has_file(own, stored.last());
    }
}

proof fn lemma_overlap(own: Seq<AttachmentV>, stored: Seq<AttachmentV>)
    ensures
        fresh_files(own, stored).len() <= stored.len(),
        fresh_files(own, stored).len() == stored.len() <==> forall|k: int|
            0 <= k < stored.len() ==> !has_file(own, #[trigger] stored[k]),
    decreases stored.len(),
{
    if stored.len() > 0 {
        let head = stored.drop_last();
        lemma_overlap(own, head);
        lemma_has_file(own, stored.last());
        if forall|k: int| 0 <= k < head.len() ==> !has_file(own, #[trigger] head[k]) {
            if !has_file(own, stored.last()) {
                assert forall|k: int| 0 <= k < stored.len() implies !has_file(
                    own,
                    #[trigger] stored[k],
                ) by {
                    if k < head.len() {
                        assert(head[k] == stored[k]);
                    }
                }
            } else {
                assert(has_file(own, stored[stored.len() - 1]));
            }
        } else {
            let k = choose|k: int| 0 <= k < head.len() && has_file(own, #[trigger] head[k]);
            assert(has_file(own, stored[k]));
        }
    }
}

/// This message carries none of the files of the message that is replied to.
pub open spec fn shares_no_file(own: Seq<AttachmentV>, stored: Seq<AttachmentV>) -> bool {
    forall|k: int| 0 <= k < stored.len() ==> !has_file(own, #[trigger] stored[k])
}

/// The media of the message that is replied to rides along behind the message's own,
/// unless this conversation carries it already: what the store gave of it, and the
/// quote's thumbnails in place of its images where the store gave no image, images can be
/// seen, and the two messages share no file.
pub proof fn law_quoted_media_rides_along(
    cfg: Config,
    before: TranscriptV,
    sender: Seq<char>,
    t: TriggerV,
    ts: u64,
    reply_to: Option<ReplyRefV>,
    fetched: TurnMediaV,
    q: u64,
)
    requires
        t.quoted_ts == Some(q),
        !before.inlined.contains(q),
        q != ts,
    ensures
        ({
            let media = turn_of(cfg, before, sender, t, ts, reply_to, fetched).media;
            &&& media.images == fetched.own.images + (if cfg.vision && fetched.quoted.images.len()
                == 0 && shares_no_file(t.own_atts, fetched.stored) {
                fetched.thumbs
            } else {
                fetched.quoted.images
            })
            &&& media.audio == fetched.own.audio + fetched.quoted.audio
            &&& media.files == fetched.own.files + fetched.quoted.files
        }),
{
    lemma_overlap(t.own_atts, fetched.stored);
}

/// Media that this conversation carries already, or a quote that names no message, brings
/// nothing along but the quote's own thumbnails, where there is no message to look up and
/// images can be seen.
pub proof fn law_nothing_else_rides_along(
    cfg: Config,
    before: TranscriptV,
    sender: Seq<char>,
    t: TriggerV,
    ts: u64,
    reply_to: Option<ReplyRefV>,
    fetched: TurnMediaV,
)
    ensures
        ({
            let media = turn_of(cfg, before, sender, t, ts, reply_to, fetched).media;
            &&& t.quoted_ts is Some && before.inlined.contains(t.quoted_ts->0) ==> media
                == fetched.own
            &&& t.quoted_ts is None && cfg.vision && t.quoted_thumbnails.len() > 0 ==> media.images
                == fetched.own.images + fetched.thumbs && media.audio == fetched.own.audio
                && media.files == fetched.own.files
            &&& t.quoted_ts is None && (!cfg.vision || t.quoted_thumbnails.len() == 0) ==> media
                == fetched.own
        }),
{
}

/// A message counts as carried once the turn carries media of it: the summoning message
/// where it has media of its own, the one replied to where media of it rides along; and
/// no other.
pub proof fn law_carried_media_is_marked(
    cfg: Config,
    before: TranscriptV,
    sender: Seq<char>,
    t: TriggerV,
    ts: u64,
    reply_to: Option<ReplyRefV>,
    fetched: TurnMediaV,
    m: u64,
)
    requires
        t.quoted_ts != Some(ts),
    ensures
        ({
            let turn = turn_of(cfg, before, sender, t, ts, reply_to, fetched);
            let own = fetched.own.images.len() + fetched.own.audio.len() + fetched.own.files.len();
            let all = turn.media.images.len() + turn.media.audio.len() + turn.media.files.len();
            turn.transcript.inlined.contains(m) <==> before.inlined.contains(m) || (m == ts && own
                > 0) || (t.quoted_ts == Some(m) && all > own)
        }),
{
}

/// The text of a turn is the line of the message, then its own attachments, then those of
/// the message that is replied to, each list on a line of its own where there is any; and
/// last, that what was attached there is gone, where it is.
pub proof fn law_a_turn_lists_what_it_carries(
    cfg: Config,
    before: TranscriptV,
    sender: Seq<char>,
    t: TriggerV,
    ts: u64,
    reply_to: Option<ReplyRefV>,
    fetched: TurnMediaV,
)
    ensures
        ({
            let turn = turn_of(cfg, before, sender, t, ts, reply_to, fetched);
            let numbers = turn.transcript.numbers;
            let line = user_line(numbers, ts, sender, reply_to, trimmed(t.body));
            let own = if t.own_atts.len() == 0 {
                line
            } else {
                line + "\n"@ + announcement(cfg, before.catalog, t.own_atts, Inline::Shown)
            };
            let listed = if t.quoted_ts is None || fetched.stored.len() == 0 {
                own
            } else {
                own + "\n"@ + announcement(
                    cfg,
                    all_entered(before.catalog, t.own_atts),
                    fetched.stored,
                    Inline::Shown,
                )
            };
            let gone = quoted_is_gone(cfg, t, fetched);
            &&& t.quoted_ts is None || before.inlined.contains(t.quoted_ts->0) ==> turn.text
                == listed
            &&& t.quoted_ts is Some && t.quoted_ts != Some(ts) && !before.inlined.contains(
                t.quoted_ts->0,
            ) ==> turn.text == (if gone {
                listed + "\n"@
                    + "[the attachment on the message being replied to is no longer available]"@
            } else {
                listed
            })
        }),
{
    reveal_strlit("[attachments: ");
    reveal_strlit("[the attachment on the message being replied to is no longer available]");
    assert("[attachments: "@.len() > 0);
}

/// What was attached to the message that is replied to is gone where there was something,
/// nothing of it could be had, and this message carries none of it itself.
pub proof fn law_what_is_gone(cfg: Config, t: TriggerV, fetched: TurnMediaV)
    ensures
        quoted_is_gone(cfg, t, fetched) <==> {
            &&& fetched.stored.len() > 0 || t.quoted_thumbnails.len() > 0
            &&& shares_no_file(t.own_atts, fetched.stored)
            &&& fetched.quoted.images.len() == 0 && fetched.quoted.audio.len() == 0
                && fetched.quoted.files.len() == 0
            &&& !cfg.vision || fetched.thumbs.len() == 0
        },
{
    lemma_overlap(t.own_atts, fetched.stored);
}

/// The message gets its number and all that is attached to it and to the message that is
/// replied to gets an id.
pub proof fn law_a_turn_gives_addresses(
    cfg: Config,
    before: TranscriptV,
    sender: Seq<char>,
    t: TriggerV,
    ts: u64,
    reply_to: Option<ReplyRefV>,
    fetched: TurnMediaV,
)
    ensures
        ({
            let after = turn_of(cfg, before, sender, t, ts, reply_to, fetched).transcript;
            &&& after.numbers.contains_key(ts)
            &&& before.numbers.contains_key(ts) ==> after.numbers == before.numbers
            &&& !before.numbers.contains_key(ts) ==> after.numbers == before.numbers.insert(
                ts,
                (before.numbers.len() + 1) as usize,
            )
            &&& t.quoted_ts is None ==> after.catalog == all_entered(before.catalog, t.own_atts)
            &&& t.quoted_ts is Some ==> after.catalog == all_entered(
                all_entered(before.catalog, t.own_atts),
                fetched.stored,
            )
        }),
{
}

/// A reply tells whom and what it replies to, as the quote has it, and whether that is the
/// bot; a message that quotes nothing is no reply.
pub proof fn law_a_reply_tells_what_it_replies_to(
    t: TriggerV,
    author: Seq<char>,
    reply_to_ai: bool,
)
    ensures
        ({
            let quotes = t.quoted_text is Some || t.quoted_ts is Some || t.quoted_author is Some
                || t.quoted_thumbnails.len() > 0;
            &&& !quotes ==> replied_to(t, author, reply_to_ai) is None
            &&& quotes ==> replied_to(t, author, reply_to_ai) is Some && ({
                let r = replied_to(t, author, reply_to_ai)->0;
                &&& r.author == author
                &&& r.ts == t.quoted_ts
                &&& r.is_ai == reply_to_ai
                &&& t.quoted_text is Some ==> r.text == t.quoted_text->0
                &&& t.quoted_text is None ==> r.text.len() == 0
            })
        }),
{
}

/// The media of the message that is replied to is looked for in the store, unless the
/// conversation or this very turn shows it already; where it is not known which message
/// that is, the quote's own thumbnails are shown, if there are any and images can be seen.
pub proof fn law_where_quoted_media_is_looked_for(
    cfg: Config,
    t: TriggerV,
    inlined: Set<u64>,
    ts: u64,
    own: MediaV,
    q: u64,
)
    ensures
        ({
            let source = source_of(cfg, t, inlined_with(inlined, ts, own));
            let carries = own.images.len() > 0 || own.audio.len() > 0 || own.files.len() > 0;
            &&& t.quoted_ts == Some(q) && (inlined.contains(q) || (q == ts && carries)) ==> source
                == QuoteSource::Inlined(q)
            &&& t.quoted_ts == Some(q) && !inlined.contains(q) && !(q == ts && carries) ==> source
                == QuoteSource::Store(q)
            &&& t.quoted_ts is None && cfg.vision && t.quoted_thumbnails.len() > 0 ==> source
                == QuoteSource::Thumbnails
            &&& t.quoted_ts is None && (!cfg.vision || t.quoted_thumbnails.len() == 0) ==> source
                == QuoteSource::Nothing
        }),
{
}

} // verus!
