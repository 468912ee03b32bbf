//! The conversation as the model sees it.
use std::collections::{BTreeSet, HashMap};
use vstd::prelude::*;

use crate::ai::{image_part, image_value, law_a_turn_says_who_says_what, text_turn, turn};
use crate::attachment::{attachments, Attachment, AttachmentV};
use crate::config::Config;
use crate::handler::{cut, truncated};
use crate::history::{hist_msgs, HistMsg, HistMsgV};
use crate::json::{jsons, law_two_fields, lemma_jsons_push, Json, JsonV};
use crate::media::{data_uri, Media, MediaV};
use crate::message::{ReplyRef, ReplyRefV};
use crate::text::{
    copy, decimal, decimal_text, law_decimal_is_read_back, replace_char, replaced,
};
use crate::tools::{
    all_entered, announcement, law_ids_are_for_good, lemma_entered_has, Catalog, Inline,
};

verus! {

broadcast use {
    lemma_jsons_push,
    vstd::std_specs::hash::group_hash_axioms,
    vstd::std_specs::btree::group_btree_axioms,
};

/// How much of a quoted message's text is kept when it can't be cited by number.
pub const QUOTE_MAX: usize = 120;

/// The conversation as the model sees it: every message numbered `[msg N]` so that
/// a reply cites the number instead of repeating the quoted text, every attachment
/// numbered `#N` by the catalog, and a record of which messages already have their
/// media inline so that it is never sent twice.
pub struct Transcript {
    pub catalog: Catalog,
    pub numbers: HashMap<u64, usize>,
    pub inlined: BTreeSet<u64>,
}

/// The mathematical model of a transcript.
#[verifier::ext_equal]
pub struct TranscriptV {
    pub catalog: Seq<AttachmentV>,
    pub numbers: Map<u64, usize>,
    pub inlined: Set<u64>,
}

impl View for Transcript {
    type V = TranscriptV;

    open spec fn view(&self) -> TranscriptV {
        TranscriptV {
            catalog: self.catalog@,
            numbers: self.numbers@,
            inlined: self.inlined@,
        }
    }
}

/// The numbering once the message at `ts` has a number: the one it has, or the
/// next.
pub open spec fn numbered(numbers: Map<u64, usize>, ts: u64) -> Map<u64, usize> {
    if numbers.contains_key(ts) {
        numbers
    } else {
        numbers.insert(ts, (numbers.len() + 1) as usize)
    }
}

/// Messages are numbered from 1 on, without gaps, and no two alike.
pub open spec fn well_numbered(numbers: Map<u64, usize>) -> bool {
    &&& numbers.dom().finite()
    &&& forall|ts: u64| #[trigger]
        numbers.contains_key(ts) ==> 1 <= numbers[ts] <= numbers.len()
    &&& forall|a: u64, b: u64|
        #![trigger numbers[a], numbers[b]]
        numbers.contains_key(a) && numbers.contains_key(b) && numbers[a] == numbers[b] ==> a == b
}

/// How a replied-to message is referred to: cited by number when it is already in
/// the array; only a message from outside it needs its text repeating.
pub open spec fn citation(numbers: Map<u64, usize>, r: ReplyRefV) -> Seq<char> {
    if r.is_ai {
        "you"@
    } else if r.ts is Some && numbers.contains_key(r.ts->0) {
        "msg "@ + decimal(numbers[r.ts->0] as nat)
    } else if r.text.len() == 0 {
        r.author
    } else {
        r.author + ": \""@ + cut(replaced(r.text, '\n', ' '), QUOTE_MAX as nat) + "\""@
    }
}

/// A message of someone else's: its number, what it replies to, who says it and
/// what.
pub open spec fn user_line(
    numbers: Map<u64, usize>,
    ts: u64,
    speaker: Seq<char>,
    reply_to: Option<ReplyRefV>,
    body: Seq<char>,
) -> Seq<char> {
    let head = "[msg "@ + decimal(numbers[ts] as nat) + "] "@;
    let replying = match reply_to {
        Some(r) => head + "[in reply to "@ + citation(numbers, r) + "] "@,
        None => head,
    };
    replying + speaker + ": "@ + body
}

/// `text` with a note on a line of its own, where there is one.
pub open spec fn with_note(text: Seq<char>, note: Seq<char>) -> Seq<char> {
    if note.len() > 0 {
        text + "\n"@ + note
    } else {
        text
    }
}

impl TranscriptV {
    /// Nothing has been said yet.
    pub open spec fn empty() -> TranscriptV {
        TranscriptV { catalog: Seq::empty(), numbers: Map::empty(), inlined: Set::empty() }
    }

    /// The transcript once the attachments have ids.
    pub open spec fn announcing(self, atts: Seq<AttachmentV>) -> TranscriptV {
        TranscriptV { catalog: all_entered(self.catalog, atts), ..self }
    }

    /// The transcript once the message has a number.
    pub open spec fn numbering(self, ts: u64) -> TranscriptV {
        TranscriptV { numbers: numbered(self.numbers, ts), ..self }
    }

    /// The transcript once the message is known to have its media inline.
    pub open spec fn inlining(self, ts: u64) -> TranscriptV {
        TranscriptV { inlined: self.inlined.insert(ts), ..self }
    }

    /// The transcript after one message of the history: the bot's own answers are
    /// not numbered.
    pub open spec fn after(self, h: HistMsgV) -> TranscriptV {
        let listed = self.announcing(h.atts);
        if h.is_ai {
            listed
        } else {
            listed.numbering(h.ts)
        }
    }

    /// The turn of one message of the history.
    pub open spec fn turn_of(self, cfg: Config, h: HistMsgV) -> JsonV {
        let note = announcement(cfg, self.catalog, h.atts, Inline::Listed);
        if h.is_ai {
            text_turn("assistant"@, with_note(h.text, note))
        } else {
            text_turn(
                "user"@,
                with_note(
                    user_line(numbered(self.numbers, h.ts), h.ts, h.speaker, h.reply_to, h.text),
                    note,
                ),
            )
        }
    }

    /// The transcript after the messages of the history.
    pub open spec fn after_all(self, hs: Seq<HistMsgV>) -> TranscriptV
        decreases hs.len(),
    {
        if hs.len() == 0 {
            self
        } else {
            self.after_all(hs.drop_last()).after(hs.last())
        }
    }

    /// The turns of the messages of the history.
    pub open spec fn turns_of(self, cfg: Config, hs: Seq<HistMsgV>) -> Seq<JsonV>
        decreases hs.len(),
    {
        if hs.len() == 0 {
            Seq::empty()
        } else {
            self.turns_of(cfg, hs.drop_last()).push(
                self.after_all(hs.drop_last()).turn_of(cfg, hs.last()),
            )
        }
    }
}

impl Default for Transcript {
    fn default() -> (r: Transcript)
        ensures
            r.wf(),
            r@ == TranscriptV::empty(),
    {
        let r = Transcript {
            catalog: Catalog::default(),
            numbers: HashMap::new(),
            inlined: BTreeSet::new(),
        };
        assert(r@ =~= TranscriptV::empty());
        r
    }
}

impl Transcript {
    /// What the transcript records is consistent.
    pub open spec fn wf(&self) -> bool {
        self.catalog.wf() && well_numbered(self.numbers@)
    }

    /// There is room for `n` messages more.
    pub open spec fn room(&self, n: nat) -> bool {
        self.numbers@.len() + n <= usize::MAX
    }

    pub fn catalog(&self) -> (r: &Catalog)
        ensures
            r@ == self@.catalog,
            self.wf() ==> r.wf(),
    {
        &self.catalog
    }

    /// Lists the attachments, giving each an id on first sight.
    pub fn announce(&mut self, cfg: &Config, atts: &[Attachment], inline: Inline) -> (r: String)
        requires
            old(self).wf(),
        ensures
            final(self).wf(),
            final(self)@ == old(self)@.announcing(attachments(atts@)),
            r@ == announcement(*cfg, old(self)@.catalog, attachments(atts@), inline),
    {
        self.catalog.announce(cfg, atts, inline)
    }

    /// The message's number, assigned on first sight.
    pub fn number(&mut self, ts: u64) -> (r: usize)
        requires
            old(self).wf(),
            old(self).room(1),
        ensures
            final(self).wf(),
            final(self)@ == old(self)@.numbering(ts),
            r == final(self)@.numbers[ts],
    {
        proof {
            law_numbers_stay(self.numbers@, ts);
        }
        let known: Option<usize> = match self.numbers.get(&ts) {
            Some(n) => Some(*n),
            None => None,
        };
        match known {
            Some(n) => n,
            None => {
                let next: usize = self.numbers.len() + 1;
                self.numbers.insert(ts, next);
                next
            },
        }
    }

    /// The message's number, if it has one.
    pub fn number_of(&self, ts: u64) -> (r: Option<usize>)
        ensures
            r == (if self@.numbers.contains_key(ts) {
                Some(self@.numbers[ts])
            } else {
                None
            }),
    {
        match self.numbers.get(&ts) {
            Some(n) => Some(*n),
            None => None,
        }
    }

    /// Does this message's media already sit in the messages array?
    pub fn is_inlined(&self, ts: u64) -> (r: bool)
        ensures
            r == self@.inlined.contains(ts),
    {
        self.inlined.contains(&ts)
    }

    pub fn mark_inlined(&mut self, ts: u64)
        requires
            old(self).wf(),
        ensures
            final(self).wf(),
            final(self)@ == old(self)@.inlining(ts),
    {
        self.inlined.insert(ts);
    }

    /// How a replied-to message is referred to.
    pub fn reply_target(&self, r: &ReplyRef) -> (s: String)
        ensures
            s@ == citation(self@.numbers, r@),
    {
        if r.is_ai {
            return copy("you");
        }
        if let Some(ts) = r.ts {
            if let Some(n) = self.number_of(ts) {
                let mut s = copy("msg ");
                s.append(&decimal_text(n as u64));
                return s;
            }
        }
        if r.text.as_str().is_empty() {
            return copy(&r.author);
        }
        let mut s = copy(&r.author);
        s.append(": \"");
        s.append(&truncated(&replace_char(&r.text, '\n', ' '), 120));
        s.append("\"");
        s
    }

    /// A message of someone else's, numbered.
    pub fn user_text(
        &mut self,
        ts: u64,
        speaker: &str,
        reply_to: Option<&ReplyRef>,
        body: &str,
    ) -> (s: String)
        requires
            old(self).wf(),
            old(self).room(1),
        ensures
            final(self).wf(),
            final(self)@ == old(self)@.numbering(ts),
            s@ == user_line(
                final(self)@.numbers,
                ts,
                speaker@,
                match reply_to {
                    Some(r) => Some(r@),
                    None => None,
                },
                body@,
            ),
    {
        let num = self.number(ts);
        let mut s = copy("[msg ");
        s.append(&decimal_text(num as u64));
        s.append("] ");
        if let Some(r) = reply_to {
            s.append("[in reply to ");
            s.append(&self.reply_target(r));
            s.append("] ");
        }
        s.append(speaker);
        s.append(": ");
        s.append(body);
        s
    }

    /// Turns a window of history into chat messages. The bot's own answers become
    /// `assistant` turns; everyone else's become `user` turns. Attachments are
    /// only listed here, for the model to load if it wants them.
    pub fn history_turns(&mut self, cfg: &Config, history: &[HistMsg]) -> (r: Vec<Json>)
        requires
            old(self).wf(),
            old(self).room(history@.len()),
        ensures
            final(self).wf(),
            final(self)@ == old(self)@.after_all(hist_msgs(history@)),
            jsons(r@) == old(self)@.turns_of(*cfg, hist_msgs(history@)),
    {
        let ghost all = hist_msgs(history@);
        let ghost start = self@;
        let mut turns: Vec<Json> = Vec::new();
        assert(all.take(0) =~= Seq::empty());
        assert(jsons(turns@) =~= Seq::empty());
        for i in 0..history.len()
            invariant
                all == hist_msgs(history@),
                self.wf(),
                self.numbers@.len() + (history@.len() - i) <= usize::MAX,
                self@ == start.after_all(all.take(i as int)),
                jsons(turns@) == start.turns_of(*cfg, all.take(i as int)),
        {
            assert(all.take(i + 1).drop_last() =~= all.take(i as int));
            let ghost before = self@;
            let h = &history[i];
            assert(h@ == all[i as int]);
            let note = self.announce(cfg, &h.atts, Inline::Listed);
            let mut text = if h.is_ai {
                copy(&h.text)
            } else {
                self.user_text(h.ts, &h.speaker, h.reply_to.as_ref(), &h.text)
            };
            proof {
                law_numbers_stay(before.numbers, h.ts);
            }
            if !note.as_str().is_empty() {
                text.append("\n");
                text.append(&note);
            }
            let t = if h.is_ai {
                turn("assistant", &text)
            } else {
                turn("user", &text)
            };
            assert(t@ == before.turn_of(*cfg, h@));
            turns.push(t);
        }
        assert(all.take(all.len() as int) =~= all);
        turns
    }

    /// The same transcript again.
    pub fn copy(&self) -> (r: Transcript)
        requires
            self.wf(),
        ensures
            r.wf(),
            r@ == self@,
    {
        Transcript {
            catalog: self.catalog.copy(),
            numbers: self.numbers.clone(),
            inlined: self.inlined.clone(),
        }
    }
}

/// A message keeps its number for good, a new one gets the next, and no two share
/// one.
pub proof fn law_numbers_stay(numbers: Map<u64, usize>, ts: u64)
    requires
        well_numbered(numbers),
        numbers.len() < usize::MAX,
    ensures
        well_numbered(numbered(numbers, ts)),
        numbered(numbers, ts).contains_key(ts),
        forall|t: u64| #[trigger]
            numbers.contains_key(t) ==> numbered(numbers, ts).contains_key(t) && numbered(
                numbers,
                ts,
            )[t] == numbers[t],
        !numbers.contains_key(ts) ==> numbered(numbers, ts)[ts] == numbers.len() + 1,
        numbered(numbers, ts).len() <= numbers.len() + 1,
{
}

/// Every message of the history becomes one turn, in its place: the bot's own answers
/// as `assistant`, everyone else's as `user`.
pub proof fn law_one_turn_per_message(t: TranscriptV, cfg: Config, hs: Seq<HistMsgV>, i: int)
    requires
        0 <= i < hs.len(),
    ensures
        t.turns_of(cfg, hs).len() == hs.len(),
        t.turns_of(cfg, hs)[i] == t.after_all(hs.take(i)).turn_of(cfg, hs[i]),
        t.turns_of(cfg, hs)[i].get("role"@) == Some(
            JsonV::Str(
                if hs[i].is_ai {
                    "assistant"@
                } else {
                    "user"@
                },
            ),
        ),
    decreases hs.len(),
{
    let head = hs.drop_last();
    lemma_turns_len(t, cfg, head);
    if i < head.len() {
        law_one_turn_per_message(t, cfg, head, i);
        assert(head.take(i) =~= hs.take(i));
    } else {
        assert(hs.take(i) =~= head);
        let turn = t.after_all(head).turn_of(cfg, hs[i]);
        let fields = turn->Obj_0;
        assert(fields[0].0 == "role"@);
        assert(turn.get("role"@) == Some(fields[0].1));
    }
}

proof fn lemma_turns_len(t: TranscriptV, cfg: Config, hs: Seq<HistMsgV>)
    ensures
        t.turns_of(cfg, hs).len() == hs.len(),
    decreases hs.len(),
{
    if hs.len() > 0 {
        lemma_turns_len(t, cfg, hs.drop_last());
    }
}

/// What the model has been shown keeps its address: after any history, every message
/// that had a number has the same one, and every attachment the same id.
pub proof fn law_history_keeps_addresses(t: TranscriptV, hs: Seq<HistMsgV>)
    requires
        well_numbered(t.numbers),
        t.numbers.len() + hs.len() <= usize::MAX,
    ensures
        well_numbered(t.after_all(hs).numbers),
        t.after_all(hs).numbers.len() <= t.numbers.len() + hs.len(),
        forall|ts: u64| #[trigger]
            t.numbers.contains_key(ts) ==> t.after_all(hs).numbers.contains_key(ts) && t.after_all(
                hs,
            ).numbers[ts] == t.numbers[ts],
        t.catalog.len() <= t.after_all(hs).catalog.len(),
        t.after_all(hs).catalog.take(t.catalog.len() as int) == t.catalog,
        t.after_all(hs).inlined == t.inlined,
    decreases hs.len(),
{
    if hs.len() > 0 {
        let head = hs.drop_last();
        law_history_keeps_addresses(t, head);
        let before = t.after_all(head);
        let h = hs.last();
        law_numbers_stay(before.numbers, h.ts);
        law_ids_are_for_good(before.catalog, h.atts);
        let n = t.catalog.len() as int;
        let after = t.after_all(hs);
        assert(after.catalog.take(n) =~= after.catalog.take(before.catalog.len() as int).take(n));
    } else {
        assert(t.catalog.take(t.catalog.len() as int) =~= t.catalog);
    }
}

// ---------------------------------------------------------------------------
// turns with media

/// A content part with text.
pub open spec fn text_value(text: Seq<char>) -> JsonV {
    JsonV::object().with("type"@, JsonV::Str("text"@)).with("text"@, JsonV::Str(text))
}

/// A content part with a clip.
pub open spec fn audio_value(data: Seq<char>) -> JsonV {
    JsonV::object().with("type"@, JsonV::Str("input_audio"@)).with(
        "input_audio"@,
        JsonV::object().with("data"@, JsonV::Str(data)).with("format"@, JsonV::Str("wav"@)),
    )
}

/// A content part with a file.
pub open spec fn file_value(name: Seq<char>, data: Seq<char>) -> JsonV {
    JsonV::object().with("type"@, JsonV::Str("file"@)).with(
        "file"@,
        JsonV::object().with("filename"@, JsonV::Str(name)).with("file_data"@, JsonV::Str(data)),
    )
}

/// The content parts of a turn with media: the text, then the images, the files
/// and, last, the clips.
pub open spec fn media_parts(text: Seq<char>, media: MediaV) -> Seq<JsonV> {
    seq![text_value(text)] + Seq::new(
        media.images.len(),
        |i: int| image_value(data_uri(media.images[i].0, media.images[i].1)),
    ) + Seq::new(
        media.files.len(),
        |i: int| file_value(media.files[i].0, media.files[i].1),
    ) + Seq::new(media.audio.len(), |i: int| audio_value(media.audio[i]))
}

/// A `user` turn.
pub open spec fn user_turn(text: Seq<char>, media: MediaV) -> JsonV {
    if media.is_empty() {
        text_turn("user"@, text)
    } else {
        JsonV::object().with("role"@, JsonV::Str("user"@)).with(
            "content"@,
            JsonV::Arr(media_parts(text, media)),
        )
    }
}

/// A `user` turn: plain string content when there is no media, else a multimodal
/// parts array with the text, then each image as an image_url, then each file, then
/// each audio clip. Audio goes last because models ask for it after the text, and it
/// carries raw base64 rather than a data uri.
pub fn user_turn_value(text: String, media: &Media) -> (r: Json)
    ensures
        r@ == user_turn(text@, media@),
{
    if media.is_empty() {
        return turn("user", &text);
    }
    let ghost goal = media_parts(text@, media@);
    let ghost a = 1 + media.images@.len();
    let ghost b = a + media.files@.len();
    let mut parts: Vec<Json> = Vec::new();
    assert(jsons(parts@) =~= goal.take(0));
    parts.push(Json::object().with("type", Json::text("text")).with("text", Json::text(&text)));
    assert(goal.take(1) =~= goal.take(0).push(text_value(text@)));
    for i in 0..media.images.len()
        invariant
            goal == media_parts(text@, media@),
            a == 1 + media.images@.len(),
            jsons(parts@) == goal.take(1 + i),
    {
        let mut url = copy("data:");
        url.append(&media.images[i].0);
        url.append(";base64,");
        url.append(&media.images[i].1);
        assert(url@ == data_uri(media@.images[i as int].0, media@.images[i as int].1));
        parts.push(image_part(&url));
        assert(goal[1 + i] == image_value(url@));
        assert(goal.take(2 + i) =~= goal.take(1 + i).push(goal[1 + i]));
    }
    for i in 0..media.files.len()
        invariant
            goal == media_parts(text@, media@),
            a == 1 + media.images@.len(),
            jsons(parts@) == goal.take(a + i),
    {
        parts.push(
            Json::object().with("type", Json::text("file")).with(
                "file",
                Json::object().with("filename", Json::text(&media.files[i].0)).with(
                    "file_data",
                    Json::text(&media.files[i].1),
                ),
            ),
        );
        assert(goal[a + i] == file_value(media@.files[i as int].0, media@.files[i as int].1));
        assert(goal.take(a + i + 1) =~= goal.take(a + i).push(goal[a + i]));
    }
    for i in 0..media.audio.len()
        invariant
            goal == media_parts(text@, media@),
            a == 1 + media.images@.len(),
            b == a + media.files@.len(),
            jsons(parts@) == goal.take(b + i),
    {
        parts.push(
            Json::object().with("type", Json::text("input_audio")).with(
                "input_audio",
                Json::object().with("data", Json::text(&media.audio[i])).with(
                    "format",
                    Json::text("wav"),
                ),
            ),
        );
        assert(goal[b + i] == audio_value(media@.audio[i as int]));
        assert(goal.take(b + i + 1) =~= goal.take(b + i).push(goal[b + i]));
    }
    assert(goal.take(goal.len() as int) =~= goal);
    Json::object().with("role", Json::text("user")).with("content", Json::array(parts))
}

/// The text of a turn with media goes first, and the clips go last, in order.
pub proof fn law_audio_goes_last(text: Seq<char>, media: MediaV)
    ensures
        media_parts(text, media).len() == 1 + media.images.len() + media.files.len()
            + media.audio.len(),
        media_parts(text, media)[0] == text_value(text),
        forall|i: int|
            0 <= i < media.audio.len() ==> media_parts(text, media)[1 + media.images.len()
                + media.files.len() + i] == audio_value(#[trigger] media.audio[i]),
{
}

// ---------------------------------------------------------------------------
// what the model is shown, told by the messages

/// Citations are faithful: a reply to a message with a number is cited by the very
/// number that the line of that message begins with, so that replies to two messages are
/// cited alike only where they are the same message.
pub proof fn law_citations_are_faithful(
    numbers: Map<u64, usize>,
    a: ReplyRefV,
    b: ReplyRefV,
    ts: u64,
    speaker: Seq<char>,
    reply_to: Option<ReplyRefV>,
    body: Seq<char>,
)
    requires
        well_numbered(numbers),
        !a.is_ai,
        !b.is_ai,
        a.ts == Some(ts),
        numbers.contains_key(ts),
        b.ts is Some,
        numbers.contains_key(b.ts->0),
    ensures
        citation(numbers, a) == citation(numbers, b) <==> a.ts == b.ts,
        ({
            let head = "["@ + citation(numbers, a) + "] "@;
            let line = user_line(numbers, ts, speaker, reply_to, body);
            head.len() <= line.len() && line.subrange(0, head.len() as int) == head
        }),
        citation(numbers, a) == "msg "@ + decimal(numbers[ts] as nat),
{
    reveal_strlit("[");
    reveal_strlit("msg ");
    reveal_strlit("[msg ");
    law_decimal_is_read_back(numbers[ts] as nat);
    law_decimal_is_read_back(numbers[b.ts->0] as nat);
    let m = "msg "@;
    let x = decimal(numbers[ts] as nat);
    let y = decimal(numbers[b.ts->0] as nat);
    if citation(numbers, a) == citation(numbers, b) {
        assert((m + x).skip(4) =~= x);
        assert((m + y).skip(4) =~= y);
        assert(x == y);
        assert(numbers[ts] == numbers[b.ts->0]);
    }
    let head = "["@ + citation(numbers, a) + "] "@;
    let line = user_line(numbers, ts, speaker, reply_to, body);
    assert("[msg "@ =~= "["@ + m);
    assert(head =~= "[msg "@ + x + "] "@);
    assert(line.subrange(0, head.len() as int) =~= head);
}

/// A reply to the bot is to "you"; one to a message that has no number names its author
/// and, where there is any, quotes its text on one line, cut to a hundred and twenty
/// characters where it is longer.
pub proof fn law_other_replies_are_quoted(numbers: Map<u64, usize>, r: ReplyRefV)
    ensures
        r.is_ai ==> citation(numbers, r) == "you"@,
        !r.is_ai && (r.ts is None || !numbers.contains_key(r.ts->0)) && r.text.len() == 0
            ==> citation(numbers, r) == r.author,
        !r.is_ai && (r.ts is None || !numbers.contains_key(r.ts->0)) && r.text.len() > 0 ==> {
            let n = if r.text.len() <= 120 {
                r.text.len()
            } else {
                120
            };
            let quoted = Seq::new(
                n,
                |i: int|
                    if r.text[i] == '\n' {
                        ' '
                    } else {
                        r.text[i]
                    },
            );
            citation(numbers, r) == r.author + ": \""@ + (if r.text.len() <= 120 {
                quoted
            } else {
                quoted + "…"@
            }) + "\""@
        },
{
    let flat = replaced(r.text, '\n', ' ');
    let n = if r.text.len() <= 120 {
        r.text.len()
    } else {
        120
    };
    let quoted = Seq::new(
        n,
        |i: int|
            if r.text[i] == '\n' {
                ' '
            } else {
                r.text[i]
            },
    );
    assert(flat.take(n as int) =~= quoted);
    if r.text.len() <= 120 {
        assert(flat =~= quoted);
    }
}

/// A line says its number, what it replies to where it is a reply, who speaks and what is
/// said, in that order and nothing else.
pub proof fn law_a_line_says_it_all(
    numbers: Map<u64, usize>,
    ts: u64,
    speaker: Seq<char>,
    r: ReplyRefV,
    body: Seq<char>,
)
    ensures
        user_line(numbers, ts, speaker, None, body) == "[msg "@ + decimal(numbers[ts] as nat)
            + "] "@ + speaker + ": "@ + body,
        user_line(numbers, ts, speaker, Some(r), body) == "[msg "@ + decimal(numbers[ts] as nat)
            + "] "@ + "[in reply to "@ + citation(numbers, r) + "] "@ + speaker + ": "@ + body,
{
}

/// Every message of the history is put to the model word for word: one of the bot's as it
/// is, one of anyone else's as a line under its number; and its attachments are listed on
/// a line of their own behind it, where it has any.
pub proof fn law_history_is_told_word_for_word(
    t: TranscriptV,
    cfg: Config,
    hs: Seq<HistMsgV>,
    i: int,
)
    requires
        0 <= i < hs.len(),
    ensures
        ({
            let h = hs[i];
            let before = t.after_all(hs.take(i));
            let now = t.after_all(hs.take(i + 1));
            let said = if h.is_ai {
                h.text
            } else {
                user_line(now.numbers, h.ts, h.speaker, h.reply_to, h.text)
            };
            t.turns_of(cfg, hs)[i].get("content"@) == Some(
                JsonV::Str(
                    if h.atts.len() == 0 {
                        said
                    } else {
                        said + "\n"@ + announcement(cfg, before.catalog, h.atts, Inline::Listed)
                    },
                ),
            )
        }),
{
    law_one_turn_per_message(t, cfg, hs, i);
    assert(hs.take(i + 1).drop_last() =~= hs.take(i));
    let h = hs[i];
    let before = t.after_all(hs.take(i));
    let now = t.after_all(hs.take(i + 1));
    let note = announcement(cfg, before.catalog, h.atts, Inline::Listed);
    let said = if h.is_ai {
        h.text
    } else {
        user_line(now.numbers, h.ts, h.speaker, h.reply_to, h.text)
    };
    law_a_turn_says_who_says_what("assistant"@, with_note(said, note));
    law_a_turn_says_who_says_what("user"@, with_note(said, note));
    reveal_strlit("[attachments: ");
    if h.atts.len() > 0 {
        assert(note.len() > 0);
    }
}

/// A note goes on a line of its own, and where there is none nothing does.
pub proof fn law_notes_have_their_own_line(text: Seq<char>, note: Seq<char>)
    ensures
        with_note(text, Seq::empty()) == text,
        note.len() > 0 ==> with_note(text, note) == text + "\n"@ + note,
{
}

/// After a history every message of it has a number but for those that are only the
/// bot's; and a message that had none before has a larger one than every message that
/// came before it.
pub proof fn law_history_is_numbered_in_order(t: TranscriptV, hs: Seq<HistMsgV>, ts: u64)
    requires
        well_numbered(t.numbers),
        t.numbers.len() + hs.len() <= usize::MAX,
    ensures
        t.after_all(hs).numbers.contains_key(ts) <==> t.numbers.contains_key(ts) || exists|i: int|
            0 <= i < hs.len() && !(#[trigger] hs[i]).is_ai && hs[i].ts == ts,
        forall|i: int, other: u64|
            0 <= i < hs.len() && !(#[trigger] hs[i]).is_ai && hs[i].ts == ts && !t.after_all(
                hs.take(i),
            ).numbers.contains_key(ts) && #[trigger] t.after_all(hs.take(i)).numbers.contains_key(
                other,
            ) ==> t.after_all(hs).numbers[other] < t.after_all(hs).numbers[ts],
    decreases hs.len(),
{
    law_history_keeps_addresses(t, hs);
    if hs.len() > 0 {
        let head = hs.drop_last();
        let n = hs.len() - 1;
        law_history_is_numbered_in_order(t, head, ts);
        law_history_keeps_addresses(t, head);
        let before = t.after_all(head);
        law_numbers_stay(before.numbers, hs.last().ts);
        assert(hs.take(n) =~= head);
        if exists|i: int| 0 <= i < hs.len() && !(#[trigger] hs[i]).is_ai && hs[i].ts == ts {
            let i = choose|i: int|
                0 <= i < hs.len() && !(#[trigger] hs[i]).is_ai && hs[i].ts == ts;
            if i < n {
                assert(head[i] == hs[i]);
            }
        }
        if exists|i: int| 0 <= i < head.len() && !(#[trigger] head[i]).is_ai && head[i].ts == ts {
            let i = choose|i: int|
                0 <= i < head.len() && !(#[trigger] head[i]).is_ai && head[i].ts == ts;
            assert(hs[i].ts == ts);
        }
        assert forall|i: int, other: u64|
            0 <= i < hs.len() && !(#[trigger] hs[i]).is_ai && hs[i].ts == ts && !t.after_all(
                hs.take(i),
            ).numbers.contains_key(ts) && #[trigger] t.after_all(hs.take(i)).numbers.contains_key(
                other,
            ) implies t.after_all(hs).numbers[other] < t.after_all(hs).numbers[ts] by {
            if i < n {
                assert(head[i] == hs[i]);
                assert(head.take(i) =~= hs.take(i));
                law_history_keeps_addresses(t, hs.take(i));
                lemma_numbers_grow(t, head, i, other);
                lemma_numbers_grow(t, head, i + 1, ts);
                assert(hs.take(i + 1).drop_last() =~= hs.take(i));
                assert(head.take(i + 1) =~= hs.take(i + 1));
            } else {
                assert(hs[hs.len() - 1].ts == ts);
            }
        }
    }
}

proof fn lemma_numbers_grow(t: TranscriptV, hs: Seq<HistMsgV>, i: int, ts: u64)
    requires
        well_numbered(t.numbers),
        t.numbers.len() + hs.len() <= usize::MAX,
        0 <= i <= hs.len(),
        t.after_all(hs.take(i)).numbers.contains_key(ts),
    ensures
        t.after_all(hs).numbers.contains_key(ts),
        t.after_all(hs).numbers[ts] == t.after_all(hs.take(i)).numbers[ts],
    decreases hs.len(),
{
    if i == hs.len() {
        assert(hs.take(i) =~= hs);
    } else {
        let head = hs.drop_last();
        assert(head.take(i) =~= hs.take(i));
        lemma_numbers_grow(t, head, i, ts);
        law_history_keeps_addresses(t, head);
        law_numbers_stay(t.after_all(head).numbers, hs.last().ts);
    }
}

/// Every attachment of the history can then be asked for, the bot's own among them, and
/// history does not count as carrying media.
pub proof fn law_history_attachments_can_be_asked_for(
    t: TranscriptV,
    hs: Seq<HistMsgV>,
    i: int,
    k: int,
)
    requires
        0 <= i < hs.len(),
        0 <= k < hs[i].atts.len(),
    ensures
        exists|m: int|
            0 <= m < t.after_all(hs).catalog.len() && ((#[trigger] t.after_all(hs).catalog[m])
                == hs[i].atts[k] || (t.after_all(hs).catalog[m].digest is Some
                && t.after_all(hs).catalog[m].digest == hs[i].atts[k].digest)),
        t.after_all(hs).inlined == t.inlined,
    decreases hs.len(),
{
    let head = hs.drop_last();
    let last = hs.last();
    let before = t.after_all(head);
    let after = t.after_all(hs);
    law_ids_are_for_good(before.catalog, last.atts);
    lemma_inlined_stays(t, hs);
    if i < head.len() {
        law_history_attachments_can_be_asked_for(t, head, i, k);
        let m = choose|m: int|
            0 <= m < before.catalog.len() && ((#[trigger] before.catalog[m]) == head[i].atts[k]
                || (before.catalog[m].digest is Some && before.catalog[m].digest
                == head[i].atts[k].digest));
        assert(after.catalog.take(before.catalog.len() as int)[m] == after.catalog[m]);
    } else {
        lemma_entered_has(before.catalog, last.atts, k);
        let all = all_entered(before.catalog, last.atts);
        let m = choose|m: int|
            0 <= m < all.len() && ((#[trigger] all[m]) == last.atts[k] || (all[m].digest is Some
                && all[m].digest == last.atts[k].digest));
        assert(after.catalog[m] == all[m]);
    }
}

proof fn lemma_inlined_stays(t: TranscriptV, hs: Seq<HistMsgV>)
    ensures
        t.after_all(hs).inlined == t.inlined,
    decreases hs.len(),
{
    if hs.len() > 0 {
        lemma_inlined_stays(t, hs.drop_last());
    }
}

/// A message is known to carry its media once that is said of it, and no other is.
pub proof fn law_media_is_marked_for_one_message(t: TranscriptV, ts: u64, other: u64)
    ensures
        t.inlining(ts).inlined.contains(other) <==> other == ts || t.inlined.contains(other),
        t.inlining(ts).numbers == t.numbers,
        t.inlining(ts).catalog == t.catalog,
        t.numbering(ts).catalog == t.catalog,
        t.numbering(ts).inlined == t.inlined,
{
}

/// A turn with media says the text first and then shows each image, each file and each
/// clip, one part for each; a turn without media is its text.
pub proof fn law_a_turn_shows_all_its_media(text: Seq<char>, media: MediaV)
    ensures
        user_turn(text, media).get("role"@) == Some(JsonV::Str("user"@)),
        media.images.len() == 0 && media.audio.len() == 0 && media.files.len() == 0 ==> user_turn(
            text,
            media,
        ).get("content"@) == Some(JsonV::Str(text)),
        media.images.len() + media.audio.len() + media.files.len() > 0 ==> {
            let parts = media_parts(text, media);
            let n = 1 + media.images.len() as int;
            &&& user_turn(text, media).get("content"@) == Some(JsonV::Arr(parts))
            &&& parts.len() == 1 + media.images.len() + media.files.len() + media.audio.len()
            &&& parts[0].get("type"@) == Some(JsonV::Str("text"@))
            &&& parts[0].get("text"@) == Some(JsonV::Str(text))
            &&& forall|i: int|
                0 <= i < media.images.len() ==> parts[1 + i] == image_value(
                    "data:"@ + (#[trigger] media.images[i]).0 + ";base64,"@ + media.images[i].1,
                )
            &&& forall|i: int|
                0 <= i < media.files.len() ==> parts[n + i] == file_value(
                    (#[trigger] media.files[i]).0,
                    media.files[i].1,
                )
            &&& forall|i: int|
                0 <= i < media.audio.len() ==> parts[n + media.files.len() + i] == audio_value(
                    #[trigger] media.audio[i],
                )
        },
{
    reveal_strlit("role");
    reveal_strlit("content");
    reveal_strlit("type");
    reveal_strlit("text");
    assert("role"@.len() == 4 && "content"@.len() == 7);
    assert("type"@[1] == 'y' && "text"@[1] == 'e');
    law_a_turn_says_who_says_what("user"@, text);
    law_two_fields("role"@, JsonV::Str("user"@), "content"@, JsonV::Arr(media_parts(text, media)));
    law_two_fields("type"@, JsonV::Str("text"@), "text"@, JsonV::Str(text));
}

/// A clip is handed over as it is, as a wav; a file under its name with its data.
pub proof fn law_clips_and_files_are_handed_over(name: Seq<char>, data: Seq<char>)
    ensures
        audio_value(data).get("type"@) == Some(JsonV::Str("input_audio"@)),
        audio_value(data).get("input_audio"@) is Some,
        audio_value(data).get("input_audio"@)->0.get("data"@) == Some(JsonV::Str(data)),
        audio_value(data).get("input_audio"@)->0.get("format"@) == Some(JsonV::Str("wav"@)),
        file_value(name, data).get("type"@) == Some(JsonV::Str("file"@)),
        file_value(name, data).get("file"@) is Some,
        file_value(name, data).get("file"@)->0.get("filename"@) == Some(JsonV::Str(name)),
        file_value(name, data).get("file"@)->0.get("file_data"@) == Some(JsonV::Str(data)),
{
    reveal_strlit("type");
    reveal_strlit("input_audio");
    reveal_strlit("data");
    reveal_strlit("format");
    reveal_strlit("file");
    reveal_strlit("filename");
    reveal_strlit("file_data");
    assert("type"@[0] == 't' && "file"@[0] == 'f');
    assert("input_audio"@.len() == 11 && "type"@.len() == 4);
    assert("data"@.len() == 4 && "format"@.len() == 6);
    assert("filename"@.len() == 8 && "file_data"@.len() == 9);
    law_two_fields("data"@, JsonV::Str(data), "format"@, JsonV::Str("wav"@));
    law_two_fields(
        "type"@,
        JsonV::Str("input_audio"@),
        "input_audio"@,
        JsonV::object().with("data"@, JsonV::Str(data)).with("format"@, JsonV::Str("wav"@)),
    );
    law_two_fields("filename"@, JsonV::Str(name), "file_data"@, JsonV::Str(data));
    law_two_fields(
        "type"@,
        JsonV::Str("file"@),
        "file"@,
        JsonV::object().with("filename"@, JsonV::Str(name)).with("file_data"@, JsonV::Str(data)),
    );
}

} // verus!
