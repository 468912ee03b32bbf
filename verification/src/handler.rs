//! From a summoning message to its answer.
use vstd::prelude::*;

use crate::ai::{law_a_turn_says_who_says_what, text_turn, turn, ToolCall};
use crate::config::Config;
use crate::convo_cache::{
    expired, is_root, law_alias_finds_the_answer, law_alias_leaves_roots, law_found_after_insert,
    law_insert_keeps_wf, law_remove_leaves_others, law_removed_is_gone, CacheV, Cached, CachedV,
    ConvoCache,
};
use crate::history::{hist_msgs, HistMsg, HistMsgV};
use crate::json::{copy_all, jsons, lemma_jsons_push, Json, JsonV};
use crate::message::{
    asked_context, lemma_leading_digits, requested_context, Trigger, TriggerV,
};
use crate::text::{
    begins, chars_of, contains, copy, find, is_digit, law_numbers_are_read, law_trim_end_digits,
    lemma_find_from, lemma_find_has, number, occurs, occurs_at, same_text, starts_with,
    string_between, trim, trim_end_digits, trim_end_digits_of, trimmed,
};
use crate::transcript::{Transcript, TranscriptV};

verus! {

/// What makes two tool calls the same one: the name and the arguments.
pub fn call_key(call: &ToolCall) -> (r: (String, String))
    ensures
        r.0@ == call@.name,
        r.1@ == call@.arguments,
{
    (copy(&call.name), copy(&call.arguments))
}

/// `s` where it has at most `max` characters, else the first `max` of them and an
/// ellipsis.
pub open spec fn cut(s: Seq<char>, max: nat) -> Seq<char> {
    if s.len() > max {
        s.take(max as int) + "…"@
    } else {
        s
    }
}

/// `text` cut to `max` characters, for sending somewhere a full one won't fit.
pub fn truncated(text: &str, max: usize) -> (r: String)
    ensures
        r@ == cut(text@, max as nat),
{
    let cs = chars_of(text);
    if cs.len() > max {
        let mut r = string_between(&cs, 0, max);
        r.append("…");
        assert(cs@.subrange(0, max as int) =~= cs@.take(max as int));
        r
    } else {
        copy(text)
    }
}

// ---------------------------------------------------------------------------
// what is answered

/// How many finished conversations are kept warm for continuation.
pub const CONVO_CACHE_CAP: usize = 20;

/// A prompt that holds nothing but the trigger, with or without digits behind it.
pub open spec fn only_trigger(text: Seq<char>, trigger: Seq<char>) -> bool {
    text.len() == 0 || trim_end_digits_of(text) == trigger
}

/// A message is answered when it holds the trigger anywhere, or replies to one of the
/// bot's own messages; and when there is something to answer: text besides the
/// trigger, an attachment, or a message that is replied to.
pub open spec fn summons(cfg: Config, t: TriggerV, reply_to_ai: bool) -> bool {
    let text = trimmed(t.body);
    &&& occurs(text, cfg.trigger@) || reply_to_ai
    &&& !(only_trigger(text, cfg.trigger@) && t.own_atts.len() == 0 && !t.is_reply())
}

/// How many messages of context a prompt gets: as many as it asks for, but never more
/// than are configured.
pub open spec fn context_size(cfg: Config, t: TriggerV) -> nat {
    match asked_context(trimmed(t.body), cfg.trigger@) {
        Some(n) => if n < cfg.context_messages {
            n
        } else {
            cfg.context_messages as nat
        },
        None => cfg.context_messages as nat,
    }
}

/// Is a message answered, and with how many messages of context? `@ai2` asks for a
/// shorter window than the configured one; it can only narrow it.
pub fn summoned(cfg: &Config, trigger: &Trigger, reply_to_ai: bool) -> (r: Option<usize>)
    ensures
        match r {
            Some(n) => summons(*cfg, trigger@, reply_to_ai) && n == context_size(*cfg, trigger@),
            None => !summons(*cfg, trigger@, reply_to_ai),
        },
{
    let text = trim(&trigger.body);
    if !contains(&text, &cfg.trigger) && !reply_to_ai {
        return None;
    }
    let bare = text.as_str().is_empty() || same_text(&trim_end_digits(&text), &cfg.trigger);
    assert(trigger@.own_atts.len() == trigger.own_atts@.len());
    if bare && trigger.own_atts.len() == 0 && !trigger.is_reply() {
        return None;
    }
    match requested_context(&text, &cfg.trigger) {
        Some(n) => if n < cfg.context_messages {
            Some(n)
        } else {
            Some(cfg.context_messages)
        },
        None => Some(cfg.context_messages),
    }
}

/// A prompt never gets more context than is configured.
pub proof fn law_context_is_only_narrowed(cfg: Config, t: TriggerV)
    ensures
        context_size(cfg, t) <= cfg.context_messages,
{
}

// ---------------------------------------------------------------------------
// what the answer builds on

/// What an answer builds on: a cached conversation or nothing, and which messages of
/// the chat are put behind it.
pub struct Opening {
    pub convo: Vec<Json>,
    pub transcript: Transcript,
    /// captured with the cached conversation, if it is one
    pub chat_context: Option<String>,
    /// messages at this time or before are left out
    pub since: u64,
    /// how many messages there are at most
    pub limit: Option<usize>,
}

/// The mathematical model of what an answer builds on.
pub struct OpeningV {
    pub convo: Seq<JsonV>,
    pub transcript: TranscriptV,
    pub chat_context: Option<Seq<char>>,
    pub since: u64,
    pub limit: Option<usize>,
}

impl OpeningV {
    /// With the messages of the history behind what there is.
    pub open spec fn with_history(self, cfg: Config, history: Seq<HistMsgV>) -> OpeningV {
        OpeningV {
            convo: self.convo + self.transcript.turns_of(cfg, history),
            transcript: self.transcript.after_all(history),
            ..self
        }
    }
}

impl View for Opening {
    type V = OpeningV;

    open spec fn view(&self) -> OpeningV {
        OpeningV {
            convo: jsons(self.convo@),
            transcript: self.transcript@,
            chat_context: crate::attachment::text_opt(self.chat_context),
            since: self.since,
            limit: self.limit,
        }
    }
}

/// What an answer builds on: the cached conversation it continues, with whatever was
/// written since; or, for a fresh prompt or a miss, the last messages.
pub open spec fn opened(cached: Option<CachedV>, context_messages: usize) -> OpeningV {
    match cached {
        Some(c) => OpeningV {
            convo: c.convo,
            transcript: c.transcript,
            chat_context: Some(c.chat_context),
            since: c.tip_ts,
            limit: None,
        },
        None => OpeningV {
            convo: Seq::empty(),
            transcript: TranscriptV::empty(),
            chat_context: None,
            since: 0,
            limit: Some(context_messages),
        },
    }
}

impl Opening {
    pub open spec fn wf(&self) -> bool {
        self.transcript.wf()
    }

    /// What an answer builds on.
    pub fn new(cached: Option<&Cached>, context_messages: usize) -> (r: Opening)
        requires
            cached is Some ==> cached->0.wf(),
        ensures
            r.wf(),
            r@ == opened(
                match cached {
                    Some(c) => Some(c@),
                    None => None,
                },
                context_messages,
            ),
    {
        match cached {
            Some(c) => Opening {
                convo: copy_all(&c.convo),
                transcript: c.transcript.copy(),
                chat_context: Some(copy(&c.chat_context)),
                since: c.tip_ts,
                limit: None,
            },
            None => {
                let convo: Vec<Json> = Vec::new();
                assert(jsons(convo@) =~= Seq::empty());
                Opening {
                    convo,
                    transcript: Transcript::default(),
                    chat_context: None,
                    since: 0,
                    limit: Some(context_messages),
                }
            },
        }
    }

    /// Puts the messages of the history behind what there is.
    pub fn add_history(&mut self, cfg: &Config, history: &[HistMsg])
        requires
            old(self).wf(),
            old(self).transcript.room(history@.len()),
        ensures
            final(self).wf(),
            final(self)@ == old(self)@.with_history(*cfg, hist_msgs(history@)),
    {
        let mut turns = self.transcript.history_turns(cfg, history);
        let ghost before = self.convo@;
        let ghost added = turns@;
        self.convo.append(&mut turns);
        assert(jsons(self.convo@) =~= jsons(before) + jsons(added));
    }
}

/// A continuation keeps the conversation that it continues as it was, turn by turn.
pub proof fn law_continuation_keeps_the_prefix(
    cfg: Config,
    c: CachedV,
    context_messages: usize,
    history: Seq<crate::history::HistMsgV>,
)
    ensures
        ({
            let o = opened(Some(c), context_messages);
            let convo = o.convo + o.transcript.turns_of(cfg, history);
            convo.take(c.convo.len() as int) == c.convo
        }),
{
    let o = opened(Some(c), context_messages);
    let convo = o.convo + o.transcript.turns_of(cfg, history);
    assert(convo.take(c.convo.len() as int) =~= c.convo);
}

// ---------------------------------------------------------------------------
// what is kept

/// What an exchange came to.
pub struct Finished {
    pub root_ts: u64,
    pub tip_ts: u64,
    /// when the generated images were sent, if any were
    pub image_ts: Option<u64>,
    pub answer: String,
    pub convo: Vec<Json>,
    pub chat_context: String,
    pub transcript: Transcript,
}

/// An answer that stands for an error, or for nothing.
pub open spec fn is_error(answer: Seq<char>) -> bool {
    answer == "(empty response)"@ || begins(answer, "ai error:"@)
}

impl Finished {
    /// The conversation, ready to be continued: through and including the answer.
    pub open spec fn cached(&self) -> CachedV {
        CachedV {
            convo: jsons(self.convo@).push(text_turn("assistant"@, self.answer@)),
            chat_context: self.chat_context@,
            transcript: self.transcript@,
            tip_ts: self.tip_ts,
        }
    }
}

/// The cache after an exchange: the finished conversation is kept under its root, the
/// message with its images leads to it, and the one that it continues is superseded.
/// Errors are not kept, so that a retry rebuilds cleanly.
pub open spec fn remembered(
    cache: CacheV,
    root_ts: u64,
    image_ts: Option<u64>,
    answer: Seq<char>,
    cached: CachedV,
    parent: Option<u64>,
    now: u64,
) -> CacheV {
    if is_error(answer) {
        cache
    } else {
        let kept = cache.inserted(root_ts, cached, now);
        let aliased = match image_ts {
            Some(ts) => kept.aliased(ts, root_ts),
            None => kept,
        };
        match parent {
            Some(p) => aliased.removed(p),
            None => aliased,
        }
    }
}

/// Keeps a finished conversation for continuation. A generated image is its own
/// message, outside the edit chain, so it is pointed at the answer explicitly; the
/// answer that was continued from is superseded by its child.
pub fn remember(cache: &mut ConvoCache, done: Finished, parent: Option<u64>, now: u64)
    requires
        old(cache).wf(),
        done.transcript.wf(),
    ensures
        final(cache).wf(),
        final(cache)@ == remembered(
            old(cache)@,
            done.root_ts,
            done.image_ts,
            done.answer@,
            done.cached(),
            parent,
            now,
        ),
{
    broadcast use lemma_jsons_push;

    if same_text(&done.answer, "(empty response)") || starts_with(&done.answer, "ai error:") {
        return;
    }
    let ghost kept = done.cached();
    let Finished { root_ts, tip_ts, image_ts, answer, convo, chat_context, transcript } = done;
    let mut said = convo;
    said.push(turn("assistant", &answer));
    let cached = Cached { convo: said, chat_context, transcript, tip_ts };
    assert(cached@ == kept);
    cache.insert(root_ts, cached, now);
    if let Some(ts) = image_ts {
        cache.alias(ts, root_ts);
    }
    if let Some(p) = parent {
        cache.remove(p);
    }
}

/// An answer can be continued until it expires: a reply to it, and one to the images
/// that were sent with it, finds the conversation through and including the answer.
pub proof fn law_answers_can_be_continued(
    cache: CacheV,
    root_ts: u64,
    image_ts: Option<u64>,
    answer: Seq<char>,
    cached: CachedV,
    now: u64,
    later: u64,
)
    requires
        cache.wf(),
        cache.cap > 0,
        !is_error(answer),
        !expired(now, later),
    ensures
        remembered(cache, root_ts, image_ts, answer, cached, None, now).found(root_ts, later)
            == Some(cached),
        image_ts is Some && !is_root(
            cache.inserted(root_ts, cached, now).entries,
            image_ts->0,
        ) ==> remembered(cache, root_ts, image_ts, answer, cached, None, now).found(
            image_ts->0,
            later,
        ) == Some(cached),
{
    law_found_after_insert(cache, root_ts, cached, now, later);
    law_insert_keeps_wf(cache, root_ts, cached, now);
    let kept = cache.inserted(root_ts, cached, now);
    if image_ts is Some && !is_root(kept.entries, image_ts->0) {
        law_alias_finds_the_answer(kept, image_ts->0, root_ts, later);
        law_alias_leaves_roots(kept, image_ts->0, root_ts, later);
    }
}

/// The answer that was continued from is superseded by its child: a reply to it is no
/// continuation any more, one to the child is until that expires.
pub proof fn law_child_supersedes_parent(
    cache: CacheV,
    root_ts: u64,
    image_ts: Option<u64>,
    answer: Seq<char>,
    cached: CachedV,
    parent: u64,
    now: u64,
    later: u64,
)
    requires
        cache.wf(),
        cache.cap > 0,
        !is_error(answer),
        remembered(cache, root_ts, image_ts, answer, cached, None, now).resolved(parent)
            != root_ts,
    ensures
        remembered(cache, root_ts, image_ts, answer, cached, Some(parent), now).found(parent, later)
            is None,
        !expired(now, later) ==> remembered(
            cache,
            root_ts,
            image_ts,
            answer,
            cached,
            Some(parent),
            now,
        ).found(root_ts, later) == Some(cached),
{
    law_found_after_insert(cache, root_ts, cached, now, later);
    law_insert_keeps_wf(cache, root_ts, cached, now);
    let kept = cache.inserted(root_ts, cached, now);
    let all = remembered(cache, root_ts, image_ts, answer, cached, None, now);
    if let Some(ts) = image_ts {
        law_alias_leaves_roots(kept, ts, root_ts, later);
    }
    law_removed_is_gone(all, parent, parent, later);
    law_remove_leaves_others(all, parent, root_ts, later);
}

// ---------------------------------------------------------------------------
// the loop

/// How the bot's loop ended.
#[derive(Clone, Copy, PartialEq, Eq, Structural)]
pub enum Outcome {
    Done,
    /// the device has been unlinked and has to be linked again
    Relink,
}

/// What arrives from the server, as far as the loop cares.
#[derive(Clone, Copy, PartialEq, Eq, Structural)]
pub enum Incoming {
    QueueEmpty,
    Contacts,
    Content,
    DecryptionError,
}

/// The backlog has drained, once this has arrived.
pub open spec fn live_after(live: bool, incoming: Incoming) -> bool {
    live || incoming == Incoming::QueueEmpty
}

/// What has arrived is to be processed.
pub open spec fn acted_on(live: bool, incoming: Incoming) -> bool {
    live && incoming == Incoming::Content
}

/// How old messages may be, where it is time to prune.
pub open spec fn due(live: bool, retention: Option<u64>) -> Option<u64> {
    if live {
        retention
    } else {
        None
    }
}

/// The loop: whether the backlog that gets replayed on startup has drained.
pub struct Listener {
    pub live: bool,
}

impl Listener {
    pub fn new() -> (r: Listener)
        ensures
            !r.live,
    {
        Listener { live: false }
    }

    /// Is what has arrived to be processed? The backlog is not answered: only what
    /// arrives after the initial sync drains is acted on.
    pub fn on_received(&mut self, incoming: Incoming) -> (r: bool)
        ensures
            r == acted_on(old(self).live, incoming),
            final(self).live == live_after(old(self).live, incoming),
    {
        match incoming {
            Incoming::QueueEmpty => {
                self.live = true;
                false
            },
            Incoming::Contacts => false,
            Incoming::Content => self.live,
            Incoming::DecryptionError => false,
        }
    }

    /// How old messages may be, where it is time to prune: not before the initial sync
    /// drains, and not where history is kept for good.
    pub fn prune_due(&self, retention: Option<u64>) -> (r: Option<u64>)
        ensures
            r == due(self.live, retention),
    {
        if self.live {
            retention
        } else {
            None
        }
    }
}

// ---------------------------------------------------------------------------
// what is answered and what is kept, told by the message and the answer

/// The text is nothing but the trigger, with or without digits behind it, or nothing at
/// all.
pub open spec fn says_nothing(text: Seq<char>, trigger: Seq<char>) -> bool {
    text.len() == 0 || (trigger.len() <= text.len() && text.subrange(0, trigger.len() as int)
        == trigger && (trigger.len() > 0 ==> !('0' <= trigger.last() <= '9')) && forall|i: int|
        trigger.len() <= i < text.len() ==> '0' <= #[trigger] text[i] <= '9')
}

proof fn lemma_says_nothing(text: Seq<char>, trigger: Seq<char>)
    ensures
        says_nothing(text, trigger) == only_trigger(text, trigger),
{
    law_trim_end_digits(text);
    let r = trim_end_digits_of(text);
    let n = trigger.len() as int;
    if r == trigger {
        assert(text.subrange(0, n) =~= text.take(n));
    }
    if says_nothing(text, trigger) && text.len() > 0 {
        assert(text.take(n) =~= text.subrange(0, n));
        if r.len() < n {
            assert(text[n - 1] == trigger[n - 1]);
            assert('0' <= text[n - 1] <= '9');
        }
        if r.len() > n {
            assert(text[r.len() - 1] == r[r.len() - 1]);
        }
        assert(r =~= trigger);
    }
}

/// Whoever it is from and whatever it replies to: a message is answered if and only if it
/// holds the trigger or replies to the bot, and it says something besides the trigger, has
/// an attachment, or is a reply.
pub proof fn law_who_is_answered(cfg: Config, t: TriggerV, reply_to_ai: bool)
    ensures
        ({
            let text = trimmed(t.body);
            let quotes = t.quoted_text is Some || t.quoted_ts is Some || t.quoted_author is Some
                || t.quoted_thumbnails.len() > 0;
            summons(cfg, t, reply_to_ai) <==> (occurs(text, cfg.trigger@) || reply_to_ai) && (
            !says_nothing(text, cfg.trigger@) || t.own_atts.len() > 0 || quotes)
        }),
{
    lemma_says_nothing(trimmed(t.body), cfg.trigger@);
}

/// A quote never makes the bot silent: a message that is answered is answered with a
/// quote too, whatever it quotes; and so is one that is answered when it replies to the
/// bot.
pub proof fn law_a_quote_never_silences(cfg: Config, t: TriggerV, q: TriggerV, reply_to_ai: bool)
    requires
        summons(cfg, t, reply_to_ai),
        q.body == t.body,
        q.own_atts.len() >= t.own_atts.len(),
        t.is_reply() ==> q.is_reply(),
    ensures
        summons(cfg, q, reply_to_ai),
        summons(cfg, q, true),
{
}

/// A prompt gets as many messages of context as the number right behind the first trigger
/// in it says, where that is less than are configured; and as many as are configured where
/// there is no number or it is larger.
pub proof fn law_digits_narrow_the_context(
    cfg: Config,
    t: TriggerV,
    before: Seq<char>,
    run: Seq<char>,
    rest: Seq<char>,
)
    requires
        trimmed(t.body) == before + cfg.trigger@ + run + rest,
        forall|i: int| 0 <= i < before.len() ==> !occurs_at(trimmed(t.body), cfg.trigger@, i),
        forall|i: int| 0 <= i < run.len() ==> '0' <= #[trigger] run[i] <= '9',
        rest.len() == 0 || !('0' <= rest[0] <= '9'),
    ensures
        run.len() > 0 && number(run) < cfg.context_messages ==> context_size(cfg, t) == number(run),
        run.len() == 0 || number(run) >= cfg.context_messages ==> context_size(cfg, t)
            == cfg.context_messages,
{
    let text = trimmed(t.body);
    let trigger = cfg.trigger@;
    let n = before.len() as int;
    assert(text.subrange(n, n + trigger.len()) =~= trigger);
    assert(occurs_at(text, trigger, n));
    lemma_find_from(text, trigger, 0);
    assert(find(text, trigger) == Some(n));
    let tail = text.skip(n + trigger.len());
    assert(tail =~= run + rest);
    assert forall|i: int| 0 <= i < run.len() implies is_digit(#[trigger] tail[i]) by {
        assert(tail[i] == run[i]);
    }
    if rest.len() > 0 {
        assert(tail[run.len() as int] == rest[0]);
    }
    lemma_leading_digits(tail, run.len() as int);
    assert(tail.take(run.len() as int) =~= run);
    law_numbers_are_read(run, usize::MAX as nat);
    if run.len() > 0 {
        assert(run[0] != '+');
    }
}

/// A message without the trigger gets as much context as is configured.
pub proof fn law_without_the_trigger_all_context_is_given(cfg: Config, t: TriggerV)
    requires
        !occurs(trimmed(t.body), cfg.trigger@),
    ensures
        context_size(cfg, t) == cfg.context_messages,
{
    lemma_find_has(trimmed(t.body), cfg.trigger@);
}

/// A text is cut where it is too long, and then it is its beginning with an ellipsis.
pub proof fn law_long_texts_are_cut(s: Seq<char>, max: nat)
    ensures
        s.len() <= max ==> cut(s, max) == s,
        s.len() > max ==> cut(s, max) == s.subrange(0, max as int) + "…"@,
{
    if s.len() > max {
        assert(s.take(max as int) =~= s.subrange(0, max as int));
    }
}

/// A continuation builds on the conversation as it was kept, and takes in what came after
/// the answer; anything else starts from nothing, with the last messages.
pub proof fn law_what_an_answer_builds_on(c: CachedV, context_messages: usize)
    ensures
        ({
            let o = opened(Some(c), context_messages);
            &&& o.convo == c.convo
            &&& o.transcript == c.transcript
            &&& o.chat_context == Some(c.chat_context)
            &&& o.since == c.tip_ts
            &&& o.limit is None
        }),
        ({
            let o = opened(None, context_messages);
            &&& o.convo.len() == 0
            &&& o.transcript.catalog.len() == 0
            &&& o.transcript.numbers == Map::<u64, usize>::empty()
            &&& o.transcript.inlined == Set::<u64>::empty()
            &&& o.chat_context is None
            &&& o.since == 0
            &&& o.limit == Some(context_messages)
        }),
{
}

/// Errors, and answers that say nothing, are not kept; everything else is.
pub proof fn law_errors_are_not_kept(
    cache: CacheV,
    root_ts: u64,
    image_ts: Option<u64>,
    answer: Seq<char>,
    cached: CachedV,
    parent: Option<u64>,
    now: u64,
)
    ensures
        answer == "(empty response)"@ || (answer.len() >= 9 && answer.subrange(0, 9)
            == "ai error:"@) ==> remembered(
            cache,
            root_ts,
            image_ts,
            answer,
            cached,
            parent,
            now,
        ) == cache,
        answer != "(empty response)"@ && (answer.len() < 9 || answer.subrange(0, 9)
            != "ai error:"@) ==> !is_error(answer),
{
    reveal_strlit("ai error:");
    assert("ai error:"@.len() == 9);
    if answer.len() >= 9 {
        assert(answer.take(9) =~= answer.subrange(0, 9));
    }
}

/// What is kept of an exchange is what was said, with the answer as the last turn of the
/// bot's, the chat as it was described, and where the answer ends.
pub proof fn law_what_is_kept(done: Finished)
    ensures
        done.cached().convo.len() == done.convo@.len() + 1,
        forall|i: int|
            0 <= i < done.convo@.len() ==> #[trigger] done.cached().convo[i] == done.convo@[i]@,
        done.cached().convo.last().get("role"@) == Some(JsonV::Str("assistant"@)),
        done.cached().convo.last().get("content"@) == Some(JsonV::Str(done.answer@)),
        done.cached().chat_context == done.chat_context@,
        done.cached().transcript == done.transcript@,
        done.cached().tip_ts == done.tip_ts,
{
    law_a_turn_says_who_says_what("assistant"@, done.answer@);
}

/// The history goes behind what there is, all of it, and nothing that there is changes.
pub proof fn law_history_goes_behind(o: OpeningV, cfg: Config, history: Seq<HistMsgV>, i: int)
    ensures
        ({
            let p = o.with_history(cfg, history);
            let turns = o.transcript.turns_of(cfg, history);
            &&& p.convo.len() == o.convo.len() + turns.len()
            &&& p.convo.take(o.convo.len() as int) == o.convo
            &&& 0 <= i < turns.len() ==> p.convo[o.convo.len() + i] == turns[i]
            &&& p.transcript == o.transcript.after_all(history)
            &&& p.chat_context == o.chat_context
            &&& p.since == o.since
            &&& p.limit == o.limit
        }),
{
    assert(o.with_history(cfg, history).convo.take(o.convo.len() as int) =~= o.convo);
}

/// The backlog has drained, after some that has arrived.
pub open spec fn live_at(arrived: Seq<Incoming>) -> bool
    decreases arrived.len(),
{
    arrived.len() > 0 && live_after(live_at(arrived.drop_last()), arrived.last())
}

/// Of what arrives, messages are acted on, all of them from when the server says that the
/// backlog is over, and none before; nothing else is.
pub proof fn law_the_backlog_is_not_answered(arrived: Seq<Incoming>, i: int)
    requires
        0 <= i < arrived.len(),
    ensures
        acted_on(live_at(arrived.take(i)), arrived[i]) <==> arrived[i] == Incoming::Content
            && exists|j: int| 0 <= j < i && #[trigger] arrived[j] == Incoming::QueueEmpty,
{
    lemma_live(arrived.take(i));
    if live_at(arrived.take(i)) {
        let j = choose|j: int|
            0 <= j < i && #[trigger] arrived.take(i)[j] == Incoming::QueueEmpty;
        assert(arrived[j] == Incoming::QueueEmpty);
    }
    if exists|j: int| 0 <= j < i && #[trigger] arrived[j] == Incoming::QueueEmpty {
        let j = choose|j: int| 0 <= j < i && #[trigger] arrived[j] == Incoming::QueueEmpty;
        assert(arrived.take(i)[j] == Incoming::QueueEmpty);
    }
}

proof fn lemma_live(arrived: Seq<Incoming>)
    ensures
        live_at(arrived) <==> exists|j: int|
            0 <= j < arrived.len() && #[trigger] arrived[j] == Incoming::QueueEmpty,
    decreases arrived.len(),
{
    if arrived.len() > 0 {
        let head = arrived.drop_last();
        lemma_live(head);
        if live_at(head) {
            let j = choose|j: int| 0 <= j < head.len() && #[trigger] head[j]
                == Incoming::QueueEmpty;
            assert(arrived[j] == Incoming::QueueEmpty);
        }
        if exists|j: int| 0 <= j < arrived.len() && #[trigger] arrived[j] == Incoming::QueueEmpty {
            let j = choose|j: int|
                0 <= j < arrived.len() && #[trigger] arrived[j] == Incoming::QueueEmpty;
            if j < head.len() {
                assert(head[j] == Incoming::QueueEmpty);
            }
        }
        if live_at(arrived) && !live_at(head) {
            assert(arrived[arrived.len() - 1] == Incoming::QueueEmpty);
        }
    }
}

/// Nothing is pruned while the backlog is being replayed, nor where history is kept for
/// good; otherwise what is older than the settings say.
pub proof fn law_when_to_prune(retention: Option<u64>)
    ensures
        due(false, retention) is None,
        due(true, retention) == retention,
{
}

} // verus!
