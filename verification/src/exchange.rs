//! One exchange with the model: requests, tool calls, and the message that is edited
//! into the answer.
use vstd::prelude::*;

use crate::ai::{tool_calls, Phase, ToolCall, ToolCallV};
use crate::config::Config;
use crate::handler::{call_key, cut, truncated};
use crate::json::{jsons, law_three_fields, lemma_jsons_push, Json, JsonV};
use crate::media::{decode_data_uri, uri_decoded};
use crate::stream::{Completion, CompletionV};
use crate::text::{
    copy, is_blank, law_trimmed_is_the_middle, lemma_texts_push, same_text, texts, trimmed, white,
};
use crate::tools::{ToolResult, ToolResultV};
use crate::transcript::{user_turn, user_turn_value};

verus! {

broadcast use {lemma_jsons_push, lemma_texts_push};

/// How many times the model is asked at most before it has to conclude.
pub const MAX_AI_REQUESTS: usize = 4;

/// What stands in for an answer that has no words and no images.
pub open spec fn empty_answer() -> Seq<char> {
    "(empty response)"@
}

/// A text without anything to read.
pub open spec fn blank(s: Seq<char>) -> bool {
    trimmed(s).len() == 0
}

/// The time at which something is sent: now, but strictly after what was sent before,
/// regardless of clock skew.
pub open spec fn sent_at(now: u64, after: u64) -> int {
    if now > after {
        now as int
    } else {
        after + 1
    }
}

fn send_time(now: u64, after: u64) -> (r: u64)
    requires
        after < u64::MAX,
    ensures
        r == sent_at(now, after),
{
    if now > after {
        now
    } else {
        after + 1
    }
}

/// A revision of the answer: what it says, when it is sent, and the revision it
/// replaces. Each edit targets the previous revision, not the original, or the client
/// renders it as a separate message.
pub struct Edit {
    pub target: u64,
    pub ts: u64,
    pub text: String,
}

/// The last revision of a message that was first sent at `root_ts`.
pub open spec fn tip(root_ts: u64, edits: Seq<Edit>) -> u64 {
    if edits.len() == 0 {
        root_ts
    } else {
        edits.last().ts
    }
}

/// Each edit replaces the revision before it, the first one the message itself.
pub open spec fn chained(root_ts: u64, edits: Seq<Edit>) -> bool {
    forall|i: int|
        0 <= i < edits.len() ==> (#[trigger] edits[i]).target == tip(root_ts, edits.take(i))
}

/// What a call is recognised by.
pub open spec fn key_of(call: ToolCallV) -> (Seq<char>, Seq<char>) {
    (call.name, call.arguments)
}

/// What the calls are recognised by.
pub open spec fn keys_of(calls: Seq<ToolCallV>) -> Set<(Seq<char>, Seq<char>)> {
    Set::new(
        |k: (Seq<char>, Seq<char>)|
            exists|i: int| 0 <= i < calls.len() && key_of(#[trigger] calls[i]) == k,
    )
}

/// Every one of the calls has been made and answered before: the model is going in
/// circles rather than making progress.
pub open spec fn repeating(spent: Set<(Seq<char>, Seq<char>)>, calls: Seq<ToolCallV>) -> bool {
    forall|i: int| 0 <= i < calls.len() ==> spent.contains(key_of(#[trigger] calls[i]))
}

/// The turn that answers a tool call.
pub open spec fn tool_turn(id: Seq<char>, content: Seq<char>) -> JsonV {
    JsonV::object().with("role"@, JsonV::Str("tool"@)).with("tool_call_id"@, JsonV::Str(id)).with(
        "content"@,
        JsonV::Str(content),
    )
}

/// The turns that answer tool calls.
pub open spec fn tool_turns(calls: Seq<ToolCallV>, results: Seq<ToolResultV>) -> Seq<JsonV> {
    Seq::new(calls.len(), |i: int| tool_turn(calls[i].id, results[i].content))
}

/// The turns that carry the media of results: media can't ride in a tool result, so it
/// follows as user turns once every call has been answered.
pub open spec fn follow_ups(results: Seq<ToolResultV>) -> Seq<JsonV>
    decreases results.len(),
{
    if results.len() == 0 {
        Seq::empty()
    } else {
        let rest = follow_ups(results.drop_last());
        match results.last().media {
            Some(media) => rest.push(user_turn(results.last().content, media)),
            None => rest,
        }
    }
}

/// The models of a list of results.
pub open spec fn results_view(v: Seq<ToolResult>) -> Seq<ToolResultV> {
    Seq::new(v.len(), |i: int| v[i]@)
}

/// The pairs of texts in a list, as a set.
pub open spec fn key_set(v: Seq<(String, String)>) -> Set<(Seq<char>, Seq<char>)> {
    Set::new(
        |k: (Seq<char>, Seq<char>)|
            exists|i: int| 0 <= i < v.len() && ((#[trigger] v[i]).0@, v[i].1@) == k,
    )
}

/// What an exchange waits for.
#[derive(Clone, Copy, PartialEq, Eq, Structural)]
pub enum Stage {
    /// a turn of the model's, with tools on offer
    Asking,
    /// the answers to the pending calls
    Calling,
    /// out of rounds, or repeating itself: an answer with no tools on offer, so that
    /// the reply is an answer rather than a report of our own limit
    Concluding,
    /// a line to send with images that the model made but said nothing about
    Captioning,
    /// the images, uploaded
    Uploading,
    /// nothing more: the answer can be sent
    Answering,
}

/// An exchange under way.
pub struct Exchange {
    pub stage: Stage,
    /// when the message was first sent
    pub placeholder_ts: u64,
    /// when its last revision was sent
    pub last_ts: u64,
    /// the phase that it shows
    pub shown: Option<Phase>,
    /// what has been said, the answers to tool calls included
    pub convo: Vec<Json>,
    pub answer: String,
    /// data uris of images that the provider made
    pub generated: Vec<String>,
    /// tool calls already made
    pub spent: Vec<(String, String)>,
    /// tool calls to be answered
    pub pending: Vec<ToolCall>,
    /// how many rounds of tool calls have been answered
    pub round: usize,
}

/// The mathematical model of an exchange.
#[verifier::ext_equal]
pub struct ExchangeV {
    pub stage: Stage,
    pub placeholder_ts: u64,
    pub last_ts: u64,
    pub shown: Option<Phase>,
    pub convo: Seq<JsonV>,
    pub answer: Seq<char>,
    pub generated: Seq<Seq<char>>,
    pub spent: Set<(Seq<char>, Seq<char>)>,
    pub pending: Seq<ToolCallV>,
    pub round: usize,
}

impl View for Exchange {
    type V = ExchangeV;

    open spec fn view(&self) -> ExchangeV {
        ExchangeV {
            stage: self.stage,
            placeholder_ts: self.placeholder_ts,
            last_ts: self.last_ts,
            shown: self.shown,
            convo: jsons(self.convo@),
            answer: self.answer@,
            generated: texts(self.generated@),
            spent: key_set(self.spent@),
            pending: tool_calls(self.pending@),
            round: self.round,
        }
    }
}

/// The status line of a phase.
pub open spec fn status_of(cfg: Config, phase: Phase) -> Seq<char> {
    match phase {
        Phase::Reasoning => cfg.reasoning_msg@,
        Phase::Generating => cfg.generating_msg@,
        Phase::Tool => cfg.tool_msg@,
    }
}

impl ExchangeV {
    /// A round is left wherever one is needed, and revisions follow one another.
    pub open spec fn wf(self) -> bool {
        &&& self.round < MAX_AI_REQUESTS
        &&& self.stage == Stage::Calling ==> self.round + 1 < MAX_AI_REQUESTS
        &&& self.placeholder_ts <= self.last_ts
    }

    /// Nothing has come back yet.
    pub open spec fn started(ts: u64, convo: Seq<JsonV>) -> ExchangeV {
        ExchangeV {
            stage: Stage::Asking,
            placeholder_ts: ts,
            last_ts: ts,
            shown: None,
            convo,
            answer: Seq::empty(),
            generated: Seq::empty(),
            spent: Set::empty(),
            pending: Seq::empty(),
            round: 0,
        }
    }

    /// A revision was sent.
    pub open spec fn revised(self, ts: u64) -> ExchangeV {
        ExchangeV { last_ts: ts, ..self }
    }

    /// A phase is shown, by a revision sent at `now` or after, unless it is already.
    pub open spec fn phased(self, phase: Phase, now: u64) -> ExchangeV {
        if self.shown == Some(phase) {
            self
        } else {
            ExchangeV {
                shown: Some(phase),
                ..self.revised(sent_at(now, self.last_ts) as u64)
            }
        }
    }

    /// A provider-run image tool ends the turn with no words of its own.
    pub open spec fn wants_caption(self) -> bool {
        self.generated.len() > 0 && blank(self.answer)
    }

    /// There is no more to be had of the model, but for a caption where one is wanted.
    pub open spec fn said(self) -> ExchangeV {
        ExchangeV {
            stage: if self.wants_caption() {
                Stage::Captioning
            } else {
                Stage::Uploading
            },
            ..self
        }
    }

    /// The request failed.
    pub open spec fn failed(self, error: Seq<char>) -> ExchangeV {
        (ExchangeV { answer: "ai error: "@ + cut(error, 200), ..self }).said()
    }

    /// The images of a turn are added to those made so far.
    pub open spec fn with_images(self, images: Seq<Seq<char>>) -> ExchangeV {
        ExchangeV { generated: self.generated + images, ..self }
    }

    /// The exchange after a turn of the model's: without calls it is the answer; calls
    /// are made unless they only repeat earlier ones or no round is left for their
    /// answers.
    pub open spec fn after_turn(self, turn: CompletionV) -> ExchangeV {
        let e = self.with_images(turn.images);
        if turn.calls.len() == 0 {
            (ExchangeV { answer: turn.text, ..e }).said()
        } else if repeating(self.spent, turn.calls) || self.round + 1 == MAX_AI_REQUESTS {
            ExchangeV {
                stage: Stage::Concluding,
                spent: e.spent.union(keys_of(turn.calls)),
                ..e
            }
        } else {
            ExchangeV {
                stage: Stage::Calling,
                spent: e.spent.union(keys_of(turn.calls)),
                pending: turn.calls,
                convo: e.convo.push(turn.assistant),
                ..e
            }
        }
    }

    /// The exchange once the pending calls have been answered.
    pub open spec fn after_tools(self, results: Seq<ToolResultV>) -> ExchangeV {
        ExchangeV {
            stage: Stage::Asking,
            convo: self.convo + tool_turns(self.pending, results) + follow_ups(results),
            pending: Seq::empty(),
            round: (self.round + 1) as usize,
            ..self
        }
    }

    /// The exchange with an answer, where there is anything to read in it.
    pub open spec fn answered(self, text: Option<Seq<char>>) -> ExchangeV {
        match text {
            Some(t) => if blank(t) {
                self
            } else {
                ExchangeV { answer: t, ..self }
            },
            None => self,
        }
    }

    /// The exchange once it is certain whether nothing at all is going to be sent.
    pub open spec fn settled(self, attached: nat) -> ExchangeV {
        ExchangeV {
            stage: Stage::Answering,
            answer: if blank(self.answer) && attached == 0 {
                empty_answer()
            } else {
                self.answer
            },
            ..self
        }
    }

    /// How much there is still to wait for, at most.
    pub open spec fn left(self) -> int {
        match self.stage {
            Stage::Asking => 10 * (MAX_AI_REQUESTS - self.round) + 5,
            Stage::Calling => 10 * (MAX_AI_REQUESTS - self.round) + 4,
            Stage::Concluding => 3,
            Stage::Captioning => 2,
            Stage::Uploading => 1,
            Stage::Answering => 0,
        }
    }
}

/// The images that can be read, in order.
pub open spec fn readable(uris: Seq<Seq<char>>) -> Seq<(Seq<char>, Seq<u8>)>
    decreases uris.len(),
{
    if uris.len() == 0 {
        Seq::empty()
    } else {
        let rest = readable(uris.drop_last());
        match uri_decoded(uris.last()) {
            Some(p) => rest.push(p),
            None => rest,
        }
    }
}

/// The models of images with their types.
pub open spec fn typed_bytes(v: Seq<(String, Vec<u8>)>) -> Seq<(Seq<char>, Seq<u8>)> {
    Seq::new(v.len(), |i: int| (v[i].0@, v[i].1@))
}

impl Exchange {
    /// The exchange on what has been said, with the message that will be the answer
    /// sent strictly after the trigger so that it sorts after the prompt.
    pub fn new(now: u64, trigger_ts: u64, convo: Vec<Json>) -> (r: Exchange)
        requires
            trigger_ts < u64::MAX,
        ensures
            r@.wf(),
            r@.placeholder_ts == sent_at(now, trigger_ts),
            r@ == ExchangeV::started(r@.placeholder_ts, jsons(convo@)),
    {
        let ts = send_time(now, trigger_ts);
        let r = Exchange {
            stage: Stage::Asking,
            placeholder_ts: ts,
            last_ts: ts,
            shown: None,
            convo,
            answer: String::new(),
            generated: Vec::new(),
            spent: Vec::new(),
            pending: Vec::new(),
            round: 0,
        };
        assert(r@ =~= ExchangeV::started(ts, jsons(convo@)));
        r
    }

    /// The revision that shows a phase, unless it is shown already.
    pub fn on_phase(&mut self, cfg: &Config, phase: Phase, now: u64) -> (r: Option<Edit>)
        requires
            old(self)@.wf(),
            old(self)@.last_ts < u64::MAX,
        ensures
            final(self)@.wf(),
            old(self)@.shown == Some(phase) ==> r is None && final(self)@ == old(self)@,
            old(self)@.shown != Some(phase) ==> r is Some && r->0.target == old(self)@.last_ts
                && r->0.ts == sent_at(now, old(self)@.last_ts) && r->0.text@ == status_of(
                *cfg,
                phase,
            ) && final(self)@ == (ExchangeV {
                shown: Some(phase),
                ..old(self)@.revised(r->0.ts)
            }),
            final(self)@ == old(self)@.phased(phase, now),
    {
        let same = match self.shown {
            Some(p) => p == phase,
            None => false,
        };
        if same {
            return None;
        }
        self.shown = Some(phase);
        let text = match phase {
            Phase::Reasoning => copy(&cfg.reasoning_msg),
            Phase::Generating => copy(&cfg.generating_msg),
            Phase::Tool => copy(&cfg.tool_msg),
        };
        let target = self.last_ts;
        let ts = send_time(now, target);
        self.last_ts = ts;
        Some(Edit { target, ts, text })
    }

    /// Records a call; has it been made before?
    fn spend(&mut self, call: &ToolCall) -> (r: bool)
        ensures
            r == old(self)@.spent.contains(key_of(call@)),
            final(self)@ == (ExchangeV {
                spent: old(self)@.spent.insert(key_of(call@)),
                ..old(self)@
            }),
            final(self).convo == old(self).convo,
    {
        let key = call_key(call);
        let ghost k = key_of(call@);
        let ghost start = self.spent@;
        for i in 0..self.spent.len()
            invariant
                *self == *old(self),
                start == self.spent@,
                k == (key.0@, key.1@),
                k == key_of(call@),
                forall|j: int| 0 <= j < i ==> ((#[trigger] start[j]).0@, start[j].1@) != k,
        {
            if same_text(&self.spent[i].0, &key.0) && same_text(&self.spent[i].1, &key.1) {
                assert((start[i as int].0@, start[i as int].1@) == k);
                assert(self@.spent.contains(k));
                assert(self@.spent.insert(k) =~= self@.spent);
                return true;
            }
        }
        assert(!key_set(start).contains(k));
        self.spent.push(key);
        assert(key_set(self.spent@) =~= key_set(start).insert(k)) by {
            let v = self.spent@;
            assert(v == start.push(key));
            assert forall|x: (Seq<char>, Seq<char>)| key_set(v).contains(x) <==> key_set(
                start,
            ).insert(k).contains(x) by {
                if key_set(v).contains(x) {
                    let i = choose|i: int| 0 <= i < v.len() && ((#[trigger] v[i]).0@, v[i].1@) == x;
                    if i < start.len() {
                        assert((start[i].0@, start[i].1@) == x);
                    }
                }
                if key_set(start).contains(x) {
                    let i = choose|i: int|
                        0 <= i < start.len() && ((#[trigger] start[i]).0@, start[i].1@) == x;
                    assert((v[i].0@, v[i].1@) == x);
                }
                if x == k {
                    assert((v[start.len() as int].0@, v[start.len() as int].1@) == x);
                }
            }
        }
        false
    }

    /// No more is asked of the model, but for a caption where one is wanted.
    fn said(&mut self)
        requires
            old(self)@.wf(),
        ensures
            final(self)@.wf(),
            final(self)@ == old(self)@.said(),
    {
        if self.generated.len() > 0 && is_blank(&self.answer) {
            self.stage = Stage::Captioning;
        } else {
            self.stage = Stage::Uploading;
        }
    }

    /// The exchange after the model was asked: what it said, or why it could not be
    /// asked.
    pub fn on_completion(&mut self, result: Result<Completion, String>)
        requires
            old(self)@.wf(),
            old(self)@.stage == Stage::Asking,
        ensures
            final(self)@.wf(),
            final(self)@ == (match result {
                Ok(turn) => old(self)@.after_turn(turn@),
                Err(e) => old(self)@.failed(e@),
            }),
    {
        let ghost start = self@;
        let turn = match result {
            Ok(turn) => turn,
            Err(e) => {
                let mut answer = copy("ai error: ");
                answer.append(&truncated(&e, 200));
                self.answer = answer;
                self.said();
                return;
            },
        };
        let ghost said = turn@;
        let Completion { assistant, text, images, calls } = turn;
        let mut made = images;
        let ghost before = self.generated@;
        let ghost added = made@;
        self.generated.append(&mut made);
        assert(texts(self.generated@) =~= texts(before) + texts(added));
        let ghost e = start.with_images(said.images);
        assert(self@ =~= e);
        if calls.len() == 0 {
            self.answer = text;
            self.said();
            return;
        }
        let mut repeats = true;
        let ghost all = said.calls;
        assert(keys_of(all.take(0)) =~= Set::empty());
        assert(e.spent.union(Set::empty()) =~= e.spent);
        for i in 0..calls.len()
            invariant
                all == tool_calls(calls@),
                self@ == (ExchangeV { spent: e.spent.union(keys_of(all.take(i as int))), ..e }),
                repeats == repeating(e.spent, all.take(i as int)),
        {
            let ghost seen = all.take(i as int);
            let ghost more = all.take(i + 1);
            let ghost k = key_of(all[i as int]);
            assert(calls@[i as int]@ == all[i as int]);
            let known = self.spend(&calls[i]);
            proof {
                assert(known == (e.spent.contains(k) || keys_of(seen).contains(k)));
                if repeats && keys_of(seen).contains(k) {
                    let j = choose|j: int| 0 <= j < seen.len() && key_of(#[trigger] seen[j]) == k;
                    assert(e.spent.contains(key_of(seen[j])));
                }
                assert(more =~= seen.push(all[i as int]));
                if repeats && e.spent.contains(k) {
                    assert forall|j: int| 0 <= j < more.len() implies e.spent.contains(
                        key_of(#[trigger] more[j]),
                    ) by {
                        if j < seen.len() {
                            assert(more[j] == seen[j]);
                        }
                    }
                }
                if repeating(e.spent, more) {
                    assert forall|j: int| 0 <= j < seen.len() implies e.spent.contains(
                        key_of(#[trigger] seen[j]),
                    ) by {
                        assert(more[j] == seen[j]);
                    }
                    assert(e.spent.contains(key_of(more[i as int])));
                }
                assert(e.spent.union(keys_of(seen)).insert(k) =~= e.spent.union(
                    keys_of(more),
                )) by {
                    lemma_keys_push(seen, all[i as int]);
                }
            }
            repeats = repeats && known;
        }
        assert(all.take(all.len() as int) =~= all);
        if repeats || self.round + 1 == MAX_AI_REQUESTS {
            self.stage = Stage::Concluding;
        } else {
            self.stage = Stage::Calling;
            self.pending = calls;
            self.convo.push(assistant);
        }
    }

    /// The exchange once the pending calls have been answered, in their order.
    pub fn on_tools(&mut self, results: Vec<ToolResult>)
        requires
            old(self)@.wf(),
            old(self)@.stage == Stage::Calling,
            old(self)@.pending.len() == results@.len(),
        ensures
            final(self)@.wf(),
            final(self)@ == old(self)@.after_tools(results_view(results@)),
    {
        let mut calls: Vec<ToolCall> = Vec::new();
        std::mem::swap(&mut calls, &mut self.pending);
        assert(tool_calls(self.pending@) =~= Seq::empty());
        let ghost start = self@;
        let ghost cs = tool_calls(calls@);
        let ghost rs = results_view(results@);
        let ghost answers = tool_turns(cs, rs);
        let mut follow: Vec<Json> = Vec::new();
        assert(rs.take(0) =~= Seq::empty());
        assert(jsons(follow@) =~= Seq::empty());
        assert(start.convo + answers.take(0) =~= start.convo);
        for i in 0..results.len()
            invariant
                cs == tool_calls(calls@),
                rs == results_view(results@),
                calls@.len() == results@.len(),
                answers == tool_turns(cs, rs),
                self@ == (ExchangeV { convo: start.convo + answers.take(i as int), ..start }),
                jsons(follow@) == follow_ups(rs.take(i as int)),
        {
            assert(rs.take(i + 1).drop_last() =~= rs.take(i as int));
            let result = &results[i];
            self.convo.push(
                Json::object().with("role", Json::text("tool")).with(
                    "tool_call_id",
                    Json::text(&calls[i].id),
                ).with("content", Json::text(&result.content)),
            );
            assert(answers[i as int] == tool_turn(calls@[i as int]@.id, result@.content));
            assert(answers.take(i + 1) =~= answers.take(i as int).push(answers[i as int]));
            assert(start.convo + answers.take(i + 1) =~= (start.convo + answers.take(
                i as int,
            )).push(answers[i as int]));
            if let Some(media) = &result.media {
                follow.push(user_turn_value(copy(&result.content), media));
            }
        }
        assert(rs.take(rs.len() as int) =~= rs);
        assert(answers.take(answers.len() as int) =~= answers);
        let ghost said = self.convo@;
        let ghost added = follow@;
        self.convo.append(&mut follow);
        assert(jsons(self.convo@) =~= jsons(said) + jsons(added));
        self.round = self.round + 1;
        self.stage = Stage::Asking;
    }

    /// The exchange once the model was asked for an answer with no tools on offer, or
    /// could not be.
    pub fn on_conclusion(&mut self, text: Option<String>)
        requires
            old(self)@.wf(),
            old(self)@.stage == Stage::Concluding,
        ensures
            final(self)@.wf(),
            final(self)@ == old(self)@.answered(crate::attachment::text_opt(text)).said(),
    {
        if let Some(t) = text {
            if !is_blank(&t) {
                self.answer = t;
            }
        }
        self.said();
    }

    /// The exchange once the model was asked for a line to send with the images that it
    /// made, or could not be.
    pub fn on_caption(&mut self, line: Option<String>)
        requires
            old(self)@.wf(),
            old(self)@.stage == Stage::Captioning,
        ensures
            final(self)@.wf(),
            final(self)@ == (ExchangeV {
                stage: Stage::Uploading,
                ..old(self)@.answered(crate::attachment::text_opt(line))
            }),
    {
        if let Some(t) = line {
            if !is_blank(&t) {
                self.answer = t;
            }
        }
        self.stage = Stage::Uploading;
    }

    /// The images that the provider made, skipping any that cannot be read.
    pub fn images(&self) -> (r: Vec<(String, Vec<u8>)>)
        ensures
            typed_bytes(r@) == readable(self@.generated),
    {
        let ghost all = self@.generated;
        let mut out: Vec<(String, Vec<u8>)> = Vec::new();
        assert(all.take(0) =~= Seq::empty());
        assert(typed_bytes(out@) =~= Seq::empty());
        for i in 0..self.generated.len()
            invariant
                all == texts(self.generated@),
                typed_bytes(out@) == readable(all.take(i as int)),
        {
            assert(all.take(i + 1).drop_last() =~= all.take(i as int));
            let ghost before = typed_bytes(out@);
            if let Some(image) = decode_data_uri(&self.generated[i]) {
                out.push(image);
                assert(typed_bytes(out@) =~= before.push((image.0@, image.1@)));
            }
        }
        assert(all.take(all.len() as int) =~= all);
        out
    }

    /// The exchange once `attached` images have been uploaded. Only now is it certain
    /// whether nothing at all is going to be sent.
    pub fn on_uploaded(&mut self, attached: usize)
        requires
            old(self)@.wf(),
            old(self)@.stage == Stage::Uploading,
        ensures
            final(self)@.wf(),
            final(self)@ == old(self)@.settled(attached as nat),
            attached == 0 ==> !blank(final(self)@.answer),
    {
        if is_blank(&self.answer) && attached == 0 {
            self.answer = copy("(empty response)");
            proof {
                lemma_empty_answer();
            }
        }
        self.stage = Stage::Answering;
    }

    /// The last revision: the answer.
    pub fn final_edit(&mut self, now: u64) -> (r: Edit)
        requires
            old(self)@.wf(),
            old(self)@.stage == Stage::Answering,
            old(self)@.last_ts < u64::MAX,
        ensures
            final(self)@.wf(),
            r.target == old(self)@.last_ts,
            r.ts == sent_at(now, old(self)@.last_ts),
            r.text@ == old(self)@.answer,
            final(self)@ == old(self)@.revised(r.ts),
    {
        let target = self.last_ts;
        let ts = send_time(now, target);
        self.last_ts = ts;
        Edit { target, ts, text: copy(&self.answer) }
    }

    /// When the images are sent, as a message of their own behind the answer: an edit
    /// can't carry attachments.
    pub fn image_ts(&self, now: u64) -> (r: u64)
        requires
            self@.last_ts < u64::MAX,
        ensures
            r == sent_at(now, self@.last_ts),
    {
        send_time(now, self.last_ts)
    }
}

proof fn lemma_keys_push(seen: Seq<ToolCallV>, call: ToolCallV)
    ensures
        keys_of(seen.push(call)) == keys_of(seen).insert(key_of(call)),
{
    let more = seen.push(call);
    assert forall|k: (Seq<char>, Seq<char>)| keys_of(more).contains(k) <==> keys_of(seen).insert(
        key_of(call),
    ).contains(k) by {
        if keys_of(more).contains(k) {
            let i = choose|i: int| 0 <= i < more.len() && key_of(#[trigger] more[i]) == k;
            if i < seen.len() {
                assert(key_of(seen[i]) == k);
            }
        }
        if keys_of(seen).contains(k) {
            let i = choose|i: int| 0 <= i < seen.len() && key_of(#[trigger] seen[i]) == k;
            assert(key_of(more[i]) == k);
        }
        if k == key_of(call) {
            assert(key_of(more[seen.len() as int]) == k);
        }
    }
    assert(keys_of(more) =~= keys_of(seen).insert(key_of(call)));
}

proof fn lemma_empty_answer()
    ensures
        !blank(empty_answer()),
{
    reveal_strlit("(empty response)");
    let s = empty_answer();
    assert(!crate::text::white(s[0]));
    assert(!crate::text::white(s[s.len() - 1]));
    assert(trimmed(s) == s);
}

// ---------------------------------------------------------------------------
// laws

/// Whatever the model says, the exchange comes to an end: everything that it waits for
/// brings it closer to the answer.
pub proof fn law_exchange_ends(
    e: ExchangeV,
    turn: CompletionV,
    error: Seq<char>,
    results: Seq<ToolResultV>,
    text: Option<Seq<char>>,
    attached: nat,
)
    requires
        e.wf(),
    ensures
        e.left() >= 0,
        e.stage == Stage::Asking ==> e.after_turn(turn).left() < e.left() && e.failed(error).left()
            < e.left(),
        e.stage == Stage::Calling ==> e.after_tools(results).left() < e.left(),
        e.stage == Stage::Concluding ==> e.answered(text).said().left() < e.left(),
        e.stage == Stage::Captioning ==> (ExchangeV {
            stage: Stage::Uploading,
            ..e.answered(text)
        }).left() < e.left(),
        e.stage == Stage::Uploading ==> e.settled(attached).left() < e.left(),
{
}

/// The model is asked a bounded number of times with tools on offer: every round of
/// calls uses one up, and in the last one no calls are made.
pub proof fn law_rounds_are_bounded(e: ExchangeV, turn: CompletionV)
    requires
        e.wf(),
        e.round + 1 == MAX_AI_REQUESTS,
    ensures
        e.after_turn(turn).stage != Stage::Calling,
        e.after_turn(turn).round == e.round,
{
}

/// A round of calls that were all made before, be it in the last round or in an
/// earlier one, ends in a conclusion; and what was made once counts from then on.
pub proof fn law_no_going_in_circles(
    e: ExchangeV,
    turn: CompletionV,
    results: Seq<ToolResultV>,
    again: CompletionV,
)
    requires
        e.after_turn(turn).stage == Stage::Calling,
        again.calls.len() > 0,
        forall|i: int|
            0 <= i < again.calls.len() ==> e.spent.contains(key_of(#[trigger] again.calls[i]))
                || keys_of(turn.calls).contains(key_of(again.calls[i])),
    ensures
        e.after_turn(turn).after_tools(results).after_turn(again).stage == Stage::Concluding,
        e.spent.subset_of(e.after_turn(turn).after_tools(results).spent),
        keys_of(turn.calls).subset_of(e.after_turn(turn).after_tools(results).spent),
{
    let f = e.after_turn(turn);
    assert(repeating(f.spent, again.calls)) by {
        assert forall|i: int| 0 <= i < again.calls.len() implies f.spent.contains(
            key_of(#[trigger] again.calls[i]),
        ) by {}
    }
}

/// What has been said stays as it is: turns are only ever added behind it, so that
/// the server keeps its prompt cache.
pub proof fn law_conversation_only_grows(
    e: ExchangeV,
    turn: CompletionV,
    results: Seq<ToolResultV>,
)
    ensures
        e.after_turn(turn).convo.len() >= e.convo.len(),
        e.after_turn(turn).convo.take(e.convo.len() as int) == e.convo,
        e.after_tools(results).convo.len() >= e.convo.len(),
        e.after_tools(results).convo.take(e.convo.len() as int) == e.convo,
{
    assert(e.after_turn(turn).convo.take(e.convo.len() as int) =~= e.convo);
    assert(e.after_tools(results).convo.take(e.convo.len() as int) =~= e.convo);
}

/// Something is always sent: an answer with words, or images.
pub proof fn law_something_is_sent(e: ExchangeV, attached: nat)
    ensures
        attached > 0 || !blank(e.settled(attached).answer),
{
    lemma_empty_answer();
}

/// Whatever the clock says, what is sent comes strictly after what was sent before.
pub proof fn law_sent_in_order(now: u64, after: u64)
    ensures
        sent_at(now, after) > after,
        sent_at(now, after) >= now,
        sent_at(now, after) == now || sent_at(now, after) == after + 1,
{
}

/// The placeholder and the last revision are the same.
pub open spec fn same_chain(e: ExchangeV, f: ExchangeV) -> bool {
    f.placeholder_ts == e.placeholder_ts && f.last_ts == e.last_ts
}

/// The edits of an exchange are a chain that starts at its placeholder: there are none
/// at first, one that is sent goes to the end of the chain, and nothing else that
/// happens touches it.
pub proof fn law_edits_form_a_chain(
    e: ExchangeV,
    edits: Seq<Edit>,
    edit: Edit,
    turn: CompletionV,
    error: Seq<char>,
    results: Seq<ToolResultV>,
    text: Option<Seq<char>>,
    attached: nat,
    ts: u64,
    convo: Seq<JsonV>,
)
    requires
        chained(e.placeholder_ts, edits),
        tip(e.placeholder_ts, edits) == e.last_ts,
        edit.target == e.last_ts,
    ensures
        chained(ts, Seq::empty()),
        tip(ts, Seq::empty()) == ExchangeV::started(ts, convo).last_ts,
        ExchangeV::started(ts, convo).placeholder_ts == ts,
        chained(e.placeholder_ts, edits.push(edit)),
        tip(e.placeholder_ts, edits.push(edit)) == e.revised(edit.ts).last_ts,
        e.revised(edit.ts).placeholder_ts == e.placeholder_ts,
        same_chain(e, e.after_turn(turn)),
        same_chain(e, e.failed(error)),
        same_chain(e, e.after_tools(results)),
        same_chain(e, e.answered(text)),
        same_chain(e, e.said()),
        same_chain(e, e.settled(attached)),
{
    let all = edits.push(edit);
    assert forall|i: int| 0 <= i < all.len() implies (#[trigger] all[i]).target == tip(
        e.placeholder_ts,
        all.take(i),
    ) by {
        if i < edits.len() {
            assert(all[i] == edits[i]);
            assert(all.take(i) =~= edits.take(i));
        } else {
            assert(all.take(i) =~= edits);
        }
    }
}

/// Every call is answered, in its order, by a turn that names it.
pub proof fn law_every_call_is_answered(e: ExchangeV, results: Seq<ToolResultV>, i: int)
    requires
        0 <= i < e.pending.len(),
        e.pending.len() == results.len(),
    ensures
        e.after_tools(results).convo.len() >= e.convo.len() + e.pending.len(),
        e.after_tools(results).convo[e.convo.len() + i] == tool_turn(
            e.pending[i].id,
            results[i].content,
        ),
{
    let t = tool_turns(e.pending, results);
    let c = e.after_tools(results).convo;
    assert(c[e.convo.len() + i] == t[i]);
}

// ---------------------------------------------------------------------------
// what an exchange does, told by what goes in and what comes out

/// How many of the results carry media.
pub open spec fn with_media(results: Seq<ToolResultV>) -> nat
    decreases results.len(),
{
    if results.len() == 0 {
        0
    } else {
        with_media(results.drop_last()) + if results.last().media is Some {
            1nat
        } else {
            0
        }
    }
}

proof fn lemma_follow_ups_len(results: Seq<ToolResultV>)
    ensures
        follow_ups(results).len() == with_media(results),
    decreases results.len(),
{
    if results.len() > 0 {
        lemma_follow_ups_len(results.drop_last());
    }
}

proof fn lemma_follow_up_at(results: Seq<ToolResultV>, i: int)
    requires
        0 <= i < results.len(),
        results[i].media is Some,
    ensures
        with_media(results.take(i)) < follow_ups(results).len(),
        follow_ups(results)[with_media(results.take(i)) as int] == user_turn(
            results[i].content,
            results[i].media->0,
        ),
    decreases results.len(),
{
    let head = results.drop_last();
    lemma_follow_ups_len(head);
    if i < head.len() {
        lemma_follow_up_at(head, i);
        assert(head.take(i) =~= results.take(i));
    } else {
        assert(results.take(i) =~= head);
    }
}

/// All media is handed back: behind the turns that answer the calls there is one turn
/// for every result with media, in the order of the results, each with the text and the
/// media of its result, and nothing else is added.
pub proof fn law_all_media_is_handed_back(e: ExchangeV, results: Seq<ToolResultV>)
    requires
        e.pending.len() == results.len(),
    ensures
        e.after_tools(results).convo.len() == e.convo.len() + results.len() + with_media(results),
        e.after_tools(results).convo.take(e.convo.len() as int) == e.convo,
        forall|i: int|
            0 <= i < results.len() ==> {
                let turn = e.after_tools(results).convo[e.convo.len() + i];
                &&& turn.get("role"@) == Some(JsonV::Str("tool"@))
                &&& turn.get("tool_call_id"@) == Some(JsonV::Str(e.pending[i].id))
                &&& turn.get("content"@) == Some(JsonV::Str((#[trigger] results[i]).content))
            },
        forall|i: int|
            0 <= i < results.len() && (#[trigger] results[i]).media is Some
                ==> e.after_tools(results).convo[(e.convo.len() + results.len() + with_media(
                results.take(i),
            )) as int] == user_turn(results[i].content, results[i].media->0),
{
    let c = e.after_tools(results).convo;
    let t = tool_turns(e.pending, results);
    let f = follow_ups(results);
    let n = e.convo.len() as int;
    lemma_follow_ups_len(results);
    assert(c.take(n) =~= e.convo);
    assert forall|i: int| 0 <= i < results.len() implies ({
        let turn = c[n + i];
        &&& turn.get("role"@) == Some(JsonV::Str("tool"@))
        &&& turn.get("tool_call_id"@) == Some(JsonV::Str(e.pending[i].id))
        &&& turn.get("content"@) == Some(JsonV::Str((#[trigger] results[i]).content))
    }) by {
        assert(c[n + i] == t[i]);
        lemma_tool_turn_fields(e.pending[i].id, results[i].content);
    }
    assert forall|i: int| 0 <= i < results.len() && (#[trigger] results[i]).media is Some implies c[n
        + results.len() + with_media(results.take(i))] == user_turn(
        results[i].content,
        results[i].media->0,
    ) by {
        lemma_follow_up_at(results, i);
        assert(c[n + results.len() + with_media(results.take(i))] == f[with_media(
            results.take(i),
        ) as int]);
    }
}

proof fn lemma_tool_turn_fields(id: Seq<char>, content: Seq<char>)
    ensures
        tool_turn(id, content).get("role"@) == Some(JsonV::Str("tool"@)),
        tool_turn(id, content).get("tool_call_id"@) == Some(JsonV::Str(id)),
        tool_turn(id, content).get("content"@) == Some(JsonV::Str(content)),
{
    reveal_strlit("role");
    reveal_strlit("tool_call_id");
    reveal_strlit("content");
    assert("role"@.len() == 4 && "tool_call_id"@.len() == 12 && "content"@.len() == 7);
    law_three_fields(
        "role"@,
        JsonV::Str("tool"@),
        "tool_call_id"@,
        JsonV::Str(id),
        "content"@,
        JsonV::Str(content),
    );
}

/// There is something to read in a text: a character that is no whitespace.
pub open spec fn readable_text(s: Seq<char>) -> bool {
    exists|i: int| 0 <= i < s.len() && !#[trigger] white(s[i])
}

/// Everything else of the exchange is as it was.
pub open spec fn same_but_for_the_turn(e: ExchangeV, f: ExchangeV) -> bool {
    &&& f.placeholder_ts == e.placeholder_ts
    &&& f.last_ts == e.last_ts
    &&& f.shown == e.shown
    &&& f.round == e.round
}

/// A turn without calls is the answer, whatever was said before; and the images that
/// came with it are added behind those there are. Where nothing is said but images were
/// made, a line is asked for to go with them.
pub proof fn law_turn_without_calls_is_the_answer(e: ExchangeV, turn: CompletionV)
    requires
        turn.calls.len() == 0,
    ensures
        ({
            let f = e.after_turn(turn);
            &&& same_but_for_the_turn(e, f)
            &&& f.answer == turn.text
            &&& f.convo == e.convo
            &&& f.generated == e.generated + turn.images
            &&& f.spent == e.spent
            &&& f.pending == e.pending
            &&& (f.stage == Stage::Captioning <==> f.generated.len() > 0 && !readable_text(
                turn.text,
            ))
            &&& f.stage == Stage::Captioning || f.stage == Stage::Uploading
        }),
{
    lemma_blank(turn.text);
}

/// A turn with a call that was not made before leads to the calls of the turn being
/// made, all of them and no others, with the turn itself added to what has been said;
/// as long as the model has been asked fewer than four times.
pub proof fn law_new_calls_are_made(e: ExchangeV, turn: CompletionV, i: int)
    requires
        0 <= i < turn.calls.len(),
        !e.spent.contains((turn.calls[i].name, turn.calls[i].arguments)),
        e.round < 3,
    ensures
        ({
            let f = e.after_turn(turn);
            &&& same_but_for_the_turn(e, f)
            &&& f.stage == Stage::Calling
            &&& f.pending == turn.calls
            &&& f.convo == e.convo.push(turn.assistant)
            &&& f.answer == e.answer
            &&& f.generated == e.generated + turn.images
        }),
{
    assert(key_of(turn.calls[i]) == (turn.calls[i].name, turn.calls[i].arguments));
}

/// The fourth time the model asks for tools, and whenever it only asks for what it had
/// asked for before, no calls are made and nothing is added to what has been said: it
/// has to conclude.
pub proof fn law_the_model_has_to_conclude(e: ExchangeV, turn: CompletionV)
    requires
        turn.calls.len() > 0,
        e.round == 3 || forall|i: int|
            0 <= i < turn.calls.len() ==> e.spent.contains(
                ((#[trigger] turn.calls[i]).name, turn.calls[i].arguments),
            ),
    ensures
        ({
            let f = e.after_turn(turn);
            &&& same_but_for_the_turn(e, f)
            &&& f.stage == Stage::Concluding
            &&& f.convo == e.convo
            &&& f.answer == e.answer
            &&& f.generated == e.generated + turn.images
        }),
{
    if e.round != 3 {
        assert(repeating(e.spent, turn.calls));
    }
}

/// What counts as asked for is what was asked for: the calls of every turn so far, by
/// name and arguments.
pub proof fn law_what_was_asked_for_counts(
    e: ExchangeV,
    turn: CompletionV,
    name: Seq<char>,
    arguments: Seq<char>,
)
    requires
        turn.calls.len() > 0,
    ensures
        e.after_turn(turn).spent.contains((name, arguments)) <==> e.spent.contains(
            (name, arguments),
        ) || exists|i: int|
            0 <= i < turn.calls.len() && (#[trigger] turn.calls[i]).name == name
                && turn.calls[i].arguments == arguments,
        ExchangeV::started(0, Seq::empty()).spent == Set::<(Seq<char>, Seq<char>)>::empty(),
{
    let k = (name, arguments);
    if keys_of(turn.calls).contains(k) {
        let i = choose|i: int| 0 <= i < turn.calls.len() && key_of(#[trigger] turn.calls[i]) == k;
        assert(turn.calls[i].name == name);
    }
    if exists|i: int|
        0 <= i < turn.calls.len() && (#[trigger] turn.calls[i]).name == name
            && turn.calls[i].arguments == arguments {
        let i = choose|i: int|
            0 <= i < turn.calls.len() && (#[trigger] turn.calls[i]).name == name
                && turn.calls[i].arguments == arguments;
        assert(key_of(turn.calls[i]) == k);
    }
}

/// Answering the calls uses up a round, leaves none of them to be answered, and leads
/// back to the model.
pub proof fn law_answered_calls_go_to_the_model(e: ExchangeV, results: Seq<ToolResultV>)
    requires
        e.round < usize::MAX,
    ensures
        ({
            let f = e.after_tools(results);
            &&& f.stage == Stage::Asking
            &&& f.round == e.round + 1
            &&& f.pending.len() == 0
            &&& f.spent == e.spent
            &&& f.answer == e.answer
            &&& f.generated == e.generated
            &&& f.shown == e.shown
            &&& f.last_ts == e.last_ts
            &&& f.placeholder_ts == e.placeholder_ts
        }),
{
}

/// A request that failed is answered with the error, cut to two hundred characters where
/// it is longer; what has been said is left as it was.
pub proof fn law_errors_are_told(e: ExchangeV, error: Seq<char>)
    ensures
        e.failed(error).answer == "ai error: "@ + (if error.len() <= 200 {
            error
        } else {
            error.subrange(0, 200) + "…"@
        }),
        e.failed(error).convo == e.convo,
        e.failed(error).generated == e.generated,
        same_but_for_the_turn(e, e.failed(error)),
        e.failed(error).stage == Stage::Uploading,
{
    reveal_strlit("ai error: ");
    if error.len() > 200 {
        assert(error.take(200) =~= error.subrange(0, 200));
    }
    let a = e.failed(error).answer;
    assert(!white(a[0])) by {
        assert(a[0] == "ai error: "@[0]);
    }
    lemma_blank(a);
}

/// What the model says when it concludes, or to go with its images, is the answer where
/// there is something to read in it; else the answer is what it was.
pub proof fn law_conclusions_are_the_answer(e: ExchangeV, text: Option<Seq<char>>)
    ensures
        text is Some && readable_text(text->0) ==> e.answered(text).answer == text->0,
        text is None || !readable_text(text->0) ==> e.answered(text).answer == e.answer,
        e.answered(text).convo == e.convo,
        e.answered(text).generated == e.generated,
        same_but_for_the_turn(e, e.answered(text)),
        e.said().answer == e.answer,
        e.said().convo == e.convo,
        e.said().stage == (if e.generated.len() > 0 && !readable_text(e.answer) {
            Stage::Captioning
        } else {
            Stage::Uploading
        }),
{
    if let Some(t) = text {
        lemma_blank(t);
    }
    lemma_blank(e.answer);
}

/// The answer is sent as it is; only where it says nothing and no image goes with it,
/// that is said.
pub proof fn law_the_answer_is_sent_as_it_is(e: ExchangeV, attached: nat)
    ensures
        e.settled(attached).stage == Stage::Answering,
        readable_text(e.answer) || attached > 0 ==> e.settled(attached).answer == e.answer,
        !readable_text(e.answer) && attached == 0 ==> e.settled(attached).answer
            == "(empty response)"@,
        e.settled(attached).convo == e.convo,
        same_but_for_the_turn(e, e.settled(attached)),
{
    lemma_blank(e.answer);
}

/// Each phase has its own status line.
pub proof fn law_each_phase_has_its_line(cfg: Config)
    ensures
        status_of(cfg, Phase::Reasoning) == cfg.reasoning_msg@,
        status_of(cfg, Phase::Generating) == cfg.generating_msg@,
        status_of(cfg, Phase::Tool) == cfg.tool_msg@,
{
}

/// An exchange starts with what has been said, and nothing else: the model is asked.
pub proof fn law_an_exchange_starts_with_what_was_said(ts: u64, convo: Seq<JsonV>)
    ensures
        ({
            let e = ExchangeV::started(ts, convo);
            &&& e.wf()
            &&& e.stage == Stage::Asking
            &&& e.convo == convo
            &&& e.answer.len() == 0
            &&& e.generated.len() == 0
            &&& e.pending.len() == 0
            &&& e.shown is None
            &&& e.round == 0
            &&& e.placeholder_ts == ts && e.last_ts == ts
        }),
{
}

/// How many of the addresses hold an image that can be read.
pub open spec fn readable_count(uris: Seq<Seq<char>>) -> nat
    decreases uris.len(),
{
    if uris.len() == 0 {
        0
    } else {
        readable_count(uris.drop_last()) + if uri_decoded(uris.last()) is Some {
            1nat
        } else {
            0
        }
    }
}

/// Every image that can be read is sent, in order, and nothing else.
pub proof fn law_every_readable_image_is_sent(uris: Seq<Seq<char>>)
    ensures
        readable(uris).len() == readable_count(uris),
        forall|i: int|
            0 <= i < uris.len() && uri_decoded(#[trigger] uris[i]) is Some ==> readable_count(
                uris.take(i),
            ) < readable(uris).len() && readable(uris)[readable_count(uris.take(i)) as int]
                == uri_decoded(uris[i])->0,
    decreases uris.len(),
{
    if uris.len() > 0 {
        let head = uris.drop_last();
        law_every_readable_image_is_sent(head);
        assert forall|i: int|
            0 <= i < uris.len() && uri_decoded(#[trigger] uris[i]) is Some implies readable_count(
            uris.take(i),
        ) < readable(uris).len() && readable(uris)[readable_count(uris.take(i)) as int]
            == uri_decoded(uris[i])->0 by {
            if i < head.len() {
                assert(head[i] == uris[i]);
                assert(head.take(i) =~= uris.take(i));
            } else {
                assert(uris.take(i) =~= head);
            }
        }
    }
}

proof fn lemma_blank(s: Seq<char>)
    ensures
        blank(s) <==> !readable_text(s),
{
    law_trimmed_is_the_middle(s);
    let t = trimmed(s);
    if t.len() > 0 {
        let (from, to) = choose|from: int, to: int|
            0 <= from <= to <= s.len() && t == #[trigger] s.subrange(from, to) && (forall|i: int|
                0 <= i < from || to <= i < s.len() ==> white(#[trigger] s[i]));
        assert(t[0] == s[from]);
        assert(!white(s[from]));
    } else {
        let (from, to) = choose|from: int, to: int|
            0 <= from <= to <= s.len() && t == #[trigger] s.subrange(from, to) && (forall|i: int|
                0 <= i < from || to <= i < s.len() ==> white(#[trigger] s[i]));
        assert(from == to);
    }
}

/// A phase is shown once, however often it is told; a new one is shown by a revision that
/// comes after all before it, and nothing else of the exchange changes.
pub proof fn law_a_phase_is_shown_once(e: ExchangeV, phase: Phase, now: u64, later: u64)
    requires
        e.last_ts < u64::MAX,
    ensures
        e.phased(phase, now).shown == Some(phase),
        e.phased(phase, now).phased(phase, later) == e.phased(phase, now),
        e.shown == Some(phase) ==> e.phased(phase, now) == e,
        e.shown != Some(phase) ==> e.phased(phase, now).last_ts > e.last_ts,
        e.phased(phase, now) == (ExchangeV {
            shown: Some(phase),
            last_ts: e.phased(phase, now).last_ts,
            ..e
        }),
{
}

} // verus!
