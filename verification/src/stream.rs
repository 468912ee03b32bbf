//! One streamed turn of the model: server-sent events in, a completion out.
use vstd::prelude::*;

use crate::ai::{
    accumulate_call, all_accumulated, call_value, image_part, image_value, image_values, inner,
    partials, text_turn, tool_calls, turn, words, PartialCall, PartialCallV, Phase, ToolCall,
    ToolCallV,
};
use crate::answer::{implied_phase, next_phase, stitched, stitched_answer};
use crate::json::{
    get_in, json_value, jsons, law_two_fields, lemma_field_with, lemma_jsons_push, parse_json,
    text_in, Json, JsonV,
};
use crate::text::{
    begins, law_trimmed_is_unique, lemma_texts_push, lossy, lossy_text, same_text, strip_prefix,
    texts, trim, trimmed, white,
};

verus! {

broadcast use {lemma_jsons_push, lemma_texts_push};

/// What one streamed turn produced. `assistant` is the turn to append before
/// asking again; `images` holds data uris that a provider-run image tool
/// produced.
pub struct Completion {
    pub assistant: Json,
    pub text: String,
    pub images: Vec<String>,
    pub calls: Vec<ToolCall>,
}

/// The mathematical model of a completion.
pub struct CompletionV {
    pub assistant: JsonV,
    pub text: Seq<char>,
    pub images: Seq<Seq<char>>,
    pub calls: Seq<ToolCallV>,
}

impl View for Completion {
    type V = CompletionV;

    open spec fn view(&self) -> CompletionV {
        CompletionV {
            assistant: self.assistant@,
            text: self.text@,
            images: texts(self.images@),
            calls: tool_calls(self.calls@),
        }
    }
}

/// What has arrived of a turn.
pub struct StreamState {
    /// the bytes after the last whole line
    pub buf: Vec<u8>,
    pub content: String,
    pub saw_reasoning: bool,
    pub phase: Option<Phase>,
    /// every phase that the turn has entered, in order
    pub phases: Vec<Phase>,
    pub calls: Vec<PartialCall>,
    pub images: Vec<String>,
    /// the end of the turn has been announced
    pub done: bool,
}

/// The mathematical model of what has arrived of a turn.
#[verifier::ext_equal]
pub struct StreamV {
    pub buf: Seq<u8>,
    pub content: Seq<char>,
    pub saw_reasoning: bool,
    pub phase: Option<Phase>,
    pub phases: Seq<Phase>,
    pub calls: Seq<PartialCallV>,
    pub images: Seq<Seq<char>>,
    pub done: bool,
}

impl View for StreamState {
    type V = StreamV;

    open spec fn view(&self) -> StreamV {
        StreamV {
            buf: self.buf@,
            content: self.content@,
            saw_reasoning: self.saw_reasoning,
            phase: self.phase,
            phases: self.phases@,
            calls: partials(self.calls@),
            images: texts(self.images@),
            done: self.done,
        }
    }
}

/// The addresses among the images of a delta, in order; an image without one is
/// passed over.
pub open spec fn image_urls(items: Seq<JsonV>) -> Seq<Seq<char>>
    decreases items.len(),
{
    if items.len() == 0 {
        Seq::empty()
    } else {
        let rest = image_urls(items.drop_last());
        match text_in(get_in(items.last().get("image_url"@), "url"@)) {
            Some(url) => rest.push(url),
            None => rest,
        }
    }
}

/// What an event changes.
pub open spec fn delta_of(v: JsonV) -> Option<JsonV> {
    match v.get("choices"@) {
        Some(choices) => get_in(choices.at(0), "delta"@),
        None => None,
    }
}

impl StreamV {
    /// The turn with the given bytes in its buffer.
    pub open spec fn with_buf(self, buf: Seq<u8>) -> StreamV {
        StreamV { buf, ..self }
    }

    /// The turn enters a phase, unless it is in it already.
    pub open spec fn entering(self, p: Phase) -> StreamV {
        if self.phase == Some(p) {
            self
        } else {
            StreamV { phase: Some(p), phases: self.phases.push(p), ..self }
        }
    }

    /// The images of a delta are added to those of the turn.
    pub open spec fn with_images(self, delta: Option<JsonV>) -> StreamV {
        match get_in(delta, "images"@) {
            Some(JsonV::Arr(items)) => StreamV { images: self.images + image_urls(items), ..self },
            _ => self,
        }
    }

    /// The tool call fragments of a delta are added to the calls of the turn,
    /// which then is in its tool phase.
    pub open spec fn with_calls(self, delta: Option<JsonV>) -> StreamV {
        match get_in(delta, "tool_calls"@) {
            Some(JsonV::Arr(fragments)) => StreamV {
                calls: all_accumulated(self.calls, fragments),
                ..self
            }.entering(Phase::Tool),
            _ => self,
        }
    }

    /// The text and the reasoning of a delta are taken in, and the phase that
    /// all so far implies is entered.
    pub open spec fn with_text(self, delta: Option<JsonV>) -> StreamV {
        let reasoned = match text_in(get_in(delta, "reasoning_content"@)) {
            Some(s) => s.len() > 0,
            None => false,
        };
        let content = match text_in(get_in(delta, "content"@)) {
            Some(c) => self.content + c,
            None => self.content,
        };
        let next = StreamV { saw_reasoning: self.saw_reasoning || reasoned, content, ..self };
        match implied_phase(next.saw_reasoning, next.content) {
            Some(want) => next.entering(want),
            None => next,
        }
    }

    /// The turn after one event.
    pub open spec fn after_event(self, v: JsonV) -> StreamV {
        let delta = delta_of(v);
        self.with_images(delta).with_calls(delta).with_text(delta)
    }

    /// The turn after one line: an event where it is `data:` with JSON, the end
    /// where it is `data: [DONE]`, otherwise nothing.
    pub open spec fn after_line(self, line: Seq<u8>) -> StreamV {
        let t = trimmed(lossy(line));
        if !begins(t, "data:"@) {
            self
        } else {
            let data = trimmed(t.skip("data:"@.len() as int));
            if data == "[DONE]"@ {
                (StreamV { done: true, ..self }).with_buf(Seq::empty())
            } else {
                match json_value(data) {
                    Some(v) => self.after_event(v),
                    None => self,
                }
            }
        }
    }

    /// The turn after every whole line in its buffer, until its end is
    /// announced.
    pub open spec fn drained(self) -> StreamV
        decreases self.buf.len(),
    {
        let n = newline(self.buf);
        if self.done || n >= self.buf.len() {
            self
        } else {
            let next = self.with_buf(self.buf.skip(n + 1)).after_line(self.buf.take(n + 1));
            if next.buf.len() < self.buf.len() {
                next.drained()
            } else {
                next
            }
        }
    }

    /// The turn after some bytes more. What follows its end is passed over.
    pub open spec fn fed(self, chunk: Seq<u8>) -> StreamV {
        if self.done {
            self
        } else {
            self.with_buf(self.buf + chunk).drained()
        }
    }

    /// The completion that the turn comes to.
    pub open spec fn completion(self) -> CompletionV {
        let text = stitched(self.content);
        let base = text_turn("assistant"@, text);
        let called = if self.calls.len() > 0 {
            base.with("tool_calls"@, JsonV::Arr(call_values(self.calls)))
        } else {
            base
        };
        let assistant = if self.images.len() > 0 {
            called.with("images"@, JsonV::Arr(image_values(self.images)))
        } else {
            called
        };
        CompletionV {
            assistant,
            text,
            images: self.images,
            calls: Seq::new(
                self.calls.len(),
                |i: int|
                    ToolCallV {
                        id: self.calls[i].id,
                        name: self.calls[i].name,
                        arguments: self.calls[i].arguments,
                    },
            ),
        }
    }
}

/// The JSON form of each call.
pub open spec fn call_values(calls: Seq<PartialCallV>) -> Seq<JsonV> {
    Seq::new(calls.len(), |i: int| call_value(calls[i]))
}

/// The position of the first line feed; the length where there is none.
pub open spec fn newline(buf: Seq<u8>) -> int
    decreases buf.len(),
{
    if buf.len() == 0 || buf[0] == 10 {
        0
    } else {
        1 + newline(buf.skip(1))
    }
}

proof fn lemma_newline(buf: Seq<u8>, n: int)
    requires
        0 <= n <= buf.len(),
        forall|i: int| 0 <= i < n ==> buf[i] != 10,
        n == buf.len() || buf[n] == 10,
    ensures
        newline(buf) == n,
    decreases n,
{
    if n > 0 {
        assert(buf[0] != 10);
        assert forall|i: int| 0 <= i < n - 1 implies buf.skip(1)[i] != 10 by {
            assert(buf.skip(1)[i] == buf[i + 1]);
        }
        lemma_newline(buf.skip(1), n - 1);
    }
}

proof fn lemma_newline_first(buf: Seq<u8>)
    ensures
        0 <= newline(buf) <= buf.len(),
        newline(buf) < buf.len() ==> buf[newline(buf)] == 10,
        forall|i: int| 0 <= i < newline(buf) ==> buf[i] != 10,
    decreases buf.len(),
{
    if buf.len() == 0 || buf[0] == 10 {
    } else {
        lemma_newline_first(buf.skip(1));
        let n = newline(buf.skip(1));
        assert forall|i: int| 0 <= i < n + 1 implies buf[i] != 10 by {
            if i > 0 {
                assert(buf.skip(1)[i - 1] == buf[i]);
            }
        }
    }
}

/// A line touches the buffer only where it announces the end.
proof fn lemma_line_buf(s: StreamV, line: Seq<u8>)
    ensures
        s.after_line(line).done ==> s.done || s.after_line(line).buf.len() == 0,
        !s.after_line(line).done ==> s.after_line(line).buf == s.buf,
        s.after_line(line).buf.len() <= s.buf.len(),
{
}

/// A line has the same effect whatever is in the buffer.
proof fn lemma_line_frame(s: StreamV, line: Seq<u8>, other: Seq<u8>)
    requires
        !s.done,
    ensures
        s.after_line(line).done ==> s.with_buf(other).after_line(line) == s.after_line(line),
        !s.after_line(line).done ==> s.with_buf(other).after_line(line) == s.after_line(
            line,
        ).with_buf(other),
{
}

/// Where the bytes are cut does not matter: two runs of bytes after another come
/// to the same as both in one.
pub proof fn law_chunks_do_not_matter(s: StreamV, a: Seq<u8>, b: Seq<u8>)
    ensures
        s.fed(a).fed(b) == s.fed(a + b),
{
    if !s.done {
        let t = s.with_buf(s.buf + a);
        lemma_drained_then_fed(t, b);
        assert(s.buf + (a + b) =~= (s.buf + a) + b);
    }
}

/// What follows the announced end of a turn changes nothing.
pub proof fn law_nothing_after_the_end(s: StreamV, chunk: Seq<u8>)
    requires
        s.done,
    ensures
        s.fed(chunk) == s,
{
}

proof fn lemma_drained_then_fed(s: StreamV, b: Seq<u8>)
    requires
        !s.done,
    ensures
        s.drained().fed(b) == s.with_buf(s.buf + b).drained(),
    decreases s.buf.len(),
{
    let whole = s.with_buf(s.buf + b);
    let n = newline(s.buf);
    lemma_newline_first(s.buf);
    if n < s.buf.len() {
        assert forall|i: int| 0 <= i < n implies whole.buf[i] != 10 by {
            assert(whole.buf[i] == s.buf[i]);
        }
        lemma_newline(whole.buf, n);
        let line = s.buf.take(n + 1);
        assert(whole.buf.take(n + 1) =~= line);
        assert(whole.buf.skip(n + 1) =~= s.buf.skip(n + 1) + b);
        let rest = s.with_buf(s.buf.skip(n + 1));
        let next = rest.after_line(line);
        lemma_line_buf(rest, line);
        lemma_line_frame(rest, line, s.buf.skip(n + 1) + b);
        let wide = s.with_buf(s.buf.skip(n + 1) + b);
        assert(wide == rest.with_buf(s.buf.skip(n + 1) + b));
        let next_wide = wide.after_line(line);
        if next.done {
            assert(next.drained() == next);
            assert(next_wide == next);
            assert(next_wide.drained() == next);
            if next_wide.buf.len() < whole.buf.len() {
            }
        } else {
            lemma_drained_then_fed(next, b);
            assert(next_wide == next.with_buf(next.buf + b));
        }
    } else {
        assert(s.drained() == s);
    }
}

/// What an entered phase adds to the log is what the turn is then in, and no
/// phase is entered twice in a row.
pub open spec fn phases_log(s: StreamV) -> bool {
    &&& (s.phases.len() == 0 ==> s.phase is None)
    &&& (s.phases.len() > 0 ==> s.phase == Some(s.phases.last()))
    &&& forall|i: int|
        0 <= i < s.phases.len() - 1 ==> #[trigger] s.phases[i] != s.phases[i + 1]
}

/// Each phase change is announced once: however a turn arrives, no phase is
/// announced twice in a row.
pub proof fn law_phases_alternate(s: StreamV, chunk: Seq<u8>)
    requires
        phases_log(s),
    ensures
        phases_log(s.fed(chunk)),
{
    if !s.done {
        lemma_drained_phases(s.with_buf(s.buf + chunk));
    }
}

proof fn lemma_event_phases(s: StreamV, v: JsonV)
    requires
        phases_log(s),
    ensures
        phases_log(s.after_event(v)),
{
    let delta = delta_of(v);
    assert(phases_log(s.with_images(delta)));
    assert(phases_log(s.with_images(delta).with_calls(delta)));
}

proof fn lemma_drained_phases(s: StreamV)
    requires
        phases_log(s),
    ensures
        phases_log(s.drained()),
    decreases s.buf.len(),
{
    let n = newline(s.buf);
    lemma_newline_first(s.buf);
    if s.done || n >= s.buf.len() {
    } else {
        let rest = s.with_buf(s.buf.skip(n + 1));
        let line = s.buf.take(n + 1);
        let t = trimmed(lossy(line));
        let data = trimmed(t.skip("data:"@.len() as int));
        assert(phases_log(rest));
        if let Some(v) = json_value(data) {
            lemma_event_phases(rest, v);
        }
        let next = rest.after_line(line);
        assert(phases_log(next));
        lemma_line_buf(rest, line);
        lemma_drained_phases(next);
    }
}

impl StreamState {
    /// Nothing has arrived yet.
    pub fn new() -> (r: StreamState)
        ensures
            r@ == (StreamV {
                buf: Seq::empty(),
                content: Seq::empty(),
                saw_reasoning: false,
                phase: None,
                phases: Seq::empty(),
                calls: Seq::empty(),
                images: Seq::empty(),
                done: false,
            }),
            phases_log(r@),
    {
        let r = StreamState {
            buf: Vec::new(),
            content: String::new(),
            saw_reasoning: false,
            phase: None,
            phases: Vec::new(),
            calls: Vec::new(),
            images: Vec::new(),
            done: false,
        };
        assert(partials(r.calls@) =~= Seq::empty());
        assert(texts(r.images@) =~= Seq::empty());
        r
    }

    fn enter(&mut self, p: Phase)
        ensures
            final(self)@ == old(self)@.entering(p),
    {
        let here = match self.phase {
            Some(q) => q == p,
            None => false,
        };
        if !here {
            self.phase = Some(p);
            self.phases.push(p);
        }
    }

    fn take_images(&mut self, items: &Vec<Json>)
        ensures
            final(self)@ == (StreamV {
                images: old(self)@.images + image_urls(jsons(items@)),
                ..old(self)@
            }),
    {
        let ghost start = self@;
        let ghost all = jsons(items@);
        assert(all.take(0) =~= Seq::empty());
        assert(start.images + Seq::empty() =~= start.images);
        for i in 0..items.len()
            invariant
                all == jsons(items@),
                self@ == (StreamV {
                    images: start.images + image_urls(all.take(i as int)),
                    ..start
                }),
        {
            assert(all.take(i + 1).drop_last() =~= all.take(i as int));
            let ghost urls = image_urls(all.take(i as int));
            if let Some(part) = items[i].get("image_url") {
                if let Some(v) = part.get("url") {
                    if let Some(url) = v.as_str() {
                        self.images.push(url.clone());
                        assert((start.images + urls).push(url@) =~= start.images + urls.push(url@));
                    }
                }
            }
        }
        assert(all.take(all.len() as int) =~= all);
    }

    fn take_calls(&mut self, fragments: &Vec<Json>)
        ensures
            final(self)@ == (StreamV {
                calls: all_accumulated(old(self)@.calls, jsons(fragments@)),
                ..old(self)@
            }),
    {
        let ghost start = self@;
        let ghost all = jsons(fragments@);
        assert(all.take(0) =~= Seq::empty());
        for i in 0..fragments.len()
            invariant
                all == jsons(fragments@),
                self@ == (StreamV {
                    calls: all_accumulated(start.calls, all.take(i as int)),
                    ..start
                }),
        {
            assert(all.take(i + 1).drop_last() =~= all.take(i as int));
            accumulate_call(&mut self.calls, &fragments[i]);
        }
        assert(all.take(all.len() as int) =~= all);
    }

    fn take_text(&mut self, delta: &Json)
        ensures
            final(self)@ == old(self)@.with_text(Some(delta@)),
    {
        if let Some(v) = delta.get("reasoning_content") {
            if let Some(s) = v.as_str() {
                if !s.as_str().is_empty() {
                    self.saw_reasoning = true;
                }
            }
        }
        if let Some(v) = delta.get("content") {
            if let Some(c) = v.as_str() {
                self.content.append(c);
            }
        }
        if let Some(want) = next_phase(self.saw_reasoning, &self.content) {
            self.enter(want);
        }
    }

    /// Takes in one event.
    pub fn on_event(&mut self, v: &Json)
        ensures
            final(self)@ == old(self)@.after_event(v@),
    {
        let delta = match v.get("choices") {
            Some(choices) => match choices.at(0) {
                Some(choice) => choice.get("delta"),
                None => None,
            },
            None => None,
        };
        match delta {
            Some(d) => {
                if let Some(generated) = d.get("images") {
                    if let Some(items) = generated.items() {
                        self.take_images(items);
                    }
                }
                if let Some(calls) = d.get("tool_calls") {
                    if let Some(fragments) = calls.items() {
                        self.take_calls(fragments);
                        self.enter(Phase::Tool);
                    }
                }
                self.take_text(d);
            },
            None => {
                if let Some(want) = next_phase(self.saw_reasoning, &self.content) {
                    self.enter(want);
                }
            },
        }
    }

    fn on_line(&mut self, line: &[u8])
        ensures
            final(self)@ == old(self)@.after_line(line@),
    {
        let decoded = lossy_text(line);
        let t = trim(&decoded);
        if let Some(rest) = strip_prefix(&t, "data:") {
            let data = trim(&rest);
            if same_text(&data, "[DONE]") {
                self.done = true;
                self.buf = Vec::new();
            } else if let Some(v) = parse_json(&data) {
                self.on_event(&v);
            }
        }
    }

    /// Takes in some bytes more. Server-sent events: one `data: <json>` per
    /// line.
    pub fn feed(&mut self, chunk: &[u8])
        ensures
            final(self)@ == old(self)@.fed(chunk@),
            phases_log(old(self)@) ==> phases_log(final(self)@),
    {
        proof {
            if phases_log(self@) {
                law_phases_alternate(self@, chunk@);
            }
        }
        if self.done {
            return;
        }
        let ghost start = self@;
        let mut more = vstd::slice::slice_to_vec(chunk);
        self.buf.append(&mut more);
        let ghost goal = self@.drained();
        assert(goal == start.fed(chunk@));
        loop
            invariant_except_break
                self@.drained() == goal,
            ensures
                self@ == goal,
            decreases self.buf@.len(),
        {
            if self.done {
                break;
            }
            let mut n: usize = 0;
            while n < self.buf.len() && self.buf[n] != 10
                invariant
                    n <= self.buf@.len(),
                    forall|i: int| 0 <= i < n ==> self.buf@[i] != 10,
                ensures
                    n <= self.buf@.len(),
                    forall|i: int| 0 <= i < n ==> self.buf@[i] != 10,
                    n == self.buf@.len() || self.buf@[n as int] == 10,
                decreases self.buf@.len() - n,
            {
                n += 1;
            }
            proof {
                lemma_newline(self.buf@, n as int);
            }
            if n == self.buf.len() {
                break;
            }
            let ghost before = self@;
            let rest = self.buf.split_off(n + 1);
            let mut line = rest;
            std::mem::swap(&mut line, &mut self.buf);
            assert(line@ =~= before.buf.take(n + 1));
            assert(self@ == before.with_buf(before.buf.skip(n + 1))) by {
                assert(self.buf@ =~= before.buf.skip(n + 1));
            }
            proof {
                lemma_line_buf(self@, line@);
            }
            self.on_line(&line);
        }
    }

    /// The completion that the turn comes to.
    pub fn finish(self) -> (r: Completion)
        ensures
            r@ == self@.completion(),
    {
        let text = stitched_answer(&self.content);
        let mut assistant = turn("assistant", &text);
        let ghost all = self@.calls;
        if self.calls.len() > 0 {
            let mut values: Vec<Json> = Vec::new();
            assert(jsons(values@) =~= Seq::empty());
            for i in 0..self.calls.len()
                invariant
                    all == partials(self.calls@),
                    jsons(values@) == call_values(all).take(i as int),
            {
                values.push(self.calls[i].to_value());
                assert(call_values(all).take(i + 1) =~= call_values(all).take(i as int).push(
                    call_value(all[i as int]),
                ));
            }
            assert(call_values(all).take(all.len() as int) =~= call_values(all));
            assistant = assistant.with("tool_calls", Json::array(values));
        }
        if self.images.len() > 0 {
            let mut parts: Vec<Json> = Vec::new();
            let ghost urls = texts(self.images@);
            assert(jsons(parts@) =~= Seq::empty());
            for i in 0..self.images.len()
                invariant
                    urls == texts(self.images@),
                    jsons(parts@) == image_values(urls).take(i as int),
            {
                parts.push(image_part(&self.images[i]));
                assert(image_values(urls).take(i + 1) =~= image_values(urls).take(i as int).push(
                    image_value(urls[i as int]),
                ));
            }
            assert(image_values(urls).take(urls.len() as int) =~= image_values(urls));
            assistant = assistant.with("images", Json::array(parts));
        }
        let mut calls: Vec<ToolCall> = Vec::new();
        for i in 0..self.calls.len()
            invariant
                all == partials(self.calls@),
                calls@.len() == i,
                forall|j: int|
                    0 <= j < i ==> (#[trigger] calls@[j])@ == self@.completion().calls[j],
        {
            let c = &self.calls[i];
            calls.push(
                ToolCall {
                    id: c.id.clone(),
                    name: c.name.clone(),
                    arguments: c.arguments.clone(),
                },
            );
        }
        assert(tool_calls(calls@) =~= self@.completion().calls);
        Completion { assistant, text, images: self.images, calls }
    }
}

// ---------------------------------------------------------------------------
// what a stream comes to, told by its events and lines

/// What an event says of the turn: the delta of its first choice.
pub open spec fn told(v: JsonV, name: Seq<char>) -> Option<JsonV> {
    match v.get("choices"@) {
        Some(JsonV::Arr(choices)) => if choices.len() > 0 {
            inner(choices[0].get("delta"@), name)
        } else {
            None
        },
        _ => None,
    }
}

proof fn lemma_told(v: JsonV, name: Seq<char>)
    ensures
        told(v, name) == get_in(delta_of(v), name),
{
}

/// What an event tells is taken in as it is: its text goes behind the text so far, word
/// for word, and reasoning once seen stays seen.
pub proof fn law_text_is_taken_in_as_it_is(s: StreamV, v: JsonV)
    ensures
        s.after_event(v).content == s.content + words(told(v, "content"@)),
        s.after_event(v).saw_reasoning == (s.saw_reasoning || words(
            told(v, "reasoning_content"@),
        ).len() > 0),
        s.after_event(v).buf == s.buf,
        s.after_event(v).done == s.done,
{
    lemma_told(v, "content"@);
    lemma_told(v, "reasoning_content"@);
    assert(s.content + Seq::<char>::empty() =~= s.content);
}

/// The turn after some events.
pub open spec fn after_events(s: StreamV, vs: Seq<JsonV>) -> StreamV
    decreases vs.len(),
{
    if vs.len() == 0 {
        s
    } else {
        after_events(s, vs.drop_last()).after_event(vs.last())
    }
}

/// The texts of some events, one behind the other.
pub open spec fn all_words(vs: Seq<JsonV>) -> Seq<char>
    decreases vs.len(),
{
    if vs.len() == 0 {
        Seq::empty()
    } else {
        all_words(vs.drop_last()) + words(told(vs.last(), "content"@))
    }
}

/// The text of a stream is the text of its events, one behind the other.
pub proof fn law_the_text_is_that_of_the_events(s: StreamV, vs: Seq<JsonV>)
    ensures
        after_events(s, vs).content == s.content + all_words(vs),
    decreases vs.len(),
{
    if vs.len() > 0 {
        law_the_text_is_that_of_the_events(s, vs.drop_last());
        law_text_is_taken_in_as_it_is(after_events(s, vs.drop_last()), vs.last());
        assert((s.content + all_words(vs.drop_last())) + words(told(vs.last(), "content"@))
            =~= s.content + all_words(vs));
    } else {
        assert(s.content + Seq::<char>::empty() =~= s.content);
    }
}

/// The address that an image of a delta has, where it has one.
pub open spec fn address(item: JsonV) -> Option<Seq<char>> {
    match inner(item.get("image_url"@), "url"@) {
        Some(JsonV::Str(url)) => Some(url),
        _ => None,
    }
}

/// How many of the images have an address.
pub open spec fn addresses(items: Seq<JsonV>) -> nat
    decreases items.len(),
{
    if items.len() == 0 {
        0
    } else {
        addresses(items.drop_last()) + if address(items.last()) is Some {
            1nat
        } else {
            0
        }
    }
}

proof fn lemma_image_urls(items: Seq<JsonV>)
    ensures
        image_urls(items).len() == addresses(items),
        forall|i: int|
            0 <= i < items.len() && address(#[trigger] items[i]) is Some ==> addresses(
                items.take(i),
            ) < image_urls(items).len() && image_urls(items)[addresses(items.take(i)) as int]
                == address(items[i])->0,
    decreases items.len(),
{
    if items.len() > 0 {
        let head = items.drop_last();
        lemma_image_urls(head);
        assert forall|i: int|
            0 <= i < items.len() && address(#[trigger] items[i]) is Some implies addresses(
            items.take(i),
        ) < image_urls(items).len() && image_urls(items)[addresses(items.take(i)) as int]
            == address(items[i])->0 by {
            if i < head.len() {
                assert(head[i] == items[i]);
                assert(head.take(i) =~= items.take(i));
            } else {
                assert(items.take(i) =~= head);
            }
        }
    }
}

/// Every image that an event brings with an address is taken in, behind those there are
/// and in order, and nothing else.
pub proof fn law_every_image_is_taken_in(s: StreamV, v: JsonV, items: Seq<JsonV>)
    ensures
        told(v, "images"@) == Some(JsonV::Arr(items)) ==> {
            let images = s.after_event(v).images;
            &&& images.len() == s.images.len() + addresses(items)
            &&& images.take(s.images.len() as int) == s.images
            &&& forall|i: int|
                0 <= i < items.len() && address(#[trigger] items[i]) is Some
                    ==> images[(s.images.len() + addresses(items.take(i))) as int] == address(
                    items[i],
                )->0
        },
        !(told(v, "images"@) matches Some(JsonV::Arr(_))) ==> s.after_event(v).images == s.images,
{
    lemma_told(v, "images"@);
    lemma_image_urls(items);
    if told(v, "images"@) == Some(JsonV::Arr(items)) {
        let images = s.after_event(v).images;
        assert(images == s.images + image_urls(items));
        assert(images.take(s.images.len() as int) =~= s.images);
    }
}

/// The fragments of calls that an event brings are taken in, all of them and in order;
/// an event without any leaves the calls as they are.
pub proof fn law_every_fragment_is_taken_in(s: StreamV, v: JsonV, fragments: Seq<JsonV>)
    ensures
        told(v, "tool_calls"@) == Some(JsonV::Arr(fragments)) ==> s.after_event(v).calls
            == all_accumulated(s.calls, fragments),
        !(told(v, "tool_calls"@) matches Some(JsonV::Arr(_))) ==> s.after_event(v).calls
            == s.calls,
{
    lemma_told(v, "tool_calls"@);
}

/// The phase follows from what has arrived: a call puts the turn in its tool phase, and
/// then the text so far decides, where it says anything. A phase that is entered is
/// announced behind those before.
pub proof fn law_the_phase_follows_from_what_arrived(s: StreamV, v: JsonV)
    ensures
        ({
            let after = s.after_event(v);
            let calls = told(v, "tool_calls"@) matches Some(JsonV::Arr(_));
            let implied = implied_phase(after.saw_reasoning, after.content);
            &&& after.phase == (if implied is Some {
                implied
            } else if calls {
                Some(Phase::Tool)
            } else {
                s.phase
            })
            &&& s.phases.len() <= after.phases.len()
            &&& after.phases.take(s.phases.len() as int) == s.phases
            &&& calls && s.phase != Some(Phase::Tool) ==> after.phases.len() > s.phases.len()
                && after.phases[s.phases.len() as int] == Phase::Tool
            &&& after.phase != s.phase ==> after.phases.len() > s.phases.len() && Some(
                after.phases.last(),
            ) == after.phase
            &&& !calls && after.phase == s.phase ==> after.phases == s.phases
        }),
{
    lemma_told(v, "tool_calls"@);
    let after = s.after_event(v);
    assert(after.phases.take(s.phases.len() as int) =~= s.phases);
}

/// A line of data is an event: whatever whitespace stands around it and before the
/// data, the turn after it is that after the event.
pub proof fn law_a_line_of_data_is_an_event(
    s: StreamV,
    line: Seq<u8>,
    a: Seq<char>,
    b: Seq<char>,
    data: Seq<char>,
    c: Seq<char>,
)
    requires
        !s.done,
        s.buf.len() == 0,
        forall|i: int| 0 <= i < line.len() ==> line[i] != 10,
        lossy(line.push(10)) == a + ("data:"@ + b + data) + c,
        forall|i: int| 0 <= i < a.len() ==> white(#[trigger] a[i]),
        forall|i: int| 0 <= i < b.len() ==> white(#[trigger] b[i]),
        forall|i: int| 0 <= i < c.len() ==> white(#[trigger] c[i]),
        data.len() > 0,
        !white(data[0]),
        !white(data.last()),
    ensures
        data == "[DONE]"@ ==> s.fed(line.push(10)).done && s.fed(line.push(10)).content
            == s.content && s.fed(line.push(10)).calls == s.calls && s.fed(line.push(10)).images
            == s.images && s.fed(line.push(10)).phases == s.phases,
        data != "[DONE]"@ && json_value(data) is Some ==> s.fed(line.push(10)) == s.after_event(
            json_value(data)->0,
        ),
        data != "[DONE]"@ && json_value(data) is None ==> s.fed(line.push(10)) == s,
{
    reveal_strlit("data:");
    let t = "data:"@ + b + data;
    assert(t[0] == 'd');
    assert(t.last() == data.last());
    law_trimmed_is_unique(a, t, c);
    assert(t.take(5) =~= "data:"@);
    let none = Seq::<char>::empty();
    assert(t.skip(5) =~= b + data + none);
    law_trimmed_is_unique(b, data, none);
    lemma_fed_line(s, line);
}

/// A line of anything else changes nothing.
pub proof fn law_other_lines_are_passed_over(
    s: StreamV,
    line: Seq<u8>,
    a: Seq<char>,
    t: Seq<char>,
    c: Seq<char>,
)
    requires
        !s.done,
        s.buf.len() == 0,
        forall|i: int| 0 <= i < line.len() ==> line[i] != 10,
        lossy(line.push(10)) == a + t + c,
        forall|i: int| 0 <= i < a.len() ==> white(#[trigger] a[i]),
        forall|i: int| 0 <= i < c.len() ==> white(#[trigger] c[i]),
        t.len() > 0 ==> !white(t[0]) && !white(t.last()),
        t.len() < 5 || t.subrange(0, 5) != "data:"@,
    ensures
        s.fed(line.push(10)) == s,
{
    reveal_strlit("data:");
    law_trimmed_is_unique(a, t, c);
    assert("data:"@.len() == 5);
    if t.len() >= 5 {
        assert(t.take(5) =~= t.subrange(0, 5));
    }
    lemma_fed_line(s, line);
}

/// Bytes without the end of a line wait for it.
pub proof fn law_half_a_line_waits(s: StreamV, bytes: Seq<u8>)
    requires
        !s.done,
        forall|i: int| 0 <= i < s.buf.len() ==> s.buf[i] != 10,
        forall|i: int| 0 <= i < bytes.len() ==> bytes[i] != 10,
    ensures
        s.fed(bytes) == (StreamV { buf: s.buf + bytes, ..s }),
{
    let t = s.buf + bytes;
    lemma_newline(t, t.len() as int);
}

proof fn lemma_fed_line(s: StreamV, line: Seq<u8>)
    requires
        !s.done,
        s.buf.len() == 0,
        forall|i: int| 0 <= i < line.len() ==> line[i] != 10,
    ensures
        s.fed(line.push(10)) == s.after_line(line.push(10)),
{
    let whole = line.push(10);
    assert(s.buf + whole =~= whole);
    lemma_newline(whole, line.len() as int);
    assert(whole.skip(line.len() as int + 1) =~= Seq::<u8>::empty());
    assert(whole.take(line.len() as int + 1) =~= whole);
    assert(s.buf =~= Seq::<u8>::empty());
    let rest = s.with_buf(whole).with_buf(Seq::empty());
    assert(rest =~= s);
    let next = rest.after_line(whole);
    lemma_line_buf(rest, whole);
    assert(next.buf.len() == 0);
    assert(next.drained() == next);
    assert(s.with_buf(whole).drained() == next);
}

/// What a turn came to is its text without the reasoning, every call that was pieced
/// together, and every image; and the turn to append says the same.
pub proof fn law_a_completion_holds_it_all(s: StreamV)
    ensures
        ({
            let c = s.completion();
            &&& c.text == stitched(s.content)
            &&& c.images == s.images
            &&& c.calls.len() == s.calls.len()
            &&& forall|i: int|
                0 <= i < s.calls.len() ==> (#[trigger] c.calls[i]).id == s.calls[i].id
                    && c.calls[i].name == s.calls[i].name && c.calls[i].arguments
                    == s.calls[i].arguments
            &&& c.assistant.get("role"@) == Some(JsonV::Str("assistant"@))
            &&& c.assistant.get("content"@) == Some(JsonV::Str(c.text))
            &&& s.calls.len() == 0 ==> c.assistant.get("tool_calls"@) is None
            &&& s.calls.len() > 0 ==> (c.assistant.get("tool_calls"@) matches Some(
                JsonV::Arr(vs),
            ) && vs.len() == s.calls.len() && forall|i: int|
                0 <= i < vs.len() ==> #[trigger] vs[i] == call_value(s.calls[i]))
            &&& s.images.len() == 0 ==> c.assistant.get("images"@) is None
            &&& s.images.len() > 0 ==> (c.assistant.get("images"@) matches Some(JsonV::Arr(vs))
                && vs.len() == s.images.len() && forall|i: int|
                0 <= i < vs.len() ==> #[trigger] vs[i] == image_value(s.images[i]))
        }),
{
    reveal_strlit("role");
    reveal_strlit("content");
    reveal_strlit("tool_calls");
    reveal_strlit("images");
    assert("role"@.len() == 4 && "content"@.len() == 7);
    assert("tool_calls"@.len() == 10 && "images"@.len() == 6);
    let text = stitched(s.content);
    let base = text_turn("assistant"@, text);
    let calls = JsonV::Arr(call_values(s.calls));
    let images = JsonV::Arr(image_values(s.images));
    let called = if s.calls.len() > 0 {
        base.with("tool_calls"@, calls)
    } else {
        base
    };
    law_two_fields("role"@, JsonV::Str("assistant"@), "content"@, JsonV::Str(text));
    assert forall|k: Seq<char>| #[trigger] called.get(k) == (match base.get(k) {
        Some(v) => Some(v),
        None => if k == "tool_calls"@ && s.calls.len() > 0 {
            Some(calls)
        } else {
            None
        },
    }) by {
        lemma_field_with(base, "tool_calls"@, calls, k);
    }
    lemma_field_with(called, "images"@, images, "role"@);
    lemma_field_with(called, "images"@, images, "content"@);
    lemma_field_with(called, "images"@, images, "tool_calls"@);
    lemma_field_with(called, "images"@, images, "images"@);
}

} // verus!
