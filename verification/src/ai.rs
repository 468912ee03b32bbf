//! What is asked of the model, and what is made of its answers.
use vstd::prelude::*;

use crate::attachment::text_opt;
use crate::json::{
    copy_all, get_in, json_opt, json_value, jsons, law_three_fields, law_two_fields, lemma_field_with, lemma_jsons_add,
    lemma_jsons_push, parse_json, text_in, Json, JsonV,
};
use crate::text::{
    copy, decimal, digit, lemma_texts_push, texts, trim, trim_end_char, trim_end_matches, trimmed,
};

verus! {

broadcast use {lemma_jsons_push, lemma_jsons_add, lemma_texts_push};

/// What the model is doing while its turn streams in.
#[derive(Clone, Copy, PartialEq, Eq, Structural)]
pub enum Phase {
    Reasoning,
    Generating,
    Tool,
}

// ---------------------------------------------------------------------------
// tool calls

/// One call of a tool, its arguments as the JSON text that the model wrote.
pub struct ToolCall {
    pub id: String,
    pub name: String,
    pub arguments: String,
}

/// The mathematical model of a tool call.
pub struct ToolCallV {
    pub id: Seq<char>,
    pub name: Seq<char>,
    pub arguments: Seq<char>,
}

impl View for ToolCall {
    type V = ToolCallV;

    open spec fn view(&self) -> ToolCallV {
        ToolCallV { id: self.id@, name: self.name@, arguments: self.arguments@ }
    }
}

/// The models of a list of calls.
pub open spec fn tool_calls(v: Seq<ToolCall>) -> Seq<ToolCallV> {
    Seq::new(v.len(), |i: int| v[i]@)
}

/// Arguments can be looked up by name in an object, and in `null`, which counts
/// as an object without fields; text that is no JSON has no arguments at all.
pub open spec fn indexable(args: Option<JsonV>) -> bool {
    match args {
        Some(v) => v is Null || v is Obj,
        None => true,
    }
}

/// The argument of the given name: `null` where the arguments do not have it,
/// nothing where they are no JSON.
pub open spec fn arg_in(args: Option<JsonV>, name: Seq<char>) -> Option<JsonV> {
    match args {
        Some(v) => match v.get(name) {
            Some(x) => Some(x),
            None => Some(JsonV::Null),
        },
        None => None,
    }
}

/// The argument of the given name among parsed arguments.
pub fn arg_of(args: &Option<Json>, name: &str) -> (r: Option<Json>)
    requires
        indexable(json_opt(*args)),
    ensures
        json_opt(r) == arg_in(json_opt(*args), name@),
{
    match args {
        Some(v) => match v.get(name) {
            Some(x) => Some(x.copy()),
            None => Some(Json::Null),
        },
        None => None,
    }
}

/// The arguments of a call are a JSON value that has no fields.
pub struct NotIndexable;

impl ToolCall {
    /// The arguments of the call.
    pub fn parsed(&self) -> (r: Option<Json>)
        ensures
            json_opt(r) == json_value(self.arguments@),
    {
        parse_json(&self.arguments)
    }

    /// The argument of the given name, for a call whose arguments can be looked
    /// up by name.
    pub fn arg(&self, name: &str) -> (r: Option<Json>)
        requires
            indexable(json_value(self.arguments@)),
        ensures
            json_opt(r) == arg_in(json_value(self.arguments@), name@),
    {
        let args = self.parsed();
        arg_of(&args, name)
    }

    /// The argument of the given name, for any call.
    pub fn try_arg(&self, name: &str) -> (r: Result<Option<Json>, NotIndexable>)
        ensures
            match r {
                Ok(v) => indexable(json_value(self.arguments@)) && json_opt(v) == arg_in(
                    json_value(self.arguments@),
                    name@,
                ),
                Err(_) => !indexable(json_value(self.arguments@)),
            },
    {
        let ok = match self.parsed() {
            Some(Json::Null) => true,
            Some(Json::Obj(_)) => true,
            Some(_) => false,
            None => true,
        };
        if ok {
            Ok(self.arg(name))
        } else {
            Err(NotIndexable)
        }
    }

    /// A copy of the call.
    pub fn copy(&self) -> (r: ToolCall)
        ensures
            r@ == self@,
    {
        ToolCall {
            id: self.id.clone(),
            name: self.name.clone(),
            arguments: self.arguments.clone(),
        }
    }
}

/// A tool call being assembled: the arguments arrive as string fragments spread
/// over several deltas, keyed by their position in the call array.
pub struct PartialCall {
    pub index: u64,
    pub id: String,
    pub name: String,
    pub arguments: String,
}

/// The mathematical model of a call being assembled.
pub struct PartialCallV {
    pub index: u64,
    pub id: Seq<char>,
    pub name: Seq<char>,
    pub arguments: Seq<char>,
}

impl View for PartialCall {
    type V = PartialCallV;

    open spec fn view(&self) -> PartialCallV {
        PartialCallV {
            index: self.index,
            id: self.id@,
            name: self.name@,
            arguments: self.arguments@,
        }
    }
}

/// The models of a list of calls being assembled.
pub open spec fn partials(v: Seq<PartialCall>) -> Seq<PartialCallV> {
    Seq::new(v.len(), |i: int| v[i]@)
}

/// The text, or an empty one.
pub open spec fn or_empty(t: Option<Seq<char>>) -> Seq<char> {
    match t {
        Some(s) => s,
        None => Seq::empty(),
    }
}

/// The position that a fragment belongs to; zero where it does not say.
pub open spec fn fragment_index(f: JsonV) -> u64 {
    match f.get("index"@) {
        Some(JsonV::Uint(n)) => n,
        _ => 0,
    }
}

/// The place of the call with the given index; the number of calls where there
/// is none.
pub open spec fn call_place(calls: Seq<PartialCallV>, index: u64) -> int
    decreases calls.len(),
{
    if calls.len() == 0 || calls[0].index == index {
        0
    } else {
        1 + call_place(calls.skip(1), index)
    }
}

/// The call with what the fragment adds to each of its texts.
pub open spec fn grown(call: PartialCallV, f: JsonV) -> PartialCallV {
    PartialCallV {
        index: call.index,
        id: call.id + or_empty(text_in(f.get("id"@))),
        name: call.name + or_empty(text_in(get_in(f.get("function"@), "name"@))),
        arguments: call.arguments + or_empty(text_in(get_in(f.get("function"@), "arguments"@))),
    }
}

/// The calls once a fragment has been added to the one it belongs to, which is
/// begun at the end where there is none yet.
pub open spec fn accumulated(calls: Seq<PartialCallV>, f: JsonV) -> Seq<PartialCallV> {
    let index = fragment_index(f);
    let place = call_place(calls, index);
    if place < calls.len() {
        calls.update(place, grown(calls[place], f))
    } else {
        calls.push(
            grown(
                PartialCallV {
                    index,
                    id: Seq::empty(),
                    name: Seq::empty(),
                    arguments: Seq::empty(),
                },
                f,
            ),
        )
    }
}

/// The calls once each of the fragments has been added, in order.
pub open spec fn all_accumulated(calls: Seq<PartialCallV>, fs: Seq<JsonV>) -> Seq<PartialCallV>
    decreases fs.len(),
{
    if fs.len() == 0 {
        calls
    } else {
        accumulated(all_accumulated(calls, fs.drop_last()), fs.last())
    }
}

/// What `call_place` gives back is the first of all.
pub proof fn lemma_call_place(calls: Seq<PartialCallV>, index: u64)
    ensures
        0 <= call_place(calls, index) <= calls.len(),
        call_place(calls, index) < calls.len() ==> calls[call_place(calls, index)].index == index,
        forall|j: int|
            0 <= j < call_place(calls, index) ==> (#[trigger] calls[j]).index != index,
    decreases calls.len(),
{
    if calls.len() == 0 || calls[0].index == index {
    } else {
        lemma_call_place(calls.skip(1), index);
        let n = call_place(calls.skip(1), index);
        assert forall|j: int| 0 <= j < n + 1 implies (#[trigger] calls[j]).index != index by {
            if j > 0 {
                assert(calls.skip(1)[j - 1] == calls[j]);
            }
        }
    }
}

fn place_of(calls: &Vec<PartialCall>, index: u64) -> (r: usize)
    ensures
        r == call_place(partials(calls@), index),
        r <= calls@.len(),
{
    let ghost all = partials(calls@);
    let mut i: usize = 0;
    assert(all.skip(0) =~= all);
    while i < calls.len()
        invariant
            i <= calls@.len(),
            all == partials(calls@),
            call_place(all, index) == i + call_place(all.skip(i as int), index),
        decreases calls@.len() - i,
    {
        assert(all.skip(i as int)[0] == all[i as int]);
        assert(all.skip(i as int).skip(1) =~= all.skip(i + 1));
        if calls[i].index == index {
            return i;
        }
        i += 1;
    }
    assert(all.skip(i as int).len() == 0);
    i
}

fn text_field(v: Option<&Json>) -> (r: String)
    ensures
        r@ == or_empty(
            text_in(
                match v {
                    Some(x) => Some(x@),
                    None => None,
                },
            ),
        ),
{
    match v {
        Some(x) => match x.as_str() {
            Some(s) => s.clone(),
            None => String::new(),
        },
        None => String::new(),
    }
}

/// Adds a fragment to the call that it belongs to.
pub fn accumulate_call(calls: &mut Vec<PartialCall>, fragment: &Json)
    ensures
        partials(final(calls)@) == accumulated(partials(old(calls)@), fragment@),
{
    let index: u64 = match fragment.get("index") {
        Some(v) => match v.as_u64() {
            Some(n) => n,
            None => 0,
        },
        None => 0,
    };
    let ghost before = partials(calls@);
    let place = place_of(calls, index);
    proof {
        lemma_call_place(before, index);
    }
    if place == calls.len() {
        calls.push(
            PartialCall {
                index,
                id: String::new(),
                name: String::new(),
                arguments: String::new(),
            },
        );
    }
    let ghost mid = calls@;
    let mut slot = calls.remove(place);
    let id = text_field(fragment.get("id"));
    slot.id.append(&id);
    if let Some(function) = fragment.get("function") {
        let name = text_field(function.get("name"));
        slot.name.append(&name);
        let arguments = text_field(function.get("arguments"));
        slot.arguments.append(&arguments);
    }
    assert(slot@.id =~= grown(mid[place as int]@, fragment@).id);
    assert(slot@.name =~= grown(mid[place as int]@, fragment@).name);
    assert(slot@.arguments =~= grown(mid[place as int]@, fragment@).arguments);
    calls.insert(place, slot);
    assert(calls@ =~= mid.update(place as int, slot));
    assert(partials(calls@) =~= accumulated(before, fragment@));
}

/// The calls are kept apart by their index: no two have the same one.
pub open spec fn distinct_calls(calls: Seq<PartialCallV>) -> bool {
    forall|i: int, j: int|
        0 <= i < j < calls.len() ==> (#[trigger] calls[i]).index != (#[trigger] calls[j]).index
}

/// Adding a fragment keeps parallel calls apart.
pub proof fn law_calls_stay_apart(calls: Seq<PartialCallV>, f: JsonV)
    requires
        distinct_calls(calls),
    ensures
        distinct_calls(accumulated(calls, f)),
{
    lemma_call_place(calls, fragment_index(f));
}

/// A fragment changes no call but the one with its index.
pub proof fn law_fragment_touches_one_call(calls: Seq<PartialCallV>, f: JsonV, i: int)
    requires
        0 <= i < calls.len(),
        calls[i].index != fragment_index(f),
    ensures
        accumulated(calls, f)[i] == calls[i],
{
    lemma_call_place(calls, fragment_index(f));
}

/// The JSON form of a call on an assistant turn.
pub open spec fn call_value(c: PartialCallV) -> JsonV {
    JsonV::object().with("id"@, JsonV::Str(c.id)).with("type"@, JsonV::Str("function"@)).with(
        "function"@,
        JsonV::object().with("name"@, JsonV::Str(c.name)).with(
            "arguments"@,
            JsonV::Str(c.arguments),
        ),
    )
}

impl PartialCall {
    /// The JSON form of the call on an assistant turn.
    pub fn to_value(&self) -> (r: Json)
        ensures
            r@ == call_value(self@),
    {
        Json::object().with("id", Json::text(&self.id)).with("type", Json::text("function")).with(
            "function",
            Json::object().with("name", Json::text(&self.name)).with(
                "arguments",
                Json::text(&self.arguments),
            ),
        )
    }

    /// The call, now that it is complete.
    pub fn into_call(self) -> (r: ToolCall)
        ensures
            r@ == (ToolCallV { id: self@.id, name: self@.name, arguments: self@.arguments }),
    {
        ToolCall { id: self.id, name: self.name, arguments: self.arguments }
    }
}

// ---------------------------------------------------------------------------
// what is sent

/// A turn with text alone.
pub open spec fn text_turn(role: Seq<char>, content: Seq<char>) -> JsonV {
    JsonV::object().with("role"@, JsonV::Str(role)).with("content"@, JsonV::Str(content))
}

/// A turn with text alone.
pub fn turn(role: &str, content: &str) -> (r: Json)
    ensures
        r@ == text_turn(role@, content@),
{
    Json::object().with("role", Json::text(role)).with("content", Json::text(content))
}

/// A content part that holds one image by its address.
pub open spec fn image_value(url: Seq<char>) -> JsonV {
    JsonV::object().with("type"@, JsonV::Str("image_url"@)).with(
        "image_url"@,
        JsonV::object().with("url"@, JsonV::Str(url)),
    )
}

/// A content part that holds one image by its address.
pub fn image_part(url: &str) -> (r: Json)
    ensures
        r@ == image_value(url@),
{
    Json::object().with("type", Json::text("image_url")).with(
        "image_url",
        Json::object().with("url", Json::text(url)),
    )
}

/// A content part for each image.
pub open spec fn image_values(urls: Seq<Seq<char>>) -> Seq<JsonV> {
    Seq::new(urls.len(), |i: int| image_value(urls[i]))
}

fn image_parts(urls: &Vec<String>) -> (r: Vec<Json>)
    ensures
        jsons(r@) == image_values(texts(urls@)),
{
    let mut out: Vec<Json> = Vec::new();
    for i in 0..urls.len()
        invariant
            jsons(out@) == image_values(texts(urls@)).take(i as int),
    {
        out.push(image_part(&urls[i]));
        assert(image_values(texts(urls@)).take(i + 1) =~= image_values(texts(urls@)).take(
            i as int,
        ).push(image_value(urls@[i as int]@)));
    }
    assert(image_values(texts(urls@)).take(urls@.len() as int) =~= image_values(texts(urls@)));
    out
}

/// How the time is written into the system prompt.
pub open spec fn stamp_format() -> Seq<char> {
    "%A %-d %B %Y, %H:%M %Z"@
}

/// A day of the week.
pub open spec fn weekday_name(s: Seq<char>) -> bool {
    ||| s == "Sunday"@
    ||| s == "Monday"@
    ||| s == "Tuesday"@
    ||| s == "Wednesday"@
    ||| s == "Thursday"@
    ||| s == "Friday"@
    ||| s == "Saturday"@
}

/// A month of the year.
pub open spec fn month_name(s: Seq<char>) -> bool {
    ||| s == "January"@
    ||| s == "February"@
    ||| s == "March"@
    ||| s == "April"@
    ||| s == "May"@
    ||| s == "June"@
    ||| s == "July"@
    ||| s == "August"@
    ||| s == "September"@
    ||| s == "October"@
    ||| s == "November"@
    ||| s == "December"@
}

/// A number below a hundred with two digits.
pub open spec fn two_digits(n: nat) -> Seq<char> {
    seq![digit(n as int / 10), digit(n as int % 10)]
}

/// A year with at least four digits, and with its sign where it is negative or has
/// more.
pub open spec fn year_text(year: int) -> Seq<char> {
    if year >= 10000 {
        "+"@ + decimal(year as nat)
    } else if year >= 0 {
        two_digits((year / 100) as nat) + two_digits((year % 100) as nat)
    } else if year > -10000 {
        "-"@ + two_digits(((-year) / 100) as nat) + two_digits(((-year) % 100) as nat)
    } else {
        "-"@ + decimal((-year) as nat)
    }
}

/// A distance from UTC: ahead of it or behind, in hours and minutes, and in seconds
/// where there are any.
pub open spec fn zone_text(ahead: bool, hours: nat, minutes: nat, seconds: nat) -> Seq<char> {
    let whole = (if ahead {
        "+"@
    } else {
        "-"@
    }) + two_digits(hours) + ":"@ + two_digits(minutes);
    if seconds == 0 {
        whole
    } else {
        whole + ":"@ + two_digits(seconds)
    }
}

/// A time zone, written as its distance from UTC.
pub open spec fn zone_name(s: Seq<char>) -> bool {
    exists|ahead: bool, hours: nat, minutes: nat, seconds: nat|
        hours < 24 && minutes < 60 && seconds < 60 && s == #[trigger] zone_text(
            ahead,
            hours,
            minutes,
            seconds,
        )
}

/// A point in time, written out.
pub open spec fn time_text(
    weekday: Seq<char>,
    day: nat,
    month: Seq<char>,
    year: int,
    hour: nat,
    minute: nat,
    zone: Seq<char>,
) -> Seq<char> {
    weekday + " "@ + decimal(day) + " "@ + month + " "@ + year_text(year) + ", "@ + two_digits(hour)
        + ":"@ + two_digits(minute) + " "@ + zone
}

/// A point in time is written out here.
pub open spec fn stamped(s: Seq<char>) -> bool {
    exists|
        weekday: Seq<char>,
        day: nat,
        month: Seq<char>,
        year: int,
        hour: nat,
        minute: nat,
        zone: Seq<char>,
    |
        weekday_name(weekday) && 1 <= day <= 31 && month_name(month) && hour < 24 && minute < 60
            && zone_name(zone) && s == #[trigger] time_text(
            weekday,
            day,
            month,
            year,
            hour,
            minute,
            zone,
        )
}

/// `chrono::Local::now` and `DateTime::format`: the local time in the given format,
/// which is a weekday, a day of a month of a year, an hour and a minute, and the time
/// zone's distance from UTC. Which time it is depends on the clock and the machine's
/// time zone, so nothing is said of that, nor that the weekday is that of the date.
#[verifier::external_body]
fn local_time(format: &str) -> (r: String)
    requires
        format@ == stamp_format(),
    ensures
        stamped(r@),
{
    chrono::Local::now().format(format).to_string()
}

/// The sentence that tells the model the time.
pub open spec fn now_sentence(stamp: Seq<char>) -> Seq<char> {
    "The current date and time is "@ + stamp + "."@
}

/// The sentence that tells the model the given time.
pub fn now_line_at(stamp: &str) -> (r: String)
    ensures
        r@ == now_sentence(stamp@),
{
    let mut out = copy("The current date and time is ");
    out.append(stamp);
    out.append(".");
    out
}

/// The sentence that tells the model the time it is now.
pub fn now_line() -> (r: String)
    ensures
        exists|stamp: Seq<char>| stamped(stamp) && r@ == #[trigger] now_sentence(stamp),
{
    let stamp = local_time("%A %-d %B %Y, %H:%M %Z");
    now_line_at(&stamp)
}

/// The system prompt: what was configured, where the chat is, what time it is,
/// each its own paragraph, and what is empty left out.
pub open spec fn system_prompt(
    system: Option<Seq<char>>,
    chat_context: Seq<char>,
    now: Seq<char>,
) -> Seq<char> {
    let base = match system {
        Some(s) => if chat_context.len() > 0 {
            s + "\n\n"@ + chat_context
        } else {
            s
        },
        None => chat_context,
    };
    if base.len() == 0 {
        now
    } else {
        base + "\n\n"@ + now
    }
}

/// The messages of a request: the system prompt, then the conversation.
pub open spec fn request_messages(
    system: Option<Seq<char>>,
    convo: Seq<JsonV>,
    chat_context: Seq<char>,
    now: Seq<char>,
) -> Seq<JsonV> {
    seq![text_turn("system"@, system_prompt(system, chat_context, now))] + convo
}

/// The messages of a request with no tools on offer: some turns more, and the
/// instruction as a last `user` turn.
pub open spec fn toolless_messages(
    system: Option<Seq<char>>,
    convo: Seq<JsonV>,
    chat_context: Seq<char>,
    now: Seq<char>,
    extra: Seq<JsonV>,
    instruction: Seq<char>,
) -> Seq<JsonV> {
    (request_messages(system, convo, chat_context, now) + extra).push(
        text_turn("user"@, instruction),
    )
}

/// The turn that stands for images made without a word.
pub open spec fn made_turn(images: Seq<Seq<char>>) -> JsonV {
    text_turn("assistant"@, ""@).with("images"@, JsonV::Arr(image_values(images)))
}

pub open spec fn caption_instruction() -> Seq<char> {
    "Write one short line to send along with the image you just made. Text only — do not make another image."@
}

pub open spec fn conclude_instruction() -> Seq<char> {
    "Answer now, with what you already have. Do not call any tools."@
}

/// The body of a request.
pub open spec fn request_value(
    model: Seq<char>,
    reasoning_budget: i64,
    messages: Seq<JsonV>,
    tools: Seq<JsonV>,
) -> JsonV {
    let base = JsonV::object().with("model"@, JsonV::Str(model)).with(
        "messages"@,
        JsonV::Arr(messages),
    ).with("stream"@, JsonV::Bool(true)).with(
        "chat_template_kwargs"@,
        JsonV::object().with("enable_thinking"@, JsonV::Bool(reasoning_budget != 0)),
    );
    let capped = if reasoning_budget > 0 {
        base.with("reasoning_control"@, JsonV::Bool(true)).with(
            "reasoning_format"@,
            JsonV::Str("auto"@),
        ).with("thinking_budget_tokens"@, JsonV::Uint(reasoning_budget as u64))
    } else {
        base
    };
    if tools.len() > 0 {
        capped.with("tools"@, JsonV::Arr(tools))
    } else {
        capped
    }
}

proof fn lemma_no_tools_yet(v: JsonV, name: Seq<char>, value: JsonV)
    requires
        v is Obj,
        v.get("tools"@) is None,
        name.len() != 5,
    ensures
        v.with(name, value) is Obj,
        v.with(name, value).get("tools"@) is None,
{
    reveal_strlit("tools");
    lemma_field_with(v, name, value, "tools"@);
}

/// Tools are named in a request only where there are any: some servers reject an empty
/// list.
pub proof fn law_no_empty_list_of_tools(
    model: Seq<char>,
    reasoning_budget: i64,
    messages: Seq<JsonV>,
    tools: Seq<JsonV>,
)
    ensures
        request_value(model, reasoning_budget, messages, tools).get("tools"@) == (if tools.len()
            > 0 {
            Some(JsonV::Arr(tools))
        } else {
            None
        }),
{
    reveal_strlit("tools");
    reveal_strlit("messages");
    reveal_strlit("stream");
    reveal_strlit("chat_template_kwargs");
    reveal_strlit("reasoning_control");
    reveal_strlit("reasoning_format");
    reveal_strlit("thinking_budget_tokens");
    let thinking = JsonV::object().with("enable_thinking"@, JsonV::Bool(reasoning_budget != 0));
    let a = JsonV::object();
    let b = a.with("model"@, JsonV::Str(model));
    let c = b.with("messages"@, JsonV::Arr(messages));
    let d = c.with("stream"@, JsonV::Bool(true));
    let base = d.with("chat_template_kwargs"@, thinking);
    reveal_strlit("model");
    assert("model"@[0] != "tools"@[0]);
    lemma_field_with(a, "model"@, JsonV::Str(model), "tools"@);
    lemma_no_tools_yet(b, "messages"@, JsonV::Arr(messages));
    lemma_no_tools_yet(c, "stream"@, JsonV::Bool(true));
    lemma_no_tools_yet(d, "chat_template_kwargs"@, thinking);
    let e = base.with("reasoning_control"@, JsonV::Bool(true));
    let f = e.with("reasoning_format"@, JsonV::Str("auto"@));
    let capped = if reasoning_budget > 0 {
        f.with("thinking_budget_tokens"@, JsonV::Uint(reasoning_budget as u64))
    } else {
        base
    };
    lemma_no_tools_yet(base, "reasoning_control"@, JsonV::Bool(true));
    lemma_no_tools_yet(e, "reasoning_format"@, JsonV::Str("auto"@));
    lemma_no_tools_yet(f, "thinking_budget_tokens"@, JsonV::Uint(reasoning_budget as u64));
    lemma_field_with(capped, "tools"@, JsonV::Arr(tools), "tools"@);
}

/// How to reach and address the model.
pub struct AiClient {
    pub base: String,
    pub key: String,
    pub model: String,
    pub system: Option<String>,
    pub reasoning_budget: i64,
    pub tools: Vec<Json>,
}

impl AiClient {
    pub fn new(
        base: String,
        key: String,
        model: String,
        system: Option<String>,
        reasoning_budget: i64,
        tools: Vec<Json>,
    ) -> (r: AiClient)
        ensures
            r == (AiClient { base, key, model, system, reasoning_budget, tools }),
    {
        AiClient { base, key, model, system, reasoning_budget, tools }
    }

    /// The conversation behind the system prompt, with the given sentence on the
    /// time.
    pub fn with_system_at(&self, convo: &[Json], chat_context: &str, now: &str) -> (r: Vec<Json>)
        ensures
            jsons(r@) == request_messages(
                text_opt(self.system),
                jsons(convo@),
                chat_context@,
                now@,
            ),
    {
        let base = match &self.system {
            Some(s) => if chat_context.is_empty() {
                s.clone()
            } else {
                let mut t = s.clone();
                t.append("\n\n");
                t.append(chat_context);
                t
            },
            None => copy(chat_context),
        };
        let system = if base.as_str().is_empty() {
            copy(now)
        } else {
            let mut t = base;
            t.append("\n\n");
            t.append(now);
            t
        };
        assert(system@ =~= system_prompt(text_opt(self.system), chat_context@, now@));
        let mut messages: Vec<Json> = Vec::new();
        assert(jsons(messages@) =~= Seq::empty());
        messages.push(turn("system", &system));
        let mut rest = copy_all(convo);
        messages.append(&mut rest);
        assert(jsons(messages@) =~= request_messages(
            text_opt(self.system),
            jsons(convo@),
            chat_context@,
            now@,
        ));
        messages
    }

    /// The conversation behind the system prompt.
    pub fn with_system(&self, convo: &[Json], chat_context: &str) -> (r: Vec<Json>)
        ensures
            exists|stamp: Seq<char>|
                stamped(stamp) && jsons(r@) == request_messages(
                    text_opt(self.system),
                    jsons(convo@),
                    chat_context@,
                    #[trigger] now_sentence(stamp),
                ),
    {
        let now = now_line();
        self.with_system_at(convo, chat_context, &now)
    }

    /// The messages of a request with no tools on offer. Some providers reject a
    /// request ending on an assistant turn, so the instruction is a `user` turn.
    pub fn toolless_at(
        &self,
        convo: &[Json],
        chat_context: &str,
        now: &str,
        extra: Vec<Json>,
        instruction: &str,
    ) -> (r: Vec<Json>)
        ensures
            jsons(r@) == toolless_messages(
                text_opt(self.system),
                jsons(convo@),
                chat_context@,
                now@,
                jsons(extra@),
                instruction@,
            ),
    {
        let mut messages = self.with_system_at(convo, chat_context, now);
        let mut more = extra;
        messages.append(&mut more);
        messages.push(turn("user", instruction));
        messages
    }

    /// The messages that ask for one line to send with images that the model
    /// made but said nothing about.
    pub fn caption_messages(&self, convo: &[Json], chat_context: &str, images: &Vec<String>) -> (r:
        Vec<Json>)
        ensures
            exists|stamp: Seq<char>|
                stamped(stamp) && jsons(r@) == toolless_messages(
                    text_opt(self.system),
                    jsons(convo@),
                    chat_context@,
                    #[trigger] now_sentence(stamp),
                    seq![made_turn(texts(images@))],
                    caption_instruction(),
                ),
    {
        let now = now_line();
        let made = turn("assistant", "").with("images", Json::array(image_parts(images)));
        let mut extra: Vec<Json> = Vec::new();
        extra.push(made);
        assert(jsons(extra@) =~= seq![made_turn(texts(images@))]);
        self.toolless_at(
            convo,
            chat_context,
            &now,
            extra,
            "Write one short line to send along with the image you just made. Text only — do not make another image.",
        )
    }

    /// The messages that ask for a plain answer with no tools on offer, for when
    /// the model has stopped making progress with them.
    pub fn conclude_messages(&self, convo: &[Json], chat_context: &str) -> (r: Vec<Json>)
        ensures
            exists|stamp: Seq<char>|
                stamped(stamp) && jsons(r@) == toolless_messages(
                    text_opt(self.system),
                    jsons(convo@),
                    chat_context@,
                    #[trigger] now_sentence(stamp),
                    Seq::empty(),
                    conclude_instruction(),
                ),
    {
        let now = now_line();
        let extra: Vec<Json> = Vec::new();
        assert(jsons(extra@) =~= Seq::empty());
        self.toolless_at(
            convo,
            chat_context,
            &now,
            extra,
            "Answer now, with what you already have. Do not call any tools.",
        )
    }

    /// Where requests go.
    pub fn url(&self) -> (r: String)
        ensures
            r@ == trim_end_char(self.base@, '/') + "/chat/completions"@,
    {
        let mut out = trim_end_matches(&self.base, '/');
        out.append("/chat/completions");
        out
    }

    /// The body of a request. A positive budget caps thinking to that many
    /// tokens, which needs reasoning control on; a negative one leaves it
    /// unlimited; zero switches it off. An empty array of tools is rejected by
    /// some servers, so only a request with tools carries one.
    pub fn request_body(&self, messages: Vec<Json>, tools: &[Json]) -> (r: Json)
        ensures
            r@ == request_value(
                self.model@,
                self.reasoning_budget,
                jsons(messages@),
                jsons(tools@),
            ),
    {
        let mut body = Json::object().with("model", Json::text(&self.model)).with(
            "messages",
            Json::array(messages),
        ).with("stream", Json::Bool(true)).with(
            "chat_template_kwargs",
            Json::object().with("enable_thinking", Json::Bool(self.reasoning_budget != 0)),
        );
        if self.reasoning_budget > 0 {
            body = body.with("reasoning_control", Json::Bool(true)).with(
                "reasoning_format",
                Json::text("auto"),
            ).with("thinking_budget_tokens", Json::Uint(self.reasoning_budget as u64));
        }
        if tools.len() > 0 {
            body = body.with("tools", Json::array(copy_all(tools)));
        }
        body
    }
}

/// What is reported of a request that the server refused.
pub fn refusal(status: &str, detail: &str) -> (r: String)
    ensures
        r@ == status@ + ": "@ + trimmed(detail@),
{
    let mut out = copy(status);
    out.append(": ");
    out.append(&trim(detail));
    out
}

// ---------------------------------------------------------------------------
// what is sent and what is pieced together, told field by field

/// What a value says where it is a string; nothing where it is not.
pub open spec fn words(v: Option<JsonV>) -> Seq<char> {
    match v {
        Some(JsonV::Str(s)) => s,
        _ => Seq::empty(),
    }
}

/// The field of a value that may be missing.
pub open spec fn inner(v: Option<JsonV>, name: Seq<char>) -> Option<JsonV> {
    match v {
        Some(x) => x.get(name),
        None => None,
    }
}

/// A fragment of a call adds its texts to the end of those of the call with its index,
/// the first one where it names none, and touches no other call.
pub proof fn law_fragments_are_joined(calls: Seq<PartialCallV>, f: JsonV, index: u64, p: int)
    requires
        f.get("index"@) == Some(JsonV::Uint(index)) || (index == 0 && !(f.get(
            "index"@,
        ) matches Some(JsonV::Uint(_)))),
        0 <= p < calls.len(),
        calls[p].index == index,
        forall|j: int| 0 <= j < p ==> (#[trigger] calls[j]).index != index,
    ensures
        ({
            let after = accumulated(calls, f);
            &&& after.len() == calls.len()
            &&& forall|j: int|
                0 <= j < calls.len() && j != p ==> #[trigger] after[j] == calls[j]
            &&& after[p].index == index
            &&& after[p].id == calls[p].id + words(f.get("id"@))
            &&& after[p].name == calls[p].name + words(inner(f.get("function"@), "name"@))
            &&& after[p].arguments == calls[p].arguments + words(
                inner(f.get("function"@), "arguments"@),
            )
        }),
{
    lemma_call_place(calls, index);
    assert(fragment_index(f) == index);
    assert(call_place(calls, index) == p);
}

/// A fragment of a call that there is none of yet begins one behind the others, under
/// its index and with its texts alone.
pub proof fn law_new_calls_are_begun(calls: Seq<PartialCallV>, f: JsonV, index: u64)
    requires
        f.get("index"@) == Some(JsonV::Uint(index)) || (index == 0 && !(f.get(
            "index"@,
        ) matches Some(JsonV::Uint(_)))),
        forall|j: int| 0 <= j < calls.len() ==> (#[trigger] calls[j]).index != index,
    ensures
        ({
            let after = accumulated(calls, f);
            let new = after.last();
            &&& after.len() == calls.len() + 1
            &&& after.drop_last() == calls
            &&& new.index == index
            &&& new.id == words(f.get("id"@))
            &&& new.name == words(inner(f.get("function"@), "name"@))
            &&& new.arguments == words(inner(f.get("function"@), "arguments"@))
        }),
{
    lemma_call_place(calls, index);
    assert(fragment_index(f) == index);
    let none = Seq::<char>::empty();
    assert forall|x: Seq<char>| none + x == x by {
        assert(none + x =~= x);
    }
    assert(accumulated(calls, f).drop_last() =~= calls);
}

/// The fragments of one event are taken in one after the other.
pub proof fn law_fragments_are_taken_in_order(
    calls: Seq<PartialCallV>,
    fs: Seq<JsonV>,
    f: JsonV,
)
    ensures
        all_accumulated(calls, Seq::empty()) == calls,
        all_accumulated(calls, fs.push(f)) == accumulated(all_accumulated(calls, fs), f),
{
    assert(fs.push(f).drop_last() =~= fs);
}

/// An argument is looked up by its name.
pub proof fn law_arguments_go_by_name(args: JsonV, name: Seq<char>, x: JsonV)
    ensures
        args.get(name) == Some(x) ==> arg_in(Some(args), name) == Some(x),
        args.get(name) is None ==> arg_in(Some(args), name) == Some(JsonV::Null),
        arg_in(None, name) is None,
{
}

/// A turn says who says what.
pub proof fn law_a_turn_says_who_says_what(role: Seq<char>, content: Seq<char>)
    ensures
        text_turn(role, content).get("role"@) == Some(JsonV::Str(role)),
        text_turn(role, content).get("content"@) == Some(JsonV::Str(content)),
        text_turn(role, content)->Obj_0.len() == 2,
{
    reveal_strlit("role");
    reveal_strlit("content");
    assert("role"@.len() == 4 && "content"@.len() == 7);
    law_two_fields("role"@, JsonV::Str(role), "content"@, JsonV::Str(content));
}

/// A content part with an image holds its address.
pub proof fn law_an_image_part_holds_its_address(url: Seq<char>)
    ensures
        image_value(url).get("type"@) == Some(JsonV::Str("image_url"@)),
        image_value(url).get("image_url"@) is Some,
        image_value(url).get("image_url"@)->0.get("url"@) == Some(JsonV::Str(url)),
        forall|urls: Seq<Seq<char>>, i: int|
            0 <= i < urls.len() ==> #[trigger] image_values(urls)[i] == image_value(urls[i]),
        forall|urls: Seq<Seq<char>>| (#[trigger] image_values(urls)).len() == urls.len(),
{
    reveal_strlit("type");
    reveal_strlit("image_url");
    assert("type"@.len() == 4 && "image_url"@.len() == 9);
    let inner = JsonV::object().with("url"@, JsonV::Str(url));
    lemma_field_with(JsonV::object(), "url"@, JsonV::Str(url), "url"@);
    law_two_fields("type"@, JsonV::Str("image_url"@), "image_url"@, inner);
}

/// A call on an assistant turn is told in full.
pub proof fn law_a_call_is_told_in_full(c: PartialCallV)
    ensures
        call_value(c).get("id"@) == Some(JsonV::Str(c.id)),
        call_value(c).get("type"@) == Some(JsonV::Str("function"@)),
        call_value(c).get("function"@) is Some,
        call_value(c).get("function"@)->0.get("name"@) == Some(JsonV::Str(c.name)),
        call_value(c).get("function"@)->0.get("arguments"@) == Some(JsonV::Str(c.arguments)),
{
    reveal_strlit("id");
    reveal_strlit("type");
    reveal_strlit("function");
    reveal_strlit("name");
    reveal_strlit("arguments");
    assert("id"@.len() == 2 && "type"@.len() == 4 && "function"@.len() == 8);
    assert("name"@.len() == 4 && "arguments"@.len() == 9);
    law_two_fields("name"@, JsonV::Str(c.name), "arguments"@, JsonV::Str(c.arguments));
    law_three_fields(
        "id"@,
        JsonV::Str(c.id),
        "type"@,
        JsonV::Str("function"@),
        "function"@,
        JsonV::object().with("name"@, JsonV::Str(c.name)).with(
            "arguments"@,
            JsonV::Str(c.arguments),
        ),
    );
}

/// The conversation is sent whole and in order, behind one system turn; with no tools on
/// offer, behind it come the turns that are added and the instruction.
pub proof fn law_the_conversation_is_sent_whole(
    system: Option<Seq<char>>,
    convo: Seq<JsonV>,
    chat_context: Seq<char>,
    now: Seq<char>,
    extra: Seq<JsonV>,
    instruction: Seq<char>,
)
    ensures
        ({
            let ms = request_messages(system, convo, chat_context, now);
            &&& ms.len() == convo.len() + 1
            &&& ms.skip(1) == convo
            &&& ms[0].get("role"@) == Some(JsonV::Str("system"@))
            &&& ms[0].get("content"@) == Some(
                JsonV::Str(system_prompt(system, chat_context, now)),
            )
        }),
        ({
            let ms = toolless_messages(system, convo, chat_context, now, extra, instruction);
            let n = convo.len() as int + 1;
            &&& ms.len() == n + extra.len() + 1
            &&& ms.take(n) == request_messages(system, convo, chat_context, now)
            &&& ms.subrange(n, n + extra.len()) == extra
            &&& ms.last().get("role"@) == Some(JsonV::Str("user"@))
            &&& ms.last().get("content"@) == Some(JsonV::Str(instruction))
        }),
{
    let ms = request_messages(system, convo, chat_context, now);
    let all = toolless_messages(system, convo, chat_context, now, extra, instruction);
    let n = convo.len() as int + 1;
    law_a_turn_says_who_says_what("system"@, system_prompt(system, chat_context, now));
    law_a_turn_says_who_says_what("user"@, instruction);
    assert(ms.skip(1) =~= convo);
    assert(all.take(n) =~= ms);
    assert(all.subrange(n, n + extra.len()) =~= extra);
}

/// The system prompt holds what was configured, what is said of the chat and the time,
/// in that order and with an empty line between each, and nothing of what is empty.
pub proof fn law_the_system_prompt_has_its_paragraphs(
    s: Seq<char>,
    chat_context: Seq<char>,
    now: Seq<char>,
)
    ensures
        s.len() > 0 && chat_context.len() > 0 ==> system_prompt(Some(s), chat_context, now) == s
            + "\n\n"@ + chat_context + "\n\n"@ + now,
        s.len() > 0 ==> system_prompt(Some(s), Seq::empty(), now) == s + "\n\n"@ + now,
        chat_context.len() > 0 ==> system_prompt(None, chat_context, now) == chat_context
            + "\n\n"@ + now,
        system_prompt(None, Seq::empty(), now) == now,
        system_prompt(Some(Seq::empty()), Seq::empty(), now) == now,
{
}

/// A request names the model, carries the messages, asks for a stream, and says whether
/// and how long the model may think: not at all for zero, as long as it likes for a
/// negative budget, and no longer than the budget for a positive one. It says nothing
/// else but the tools, where there are any.
pub proof fn law_a_request_says_what_is_asked(
    model: Seq<char>,
    budget: i64,
    messages: Seq<JsonV>,
    tools: Seq<JsonV>,
)
    ensures
        request_value(model, budget, messages, tools) is Obj,
        ({
            let fields = request_value(model, budget, messages, tools)->Obj_0;
            let thinking = JsonV::Obj(seq![("enable_thinking"@, JsonV::Bool(budget != 0))]);
            let capped: nat = if budget > 0 {
                3
            } else {
                0
            };
            let offered: nat = if tools.len() > 0 {
                1
            } else {
                0
            };
            &&& fields.len() == 4 + capped + offered
            &&& fields.contains(("model"@, JsonV::Str(model)))
            &&& fields.contains(("messages"@, JsonV::Arr(messages)))
            &&& fields.contains(("stream"@, JsonV::Bool(true)))
            &&& fields.contains(("chat_template_kwargs"@, thinking))
            &&& budget > 0 ==> fields.contains(("reasoning_control"@, JsonV::Bool(true)))
            &&& budget > 0 ==> fields.contains(("reasoning_format"@, JsonV::Str("auto"@)))
            &&& budget > 0 ==> fields.contains(
                ("thinking_budget_tokens"@, JsonV::Uint(budget as u64)),
            )
            &&& tools.len() > 0 ==> fields.contains(("tools"@, JsonV::Arr(tools)))
        }),
{
    let fields = request_value(model, budget, messages, tools)->Obj_0;
    let thinking = JsonV::Obj(seq![("enable_thinking"@, JsonV::Bool(budget != 0))]);
    assert(JsonV::object().with("enable_thinking"@, JsonV::Bool(budget != 0))->Obj_0
        =~= thinking->Obj_0);
    assert(fields[0] == ("model"@, JsonV::Str(model)));
    assert(fields[1] == ("messages"@, JsonV::Arr(messages)));
    assert(fields[2] == ("stream"@, JsonV::Bool(true)));
    assert(fields[3] == ("chat_template_kwargs"@, thinking));
    if budget > 0 {
        assert(fields[4] == ("reasoning_control"@, JsonV::Bool(true)));
        assert(fields[5] == ("reasoning_format"@, JsonV::Str("auto"@)));
        assert(fields[6] == ("thinking_budget_tokens"@, JsonV::Uint(budget as u64)));
    }
    if tools.len() > 0 {
        assert(fields[fields.len() - 1] == ("tools"@, JsonV::Arr(tools)));
    }
}

/// A caption is asked for with the images as a turn of the model's own.
pub proof fn law_images_are_shown_for_a_caption(images: Seq<Seq<char>>)
    ensures
        made_turn(images).get("role"@) == Some(JsonV::Str("assistant"@)),
        made_turn(images).get("content"@) == Some(JsonV::Str(""@)),
        made_turn(images).get("images"@) == Some(JsonV::Arr(image_values(images))),
{
    reveal_strlit("role");
    reveal_strlit("content");
    reveal_strlit("images");
    assert("role"@.len() == 4 && "content"@.len() == 7 && "images"@.len() == 6);
    law_three_fields(
        "role"@,
        JsonV::Str("assistant"@),
        "content"@,
        JsonV::Str(""@),
        "images"@,
        JsonV::Arr(image_values(images)),
    );
}

/// Arguments can be looked up in an object and in `null`, and where there are none at all;
/// in nothing else.
pub proof fn law_where_arguments_can_be_looked_up(v: JsonV)
    ensures
        indexable(None),
        indexable(Some(v)) <==> v == JsonV::Null || v is Obj,
{
}

/// The model is told the time it is given, in a sentence of its own.
pub proof fn law_the_time_is_told(stamp: Seq<char>, other: Seq<char>)
    ensures
        now_sentence(stamp) == "The current date and time is "@ + stamp + "."@,
        now_sentence(stamp) == now_sentence(other) ==> stamp == other,
{
    let head = "The current date and time is "@;
    let a = now_sentence(stamp);
    let b = now_sentence(other);
    if a == b {
        assert(stamp =~= a.subrange(head.len() as int, a.len() - "."@.len()));
        assert(other =~= b.subrange(head.len() as int, b.len() - "."@.len()));
    }
}

/// When the model has to conclude it is told not to call any tools, and when it is asked for
/// a line that it is not to make another image.
pub proof fn law_what_the_model_is_told_to_do()
    ensures
        conclude_instruction()
            == "Answer now, with what you already have. Do not call any tools."@,
        caption_instruction()
            == "Write one short line to send along with the image you just made. Text only — do not make another image."@,
{
}

} // verus!
