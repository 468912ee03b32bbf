use signal_ai_bot::ai::{
    accumulate_call, image_part, now_line, now_line_at, refusal, turn, AiClient, PartialCall,
    ToolCall,
};
use signal_ai_bot::answer::{next_phase, stitched_answer, visible_answer};
use signal_ai_bot::ai::Phase;
use signal_ai_bot::json::Json;
use signal_ai_bot::redact::redact_media;
use signal_ai_bot::stream::StreamState;

fn json(text: &str) -> Json {
    call("x", text).parsed().expect("valid json")
}

fn call(name: &str, arguments: &str) -> ToolCall {
    ToolCall {
        id: String::new(),
        name: name.to_string(),
        arguments: arguments.to_string(),
    }
}

fn value(j: &Json) -> serde_json::Value {
    match j {
        Json::Null => serde_json::Value::Null,
        Json::Bool(b) => serde_json::Value::from(*b),
        Json::Uint(n) => serde_json::Value::from(*n),
        Json::Int(n) => serde_json::Value::from(*n),
        Json::Float(s) => serde_json::from_str(s).unwrap(),
        Json::Str(s) => serde_json::Value::from(s.as_str()),
        Json::Arr(items) => serde_json::Value::from(items.iter().map(value).collect::<Vec<_>>()),
        Json::Obj(fields) => {
            let mut m = serde_json::Map::new();
            for (k, v) in fields {
                m.insert(k.clone(), value(v));
            }
            serde_json::Value::Object(m)
        }
    }
}

fn same(j: &Json, text: &str) -> bool {
    value(j) == serde_json::from_str::<serde_json::Value>(text).unwrap()
}

fn client(system: Option<&str>, budget: i64, tools: Vec<Json>) -> AiClient {
    AiClient::new(
        "http://host/v1//".to_string(),
        "key".to_string(),
        "m".to_string(),
        system.map(str::to_string),
        budget,
        tools,
    )
}

#[test]
fn assembles_a_call_from_fragments() {
    let mut calls: Vec<PartialCall> = Vec::new();
    accumulate_call(
        &mut calls,
        &json(
            "{\"index\": 0, \"id\": \"call_1\", \"function\": { \"name\": \"load_attachment\", \"arguments\": \"\" }}",
        ),
    );
    accumulate_call(
        &mut calls,
        &json("{ \"index\": 0, \"function\": { \"arguments\": \"{\\\"id\\\":\" } }"),
    );
    accumulate_call(
        &mut calls,
        &json("{ \"index\": 0, \"function\": { \"arguments\": \"3}\" } }"),
    );

    assert_eq!(calls.len(), 1);
    assert_eq!(calls[0].id, "call_1");
    assert_eq!(calls[0].name, "load_attachment");
    assert_eq!(calls[0].arguments, "{\"id\":3}");
}

#[test]
fn keeps_parallel_calls_apart() {
    let mut calls: Vec<PartialCall> = Vec::new();
    for f in [
        "{ \"index\": 1, \"id\": \"b\", \"function\": { \"name\": \"two\", \"arguments\": \"{}\" } }",
        "{ \"index\": 0, \"id\": \"a\", \"function\": { \"name\": \"one\", \"arguments\": \"{}\" } }",
        "{ \"index\": 1, \"function\": { \"arguments\": \"\" } }",
    ] {
        accumulate_call(&mut calls, &json(f));
    }
    assert_eq!(calls.len(), 2);
    assert_eq!(calls[0].name, "two");
    assert_eq!(calls[1].name, "one");
}

#[test]
fn a_fragment_without_an_index_belongs_to_the_first_call() {
    let mut calls: Vec<PartialCall> = Vec::new();
    accumulate_call(&mut calls, &json("{\"id\":\"a\"}"));
    accumulate_call(&mut calls, &json("{\"index\":\"1\",\"id\":\"b\"}"));
    assert_eq!(calls.len(), 1);
    assert_eq!(calls[0].index, 0);
    assert_eq!(calls[0].id, "ab");
}

#[test]
fn a_partial_call_becomes_a_call_and_a_value() {
    let p = PartialCall {
        index: 3,
        id: "i".to_string(),
        name: "n".to_string(),
        arguments: "{}".to_string(),
    };
    assert!(same(
        &p.to_value(),
        "{\"id\":\"i\",\"type\":\"function\",\"function\":{\"name\":\"n\",\"arguments\":\"{}\"}}"
    ));
    let c = p.into_call();
    assert_eq!((c.id.as_str(), c.name.as_str(), c.arguments.as_str()), ("i", "n", "{}"));
}

#[test]
fn arguments_are_looked_up_by_name() {
    let c = call("t", "{\"id\": 7, \"deep\": [-1, 2.5, null, true]}");
    assert!(matches!(c.try_arg("id"), Ok(Some(Json::Uint(7)))));
    assert!(matches!(c.try_arg("other"), Ok(Some(Json::Null))));
    assert!(matches!(call("t", "null").try_arg("id"), Ok(Some(Json::Null))));
    assert!(matches!(call("t", "not json").try_arg("id"), Ok(None)));
    assert!(call("t", "[1]").try_arg("id").is_err());
    assert!(call("t", "5").try_arg("id").is_err());
    assert!(call("t", "\"x\"").try_arg("id").is_err());
    assert!(matches!(c.arg("id"), Some(Json::Uint(7))));
    assert!(same(&c.parsed().unwrap(), "{\"id\": 7, \"deep\": [-1, 2.5, null, true]}"));
}

#[test]
fn reasoning_is_left_out_of_the_answer() {
    assert_eq!(stitched_answer("  hello "), "hello");
    assert_eq!(stitched_answer("why</think> because"), "because");
    assert_eq!(stitched_answer("<think>why</think> because"), "because");
    assert_eq!(stitched_answer("a<think>x</think>b<think>y</think>c"), "abc");
    assert_eq!(stitched_answer("x</think>a<think>y</think>b"), "ab");
    assert_eq!(stitched_answer("a<think>never closed"), "a");
    assert_eq!(stitched_answer("x</think>a<think>never closed"), "a");
    assert_eq!(stitched_answer("<think>x</think>a</think>b<think>y"), "a</think>b");
    assert_eq!(stitched_answer("1 < 2, </thin></think>3 < 4"), "3 < 4");
    assert_eq!(stitched_answer("a < b<think>c < d<think></think> <think"), "a < b <think");
    assert_eq!(stitched_answer(""), "");
}

#[test]
fn the_phase_follows_from_what_has_arrived() {
    assert!(next_phase(false, "").is_none());
    assert!(matches!(next_phase(true, ""), Some(Phase::Reasoning)));
    assert!(matches!(next_phase(false, "<think>hm"), Some(Phase::Reasoning)));
    assert!(matches!(next_phase(false, "<think>hm</think> x"), Some(Phase::Generating)));
    assert!(matches!(next_phase(false, "<think>hm</think> "), Some(Phase::Reasoning)));
    assert!(matches!(next_phase(false, "text"), Some(Phase::Generating)));
    assert_eq!(visible_answer("a</think>  b").as_deref(), Some("b"));
    assert_eq!(visible_answer("<think>b"), None);
    // reasoning that is entered again is hidden too
    assert_eq!(visible_answer("<think>a</think>b<think>c").as_deref(), Some("b"));
    assert_eq!(visible_answer("a</think>b <think>c<think>d").as_deref(), Some("b "));
    assert_eq!(visible_answer("<think>a</think><think>c").as_deref(), Some(""));
    assert_eq!(visible_answer("<think>a</think>b<think>c</think> d").as_deref(), Some("d"));
    assert!(matches!(next_phase(false, "<think>a</think>b<think>c"), Some(Phase::Generating)));
    assert!(matches!(next_phase(false, "<think>a</think><think>c"), Some(Phase::Reasoning)));
    assert!(matches!(next_phase(false, "a</think> <think>c"), Some(Phase::Reasoning)));
    assert_eq!(visible_answer("b").as_deref(), Some("b"));
}

#[test]
fn the_system_prompt_ends_with_the_time() {
    let convo = vec![turn("user", "hi")];
    let msgs = client(Some("be kind"), 0, Vec::new()).with_system_at(&convo, "ctx", "NOW");
    assert_eq!(msgs.len(), 2);
    assert!(same(&msgs[0], "{\"role\":\"system\",\"content\":\"be kind\\n\\nctx\\n\\nNOW\"}"));
    assert!(same(&msgs[1], "{\"role\":\"user\",\"content\":\"hi\"}"));
    let msgs = client(Some("be kind"), 0, Vec::new()).with_system_at(&convo, "", "NOW");
    assert!(same(&msgs[0], "{\"role\":\"system\",\"content\":\"be kind\\n\\nNOW\"}"));
    let msgs = client(None, 0, Vec::new()).with_system_at(&convo, "ctx", "NOW");
    assert!(same(&msgs[0], "{\"role\":\"system\",\"content\":\"ctx\\n\\nNOW\"}"));
    let msgs = client(None, 0, Vec::new()).with_system_at(&convo, "", "NOW");
    assert!(same(&msgs[0], "{\"role\":\"system\",\"content\":\"NOW\"}"));
}

#[test]
fn the_time_is_written_out() {
    assert_eq!(
        now_line_at("Monday 3 March 2025, 10:00 CET"),
        "The current date and time is Monday 3 March 2025, 10:00 CET."
    );
    let now = now_line();
    let stamp = now
        .strip_prefix("The current date and time is ")
        .and_then(|s| s.strip_suffix('.'))
        .expect("a sentence");
    let (date, time) = stamp.split_once(", ").expect("a date and a time");
    let date: Vec<&str> = date.split(' ').collect();
    assert_eq!(date.len(), 4);
    assert!(date[0].ends_with("day"));
    assert!((1..=31).contains(&date[1].parse::<u32>().unwrap()));
    assert!(!date[1].starts_with('0'));
    assert!(date[2].chars().all(|c| c.is_ascii_alphabetic()));
    assert!(date[3].len() == 4 && date[3].parse::<u32>().is_ok());
    let (clock, zone) = time.split_once(' ').expect("a clock and a zone");
    let (hour, minute) = clock.split_once(':').expect("hours and minutes");
    assert!(hour.len() == 2 && hour.parse::<u32>().unwrap() < 24);
    assert!(minute.len() == 2 && minute.parse::<u32>().unwrap() < 60);
    assert!(zone.starts_with('+') || zone.starts_with('-'));
    assert_eq!(zone.chars().nth(3), Some(':'));
}

#[test]
fn a_conclusion_is_asked_for_without_tools() {
    let c = client(None, 0, Vec::new());
    let convo = vec![turn("user", "hi")];
    let msgs = c.conclude_messages(&convo, "");
    assert_eq!(msgs.len(), 3);
    assert!(same(
        &msgs[2],
        "{\"role\":\"user\",\"content\":\"Answer now, with what you already have. Do not call any tools.\"}"
    ));
}

#[test]
fn a_caption_is_asked_for_with_the_images() {
    let c = client(None, 0, Vec::new());
    let msgs = c.caption_messages(&[], "", &vec!["data:image/png;base64,AA==".to_string()]);
    assert_eq!(msgs.len(), 3);
    assert!(same(
        &msgs[1],
        "{\"role\":\"assistant\",\"content\":\"\",\"images\":[{\"type\":\"image_url\",\"image_url\":{\"url\":\"data:image/png;base64,AA==\"}}]}"
    ));
    assert!(same(
        &msgs[2],
        "{\"role\":\"user\",\"content\":\"Write one short line to send along with the image you just made. Text only — do not make another image.\"}"
    ));
}

#[test]
fn a_request_names_the_model_and_the_budget() {
    let c = client(None, 0, Vec::new());
    assert_eq!(c.url(), "http://host/v1/chat/completions");
    assert!(same(
        &c.request_body(vec![turn("user", "hi")], &[]),
        "{\"model\":\"m\",\"messages\":[{\"role\":\"user\",\"content\":\"hi\"}],\"stream\":true,\"chat_template_kwargs\":{\"enable_thinking\":false}}"
    ));
    let c = client(None, 64, Vec::new());
    let tools = vec![json("{\"type\":\"x\"}")];
    assert!(same(
        &c.request_body(Vec::new(), &tools),
        "{\"model\":\"m\",\"messages\":[],\"stream\":true,\"chat_template_kwargs\":{\"enable_thinking\":true},\"reasoning_control\":true,\"reasoning_format\":\"auto\",\"thinking_budget_tokens\":64,\"tools\":[{\"type\":\"x\"}]}"
    ));
    let c = client(None, -1, Vec::new());
    assert!(same(
        &c.request_body(Vec::new(), &[]),
        "{\"model\":\"m\",\"messages\":[],\"stream\":true,\"chat_template_kwargs\":{\"enable_thinking\":true}}"
    ));
}

#[test]
fn a_refusal_says_why() {
    assert_eq!(refusal("400 Bad Request", " no such model\n"), "400 Bad Request: no such model");
}

fn feed(state: &mut StreamState, lines: &str) {
    state.feed(lines.as_bytes());
}

#[test]
fn a_stream_becomes_a_completion() {
    let mut s = StreamState::new();
    feed(&mut s, ": comment\n\ndata: {\"choices\":[{\"delta\":{\"reasoning_content\":\"hm\"}}]}\n");
    feed(&mut s, "data: {\"choices\":[{\"delta\":{\"content\":\"Hel\"}}]}\n");
    feed(&mut s, "data: {\"choices\":[{\"delta\":{\"content\":\"lo\"}}]}\ndata: nonsense\n");
    feed(&mut s, "data: [DONE]\ndata: {\"choices\":[{\"delta\":{\"content\":\"!\"}}]}\n");
    assert!(s.done);
    assert_eq!(s.phases.len(), 2);
    assert!(matches!(s.phases[0], Phase::Reasoning));
    assert!(matches!(s.phases[1], Phase::Generating));
    let c = s.finish();
    assert_eq!(c.text, "Hello");
    assert!(c.calls.is_empty());
    assert!(c.images.is_empty());
    assert!(same(&c.assistant, "{\"role\":\"assistant\",\"content\":\"Hello\"}"));
}

#[test]
fn a_stream_carries_calls_and_images() {
    let mut s = StreamState::new();
    feed(
        &mut s,
        "data: {\"choices\":[{\"delta\":{\"tool_calls\":[{\"index\":0,\"id\":\"c\",\"function\":{\"name\":\"load_avatar\",\"arguments\":\"{}\"}}]}}]}\n",
    );
    feed(
        &mut s,
        "data: {\"choices\":[{\"delta\":{\"images\":[{\"image_url\":{\"url\":\"data:x\"}},{\"other\":1}]}}]}\n",
    );
    assert!(matches!(s.phase, Some(Phase::Tool)));
    let c = s.finish();
    assert_eq!(c.calls.len(), 1);
    assert_eq!(c.calls[0].name, "load_avatar");
    assert_eq!(c.images, vec!["data:x".to_string()]);
    assert!(same(
        &c.assistant,
        "{\"role\":\"assistant\",\"content\":\"\",\"tool_calls\":[{\"id\":\"c\",\"type\":\"function\",\"function\":{\"name\":\"load_avatar\",\"arguments\":\"{}\"}}],\"images\":[{\"type\":\"image_url\",\"image_url\":{\"url\":\"data:x\"}}]}"
    ));
}

#[test]
fn where_a_stream_is_cut_does_not_matter() {
    let text = "data: {\"choices\":[{\"delta\":{\"content\":\"gr\u{fc}\u{df}e\"}}]}\ndata: {\"choices\":[{\"delta\":{\"content\":\" dich\"}}]}\n";
    let mut whole = StreamState::new();
    whole.feed(text.as_bytes());
    let mut bytewise = StreamState::new();
    for b in text.as_bytes() {
        bytewise.feed(&[*b]);
    }
    assert_eq!(whole.phases.len(), bytewise.phases.len());
    assert_eq!(whole.finish().text, "gr\u{fc}\u{df}e dich");
    assert_eq!(bytewise.finish().text, "gr\u{fc}\u{df}e dich");
}

#[test]
fn bytes_that_are_no_text_do_not_end_a_stream() {
    let mut s = StreamState::new();
    s.feed(b"data: \xff\xfe\ndata: {\"choices\":[{\"delta\":{\"content\":\"ok\"}}]}\n");
    assert_eq!(s.finish().text, "ok");
}

#[test]
fn media_is_kept_out_of_the_log() {
    let msgs = vec![
        json("{\"role\":\"user\",\"content\":[{\"type\":\"text\",\"text\":\"t\"},{\"type\":\"image_url\",\"image_url\":{\"url\":\"data:long\"}},{\"type\":\"input_audio\",\"input_audio\":{}},{\"type\":\"file\",\"file\":{}},{\"no\":\"type\"}]}"),
        json("{\"role\":\"assistant\",\"content\":\"\",\"images\":[1,2]}"),
        json("3"),
    ];
    let out = redact_media(&msgs);
    assert_eq!(out.len(), 3);
    assert!(same(
        &out[0],
        "{\"role\":\"user\",\"content\":[{\"type\":\"text\",\"text\":\"t\"},{\"type\":\"image_url\",\"image_url\":\"<omitted>\"},{\"type\":\"input_audio\",\"input_audio\":\"<omitted>\"},{\"type\":\"file\",\"file\":\"<omitted>\"},{\"no\":\"type\"}]}"
    ));
    assert!(same(&out[1], "{\"role\":\"assistant\",\"content\":\"\",\"images\":\"<images omitted>\"}"));
    assert!(same(&out[2], "3"));
}

#[test]
fn an_image_part_holds_its_address() {
    assert!(same(&image_part("u"), "{\"type\":\"image_url\",\"image_url\":{\"url\":\"u\"}}"));
}
