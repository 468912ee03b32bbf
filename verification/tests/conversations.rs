use signal_ai_bot::ai::{turn, AiClient, Phase, ToolCall};
use signal_ai_bot::attachment::Attachment;
use signal_ai_bot::config::{
    device_name, env_flag, retention_in_range, Config, ConfigError, Env,
};
use signal_ai_bot::convo_cache::{Cached, ConvoCache, TTL};
use signal_ai_bot::exchange::{Exchange, Stage, MAX_AI_REQUESTS};
use signal_ai_bot::handler::{
    call_key, remember, summoned, truncated, Finished, Incoming, Listener, Opening,
};
use signal_ai_bot::history::HistMsg;
use signal_ai_bot::ids::{ServiceId, Thread};
use signal_ai_bot::json::Json;
use signal_ai_bot::media::Media;
use signal_ai_bot::message::Trigger;
use signal_ai_bot::prune::{all_threads, cutoff, stale};
use signal_ai_bot::replies::{AiReplies, MAX_ENTRIES};
use signal_ai_bot::stream::Completion;
use signal_ai_bot::tools::{Inline, ToolResult};
use signal_ai_bot::transcript::Transcript;
use signal_ai_bot::turn::{
    fresh, needs_thumbnails, quote_source, reply_of, trigger_turn, QuoteSource, TurnMedia,
};

fn config() -> Config {
    Config {
        trigger: "@ai".to_string(),
        processing_msg: "processing".to_string(),
        reasoning_msg: "reasoning".to_string(),
        generating_msg: "writing".to_string(),
        tool_msg: "looking".to_string(),
        context_messages: 5,
        vision: true,
        audio: false,
        documents: false,
        memory: false,
        retention: None,
        ai: AiClient::new(String::new(), String::new(), String::new(), None, 0, Vec::new()),
    }
}

fn pointer(mime: &str, digest: u8) -> Attachment {
    Attachment {
        handle: 0,
        content_type: Some(mime.to_string()),
        file_name: None,
        size: None,
        digest: Some(vec![digest]),
    }
}

fn trigger(body: &str) -> Trigger {
    Trigger {
        thread: Thread::Contact(ServiceId::Aci(1)),
        body: body.to_string(),
        quoted_text: None,
        quoted_ts: None,
        quoted_author: None,
        quoted_thumbnails: Vec::new(),
        own_atts: Vec::new(),
        body_ranges: Vec::new(),
    }
}

fn image() -> Media {
    let mut m = Media::default();
    m.images.push(("image/png".to_string(), "AAAA".to_string()));
    m
}

fn field(turn: &Json, name: &str) -> String {
    turn.get(name).and_then(|v| v.as_str()).expect("a string").clone()
}

#[test]
fn long_texts_are_cut() {
    assert_eq!(truncated("hello", 5), "hello");
    assert_eq!(truncated("hello", 4), "hell…");
    assert_eq!(truncated("äöü", 2), "äö…");
    assert_eq!(truncated("x", 0), "…");
    assert_eq!(truncated("", 0), "");
}

#[test]
fn the_trigger_summons_the_bot() {
    let cfg = config();
    assert_eq!(summoned(&cfg, &trigger("@ai hi"), false), Some(5));
    assert_eq!(summoned(&cfg, &trigger("well @ai2 hi"), false), Some(2));
    assert_eq!(summoned(&cfg, &trigger("@ai9 hi"), false), Some(5));
    assert_eq!(summoned(&cfg, &trigger("hi"), false), None);
    assert_eq!(summoned(&cfg, &trigger("hi"), true), Some(5));
    assert_eq!(summoned(&cfg, &trigger(" @ai3 "), false), None);
    let mut t = trigger("@ai3");
    t.own_atts.push(pointer("image/png", 1));
    assert_eq!(summoned(&cfg, &t, false), Some(3));
    let mut t = trigger("@ai");
    t.quoted_ts = Some(4);
    assert_eq!(summoned(&cfg, &t, false), Some(5));
    assert_eq!(summoned(&cfg, &trigger("  "), true), None);
}

#[test]
fn a_reply_refers_to_what_it_quotes() {
    let mut t = trigger("x");
    assert!(reply_of(&t, "Bob".to_string(), false).is_none());
    t.quoted_ts = Some(3);
    let r = reply_of(&t, "Bob".to_string(), true).unwrap();
    assert_eq!((r.author.as_str(), r.text.as_str(), r.ts, r.is_ai), ("Bob", "", Some(3), true));
    t.quoted_text = Some("said".to_string());
    assert_eq!(reply_of(&t, "Bob".to_string(), false).unwrap().text, "said");
}

fn turn_media(own: Media, stored: Vec<Attachment>, quoted: Media) -> TurnMedia {
    TurnMedia {
        own,
        stored,
        quoted,
        thumbs: vec![("image/jpeg".to_string(), "BBBB".to_string())],
    }
}

#[test]
fn a_turn_carries_its_own_media() {
    let cfg = config();
    let mut tr = Transcript::default();
    let mut t = trigger(" @ai look ");
    t.own_atts.push(pointer("image/png", 1));
    assert!(quote_source(&cfg, &tr, &t, 10, &image()) == QuoteSource::Nothing);
    let (turn, media) = trigger_turn(
        &cfg,
        &mut tr,
        "Bob",
        &t,
        10,
        None,
        turn_media(image(), Vec::new(), Media::default()),
    );
    assert_eq!(media.images.len(), 1);
    let parts = turn.get("content").and_then(|c| c.items()).unwrap();
    assert_eq!(
        field(&parts[0], "text"),
        "[msg 1] Bob: @ai look\n[attachments: #1 image/png (shown above)]"
    );
    assert!(tr.is_inlined(10));
}

#[test]
fn a_reply_brings_the_quoted_media_once() {
    let cfg = config();
    let mut tr = Transcript::default();
    let mut t = trigger("@ai what is that");
    t.quoted_ts = Some(5);
    assert!(quote_source(&cfg, &tr, &t, 10, &Media::default()) == QuoteSource::Store(5));
    let (turn, media) = trigger_turn(
        &cfg,
        &mut tr,
        "Bob",
        &t,
        10,
        None,
        turn_media(Media::default(), vec![pointer("image/png", 1)], image()),
    );
    assert_eq!(media.images[0].1, "AAAA");
    let parts = turn.get("content").and_then(|c| c.items()).unwrap();
    assert_eq!(
        field(&parts[0], "text"),
        "[msg 1] Bob: @ai what is that\n[attachments: #1 image/png (shown above)]"
    );
    assert!(tr.is_inlined(5));
    // the same reply again: the copy that is there is pointed at
    assert!(quote_source(&cfg, &tr, &t, 20, &Media::default()) == QuoteSource::Inlined(5));
    let (turn, media) = trigger_turn(
        &cfg,
        &mut tr,
        "Bob",
        &t,
        20,
        None,
        turn_media(Media::default(), vec![pointer("image/png", 1)], image()),
    );
    assert!(media.is_empty());
    assert_eq!(
        field(&turn, "content"),
        "[msg 2] Bob: @ai what is that\n[attachments: #1 image/png (shown above)]"
    );
}

#[test]
fn thumbnails_stand_in_for_what_is_gone() {
    let mut cfg = config();
    let mut t = trigger("@ai x");
    t.quoted_ts = Some(5);
    t.quoted_thumbnails.push(pointer("image/jpeg", 9));
    assert!(needs_thumbnails(&cfg, &[], &[], &Media::default()));
    assert!(!needs_thumbnails(&cfg, &[], &[], &image()));
    let mut tr = Transcript::default();
    let (_, media) = trigger_turn(
        &cfg,
        &mut tr,
        "Bob",
        &t,
        10,
        None,
        turn_media(Media::default(), Vec::new(), Media::default()),
    );
    assert_eq!(media.images[0].1, "BBBB");
    assert!(tr.is_inlined(5));
    // without vision there is nothing to show, only a note
    cfg.vision = false;
    let mut tr = Transcript::default();
    let (turn, media) = trigger_turn(
        &cfg,
        &mut tr,
        "Bob",
        &t,
        10,
        None,
        turn_media(Media::default(), Vec::new(), Media::default()),
    );
    assert!(media.is_empty());
    assert_eq!(
        field(&turn, "content"),
        "[msg 1] Bob: @ai x\n[the attachment on the message being replied to is no longer available]"
    );
    assert!(!tr.is_inlined(5));
}

#[test]
fn thumbnails_alone_are_shown() {
    let cfg = config();
    let mut t = trigger("@ai x");
    t.quoted_thumbnails.push(pointer("image/jpeg", 9));
    let mut tr = Transcript::default();
    assert!(quote_source(&cfg, &tr, &t, 10, &Media::default()) == QuoteSource::Thumbnails);
    let (_, media) = trigger_turn(
        &cfg,
        &mut tr,
        "Bob",
        &t,
        10,
        None,
        turn_media(image(), Vec::new(), Media::default()),
    );
    assert_eq!(media.images.len(), 2);
    assert_eq!(media.images[1].1, "BBBB");
}

#[test]
fn a_file_on_both_messages_is_not_fetched_twice() {
    let own = [pointer("image/png", 1)];
    let stored = [pointer("image/png", 1), pointer("image/png", 2)];
    let left = fresh(&own, &stored);
    assert_eq!(left.len(), 1);
    assert_eq!(left[0].digest, Some(vec![2]));
    assert!(!needs_thumbnails(&config(), &own, &stored, &Media::default()));
}

fn call(id: &str, name: &str) -> ToolCall {
    ToolCall { id: id.to_string(), name: name.to_string(), arguments: "{}".to_string() }
}

fn completion(text: &str, calls: Vec<ToolCall>) -> Completion {
    Completion {
        assistant: turn("assistant", text),
        text: text.to_string(),
        images: Vec::new(),
        calls,
    }
}

#[test]
fn a_call_is_known_by_name_and_arguments() {
    assert_eq!(call_key(&call("1", "n")), ("n".to_string(), "{}".to_string()));
}

#[test]
fn an_answer_ends_the_exchange() {
    let mut e = Exchange::new(100, 50, vec![turn("user", "hi")]);
    assert_eq!(e.placeholder_ts, 100);
    assert!(e.stage == Stage::Asking);
    e.on_completion(Ok(completion("hello", Vec::new())));
    assert_eq!(e.answer, "hello");
    assert!(e.stage == Stage::Uploading);
    assert!(e.images().is_empty());
    e.on_uploaded(0);
    assert!(e.stage == Stage::Answering);
    let edit = e.final_edit(90);
    assert_eq!((edit.target, edit.ts, edit.text.as_str()), (100, 101, "hello"));
    assert_eq!(e.image_ts(500), 500);
    assert_eq!(e.image_ts(5), 102);
}

#[test]
fn the_placeholder_comes_after_the_trigger() {
    assert_eq!(Exchange::new(10, 50, Vec::new()).placeholder_ts, 51);
    assert_eq!(Exchange::new(50, 50, Vec::new()).placeholder_ts, 51);
}

#[test]
fn a_phase_is_shown_once() {
    let cfg = config();
    let mut e = Exchange::new(100, 50, Vec::new());
    let edit = e.on_phase(&cfg, Phase::Reasoning, 100).unwrap();
    assert_eq!((edit.target, edit.ts, edit.text.as_str()), (100, 101, "reasoning"));
    assert!(e.on_phase(&cfg, Phase::Reasoning, 200).is_none());
    let edit = e.on_phase(&cfg, Phase::Tool, 200).unwrap();
    assert_eq!((edit.target, edit.ts, edit.text.as_str()), (101, 200, "looking"));
    let edit = e.on_phase(&cfg, Phase::Generating, 300).unwrap();
    assert_eq!((edit.target, edit.text.as_str()), (200, "writing"));
}

#[test]
fn an_error_is_cut_short() {
    let mut e = Exchange::new(100, 50, Vec::new());
    e.on_completion(Err("x".repeat(300)));
    assert!(e.stage == Stage::Uploading);
    assert_eq!(e.answer, format!("ai error: {}…", "x".repeat(200)));
}

#[test]
fn tool_results_come_before_their_media() {
    let mut e = Exchange::new(100, 50, vec![turn("user", "hi")]);
    e.on_completion(Ok(completion("", vec![call("1", "a"), call("2", "b")])));
    assert!(e.stage == Stage::Calling);
    assert_eq!(e.pending.len(), 2);
    e.on_tools(vec![
        ToolResult { content: "one follows".to_string(), media: Some(image()) },
        ToolResult::text("two".to_string()),
    ]);
    assert!(e.stage == Stage::Asking);
    assert_eq!(e.convo.len(), 5);
    assert_eq!(field(&e.convo[0], "content"), "hi");
    assert_eq!(field(&e.convo[1], "role"), "assistant");
    assert_eq!(field(&e.convo[2], "role"), "tool");
    assert_eq!(field(&e.convo[2], "tool_call_id"), "1");
    assert_eq!(field(&e.convo[3], "content"), "two");
    assert_eq!(field(&e.convo[4], "role"), "user");
    assert_eq!(e.round, 1);
}

#[test]
fn repeating_a_call_ends_in_a_conclusion() {
    let mut e = Exchange::new(100, 50, Vec::new());
    e.on_completion(Ok(completion("", vec![call("1", "a")])));
    e.on_tools(vec![ToolResult::text("r".to_string())]);
    // one new call among old ones is progress
    e.on_completion(Ok(completion("", vec![call("2", "a"), call("3", "b")])));
    assert!(e.stage == Stage::Calling);
    e.on_tools(vec![
        ToolResult::text("r".to_string()),
        ToolResult::text("r".to_string()),
    ]);
    e.on_completion(Ok(completion("", vec![call("4", "b"), call("5", "a")])));
    assert!(e.stage == Stage::Concluding);
    e.on_conclusion(Some("so".to_string()));
    assert_eq!(e.answer, "so");
    assert!(e.stage == Stage::Uploading);
}

#[test]
fn a_conclusion_without_words_is_no_answer() {
    for said in [None, Some("  ".to_string())] {
        let mut e = Exchange::new(100, 50, Vec::new());
        e.on_completion(Ok(completion("", vec![call("1", "a")])));
        e.on_tools(vec![ToolResult::text("r".to_string())]);
        e.on_completion(Ok(completion("", vec![call("1", "a")])));
        assert!(e.stage == Stage::Concluding);
        e.on_conclusion(said);
        assert_eq!(e.answer, "");
        e.on_uploaded(0);
        assert_eq!(e.answer, "(empty response)");
    }
}

#[test]
fn the_last_round_makes_no_calls() {
    let mut e = Exchange::new(100, 50, Vec::new());
    for i in 0..MAX_AI_REQUESTS {
        e.on_completion(Ok(completion("", vec![call("1", &format!("t{i}"))])));
        if i + 1 < MAX_AI_REQUESTS {
            assert!(e.stage == Stage::Calling);
            e.on_tools(vec![ToolResult::text("r".to_string())]);
        } else {
            assert!(e.stage == Stage::Concluding);
        }
    }
}

#[test]
fn images_without_words_get_a_caption() {
    let mut e = Exchange::new(100, 50, Vec::new());
    let mut c = completion(" ", Vec::new());
    c.images = vec!["data:image/png;base64,AAAA".to_string(), "nonsense".to_string()];
    e.on_completion(Ok(c));
    assert!(e.stage == Stage::Captioning);
    e.on_caption(Some(" ".to_string()));
    assert!(e.stage == Stage::Uploading);
    let images = e.images();
    assert_eq!(images, vec![("image/png".to_string(), vec![0, 0, 0])]);
    e.on_uploaded(1);
    assert_eq!(e.answer, " ");

    let mut e = Exchange::new(100, 50, Vec::new());
    let mut c = completion("", Vec::new());
    c.images = vec!["x".to_string()];
    e.on_completion(Ok(c));
    e.on_caption(Some("look".to_string()));
    assert_eq!(e.answer, "look");
}

fn cached(text: &str, tip_ts: u64) -> Cached {
    Cached {
        convo: vec![turn("user", text)],
        chat_context: "ctx".to_string(),
        transcript: Transcript::default(),
        tip_ts,
    }
}

fn found(c: &mut ConvoCache, ts: u64, now: u64) -> Option<u64> {
    c.get(ts, now).map(|x| x.tip_ts)
}

#[test]
fn the_oldest_conversation_makes_room() {
    let mut c = ConvoCache::new(2);
    c.insert(1, cached("a", 11), 0);
    c.insert(2, cached("b", 12), 0);
    c.insert(1, cached("a again", 21), 0);
    c.insert(3, cached("c", 13), 0);
    assert_eq!(found(&mut c, 1, 0), None);
    assert_eq!(found(&mut c, 2, 0), Some(12));
    assert_eq!(found(&mut c, 3, 0), Some(13));
    let mut none = ConvoCache::new(0);
    none.insert(1, cached("a", 11), 0);
    assert_eq!(found(&mut none, 1, 0), None);
}

#[test]
fn conversations_age_out() {
    let mut c = ConvoCache::new(5);
    c.insert(1, cached("a", 11), 1000);
    assert_eq!(found(&mut c, 1, 1000 + TTL - 1), Some(11));
    c.insert(2, cached("b", 12), 2000);
    assert_eq!(found(&mut c, 1, 1000 + TTL), None);
    assert_eq!(c.entries.len(), 1);
    c.purge_expired(2000 + TTL);
    assert!(c.entries.is_empty());
}

#[test]
fn an_alias_leads_to_its_answer() {
    let mut c = ConvoCache::new(5);
    c.alias(7, 1);
    assert!(c.aliases.is_empty());
    c.insert(1, cached("a", 11), 0);
    c.alias(7, 1);
    assert_eq!(found(&mut c, 7, 0), Some(11));
    c.insert(2, cached("b", 12), 0);
    c.alias(2, 1);
    assert_eq!(found(&mut c, 2, 0), Some(12));
    c.remove(7);
    assert_eq!(found(&mut c, 1, 0), None);
    assert_eq!(found(&mut c, 7, 0), None);
    assert!(c.aliases.is_empty());
    // a root is no alias any more
    c.alias(9, 2);
    c.insert(9, cached("c", 13), 0);
    assert_eq!(found(&mut c, 9, 0), Some(13));
}

fn finished(root: u64, answer: &str) -> Finished {
    Finished {
        root_ts: root,
        tip_ts: root + 5,
        image_ts: Some(root + 6),
        answer: answer.to_string(),
        convo: vec![turn("user", "hi")],
        chat_context: "ctx".to_string(),
        transcript: Transcript::default(),
    }
}

#[test]
fn answers_are_remembered_and_errors_are_not() {
    let mut c = ConvoCache::new(5);
    remember(&mut c, finished(10, "hello"), None, 0);
    assert_eq!(found(&mut c, 10, 0), Some(15));
    assert_eq!(found(&mut c, 16, 0), Some(15));
    let said = &c.get(10, 0).unwrap().convo;
    assert_eq!(field(&said[1], "content"), "hello");
    remember(&mut c, finished(20, "more"), Some(10), 0);
    assert_eq!(found(&mut c, 10, 0), None);
    assert_eq!(found(&mut c, 20, 0), Some(25));
    remember(&mut c, finished(30, "(empty response)"), None, 0);
    remember(&mut c, finished(40, "ai error: no"), Some(20), 0);
    assert_eq!(found(&mut c, 30, 0), None);
    assert_eq!(found(&mut c, 40, 0), None);
    assert_eq!(found(&mut c, 20, 0), Some(25));
}

#[test]
fn a_continuation_builds_on_what_was_said() {
    let cfg = config();
    let fresh = Opening::new(None, 3);
    assert_eq!((fresh.since, fresh.limit, fresh.convo.len()), (0, Some(3), 0));
    assert!(fresh.chat_context.is_none());
    let c = cached("before", 77);
    let mut o = Opening::new(Some(&c), 3);
    assert_eq!((o.since, o.limit, o.convo.len()), (77, None, 1));
    assert_eq!(o.chat_context.as_deref(), Some("ctx"));
    o.add_history(
        &cfg,
        &[HistMsg {
            is_ai: false,
            speaker: "Bob".to_string(),
            reply_to: None,
            text: "since".to_string(),
            atts: Vec::new(),
            ts: 80,
        }],
    );
    assert_eq!(field(&o.convo[0], "content"), "before");
    assert_eq!(field(&o.convo[1], "content"), "[msg 1] Bob: since");
    assert!(o.transcript.announce(&cfg, &[], Inline::Listed).is_empty());
}

#[test]
fn the_backlog_is_not_answered() {
    let mut l = Listener::new();
    assert!(!l.on_received(Incoming::Content));
    assert_eq!(l.prune_due(Some(5)), None);
    assert!(!l.on_received(Incoming::QueueEmpty));
    assert!(l.on_received(Incoming::Content));
    assert!(!l.on_received(Incoming::Contacts));
    assert!(!l.on_received(Incoming::DecryptionError));
    assert_eq!(l.prune_due(Some(5)), Some(5));
    assert_eq!(l.prune_due(None), None);
}

#[test]
fn only_stale_messages_are_pruned() {
    assert_eq!(cutoff(100, 30), 70);
    assert_eq!(cutoff(10, 30), 0);
    assert_eq!(stale(&[5, 70, 69, 71], 70), vec![5, 69]);
    let threads = all_threads(&vec![1], &vec![[2; 32]]);
    assert_eq!(threads.len(), 2);
    assert!(matches!(threads[0], Thread::Contact(ServiceId::Aci(1))));
    assert!(matches!(threads[1], Thread::Group(k) if k == [2; 32]));
}

#[test]
fn replies_are_recorded_and_read_back() {
    let mut r = AiReplies::load(None);
    assert_eq!(r.get(5), None);
    let text = r.record(5, "say \"hi\"\n".to_string()).unwrap();
    assert_eq!(text, "{\"5\":\"say \\\"hi\\\"\\n\"}");
    assert_eq!(r.get(5), Some("say \"hi\"\n"));
    let again = AiReplies::load(Some(&text));
    assert_eq!(again.get(5), Some("say \"hi\"\n"));
    assert_eq!(AiReplies::load(Some("[]")).get(5), None);
}

#[test]
fn the_oldest_replies_make_room() {
    let mut r = AiReplies::load(None);
    for i in 0..MAX_ENTRIES as u64 + 2 {
        r.record(1000 - i, format!("r{i}"));
    }
    // the smallest timestamps went first
    assert_eq!(r.get(1000), Some("r0"));
    assert_eq!(r.map.len(), MAX_ENTRIES);
    assert_eq!(r.get(1000 - MAX_ENTRIES as u64), None);
    assert_eq!(r.get(1001 - MAX_ENTRIES as u64), Some("r499"));
}

fn env() -> Env {
    Env {
        api_base: Some("http://x/v1".to_string()),
        api_key: None,
        model: Some("m".to_string()),
        system_prompt: None,
        trigger: None,
        processing_message: None,
        reasoning_message: None,
        generating_message: None,
        tool_message: None,
        context_messages: None,
        message_retention_days: None,
        reasoning_budget: None,
        vision: None,
        audio: None,
        documents: None,
        extra_tools: None,
    }
}

#[test]
fn the_defaults_are_those_of_the_readme() {
    let c = Config::from_env(env()).ok().unwrap();
    assert_eq!(c.trigger, "@ai");
    assert_eq!(c.processing_msg, "ai is processing...");
    assert_eq!(c.reasoning_msg, "ai is thinking...");
    assert_eq!(c.generating_msg, "ai is writing...");
    assert_eq!(c.tool_msg, "ai is looking things up...");
    assert_eq!(c.context_messages, 5);
    assert_eq!(c.retention, Some(7 * 24 * 60 * 60 * 1000));
    assert!(!c.vision && !c.audio && !c.documents && !c.memory);
    assert_eq!(c.ai.key, "");
    assert_eq!(c.ai.reasoning_budget, 0);
    assert_eq!(c.ai.system, None);
    assert_eq!(c.ai.tools.len(), 2);
}

#[test]
fn settings_are_read_from_the_environment() {
    let mut e = env();
    e.context_messages = Some("12".to_string());
    e.message_retention_days = Some("0".to_string());
    e.reasoning_budget = Some("-1".to_string());
    e.vision = Some(" Yes ".to_string());
    e.system_prompt = Some(String::new());
    e.extra_tools = Some("[{\"type\":\"x\"}]".to_string());
    let c = Config::from_env(e).ok().unwrap();
    assert_eq!(c.context_messages, 12);
    assert_eq!(c.retention, None);
    assert_eq!(c.ai.reasoning_budget, -1);
    assert!(c.vision && !c.memory);
    assert_eq!(c.ai.system, None);
    assert_eq!(tool_names(&c), vec!["load_avatar", "load_attachment", ""]);
}

fn tool_names(c: &Config) -> Vec<String> {
    let name = |t: &Json| Some(t.get("function")?.get("name")?.as_str()?.to_string());
    c.ai.tools.iter().map(|t| name(t).unwrap_or_default()).collect()
}

#[test]
fn memories_are_kept_only_on_demand() {
    let mut e = env();
    e.trigger = Some("!bot".to_string());
    let c = Config::from_env(e).ok().unwrap();
    assert!(!c.memory);
    assert_eq!(tool_names(&c), vec!["load_avatar", "load_attachment"]);
    let c = c.with_memory();
    assert!(c.memory);
    assert_eq!((c.trigger.as_str(), c.ai.model.as_str()), ("!bot", "m"));
    assert_eq!(
        tool_names(&c),
        vec![
            "load_avatar",
            "load_attachment",
            "list_memories",
            "read_memory",
            "save_memory",
            "delete_memory"
        ]
    );
}

#[test]
fn the_device_has_a_name() {
    assert_eq!(device_name(Some("desk".to_string())), "desk");
    assert_eq!(device_name(Some(String::new())), "signal-ai-bot");
    assert_eq!(device_name(None), "signal-ai-bot");
}

#[test]
fn settings_that_are_missing_or_wrong_are_refused() {
    let mut e = env();
    e.api_base = None;
    e.model = None;
    assert_eq!(Config::from_env(e).err().unwrap().text(), "API_BASE is required");
    let mut e = env();
    e.model = None;
    assert_eq!(Config::from_env(e).err().unwrap().text(), "MODEL is required");
    for bad in ["{}", "nonsense", "3"] {
        let mut e = env();
        e.extra_tools = Some(bad.to_string());
        let err = Config::from_env(e).err().unwrap();
        assert!(matches!(err, ConfigError::ExtraTools));
        assert_eq!(err.text(), "EXTRA_TOOLS must be a json array of tools");
    }
    let mut e = env();
    e.extra_tools = Some("  ".to_string());
    e.context_messages = Some("many".to_string());
    e.reasoning_budget = Some("1.5".to_string());
    let c = Config::from_env(e).ok().unwrap();
    assert_eq!((c.context_messages, c.ai.reasoning_budget), (5, 0));
}

#[test]
fn flags_are_on_when_they_say_so() {
    for on in ["1", "true", "YES", " On\n"] {
        assert!(env_flag(&Some(on.to_string())));
    }
    for off in ["", "0", "false", "y"] {
        assert!(!env_flag(&Some(off.to_string())));
    }
    assert!(!env_flag(&None));
    let mut e = env();
    assert!(retention_in_range(&e));
    e.message_retention_days = Some("213503982334".to_string());
    assert!(retention_in_range(&e));
    e.message_retention_days = Some("213503982335".to_string());
    assert!(!retention_in_range(&e));
}
