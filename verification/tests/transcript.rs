use signal_ai_bot::ai::AiClient;
use signal_ai_bot::attachment::Attachment;
use signal_ai_bot::config::Config;
use signal_ai_bot::history::HistMsg;
use signal_ai_bot::json::Json;
use signal_ai_bot::media::Media;
use signal_ai_bot::message::ReplyRef;
use signal_ai_bot::transcript::{user_turn_value, Transcript, QUOTE_MAX};

fn config() -> Config {
    Config {
        trigger: "@ai".to_string(),
        processing_msg: String::new(),
        reasoning_msg: String::new(),
        generating_msg: String::new(),
        tool_msg: String::new(),
        context_messages: 5,
        vision: true,
        audio: false,
        documents: false,
        memory: false,
        retention: None,
        ai: AiClient::new(
            String::new(),
            String::new(),
            String::new(),
            None,
            0,
            Vec::new(),
        ),
    }
}

fn msg(ts: u64, speaker: &str, text: &str, reply_to: Option<ReplyRef>) -> HistMsg {
    HistMsg {
        is_ai: false,
        speaker: speaker.to_string(),
        reply_to,
        text: text.to_string(),
        atts: Vec::new(),
        ts,
    }
}

fn ai(ts: u64, text: &str) -> HistMsg {
    HistMsg {
        is_ai: true,
        speaker: String::new(),
        reply_to: None,
        text: text.to_string(),
        atts: Vec::new(),
        ts,
    }
}

fn reply(ts: Option<u64>, author: &str, text: &str, is_ai: bool) -> ReplyRef {
    ReplyRef {
        author: author.to_string(),
        text: text.to_string(),
        ts,
        is_ai,
    }
}

fn field(turn: &Json, name: &str) -> String {
    turn.get(name).and_then(|v| v.as_str()).expect("a string").clone()
}

fn contents(turns: &[Json]) -> Vec<String> {
    turns.iter().map(|t| field(t, "content")).collect()
}

#[test]
fn numbers_messages_and_cites_a_reply_by_number() {
    let cfg = config();
    let mut t = Transcript::default();
    let turns = t.history_turns(
        &cfg,
        &[
            msg(10, "alice", "look at this", None),
            msg(20, "carol", "nice", None),
            msg(
                30,
                "bob",
                "what is that?",
                Some(reply(Some(10), "alice", "look at this", false)),
            ),
        ],
    );
    assert_eq!(
        contents(&turns),
        vec![
            "[msg 1] alice: look at this",
            "[msg 2] carol: nice",
            "[msg 3] [in reply to msg 1] bob: what is that?",
        ]
    );
}

#[test]
fn transcript_keeps_numbering_across_calls() {
    let cfg = config();
    let mut t = Transcript::default();
    t.history_turns(&cfg, &[msg(10, "alice", "hi", None)]);
    let turns = t.history_turns(&cfg, &[msg(20, "bob", "hey", None)]);
    assert_eq!(contents(&turns), vec!["[msg 2] bob: hey"]);
}

#[test]
fn quotes_the_text_only_for_a_message_outside_the_window() {
    let cfg = config();
    let mut t = Transcript::default();
    let turns = t.history_turns(
        &cfg,
        &[msg(
            30,
            "bob",
            "what is that?",
            Some(reply(Some(10), "alice", "look\nat this", false)),
        )],
    );
    assert_eq!(
        contents(&turns),
        vec!["[msg 1] [in reply to alice: \"look at this\"] bob: what is that?"]
    );
}

#[test]
fn truncates_a_long_quote() {
    let cfg = config();
    let mut t = Transcript::default();
    let long = "x".repeat(QUOTE_MAX + 50);
    let turns = t.history_turns(
        &cfg,
        &[msg(
            30,
            "bob",
            "?",
            Some(reply(Some(10), "alice", &long, false)),
        )],
    );
    assert!(contents(&turns)[0].contains(&format!("\"{}…\"", "x".repeat(QUOTE_MAX))));
}

#[test]
fn addresses_the_bot_as_you_and_leaves_its_turns_unnumbered() {
    let cfg = config();
    let mut t = Transcript::default();
    let turns = t.history_turns(
        &cfg,
        &[
            ai(10, "it's a cat"),
            msg(
                20,
                "bob",
                "are you sure?",
                Some(reply(Some(10), "bot", "it's a cat", true)),
            ),
        ],
    );
    assert_eq!(field(&turns[0], "role"), "assistant");
    assert_eq!(
        contents(&turns),
        vec!["it's a cat", "[msg 1] [in reply to you] bob: are you sure?"]
    );
}

#[test]
fn remembers_which_messages_have_their_media_inline() {
    let mut t = Transcript::default();
    assert!(!t.is_inlined(10));
    t.mark_inlined(10);
    assert!(t.is_inlined(10));
    assert!(!t.is_inlined(20));
}

#[test]
fn a_message_keeps_its_number() {
    let mut t = Transcript::default();
    assert_eq!(t.number(50), 1);
    assert_eq!(t.number(20), 2);
    assert_eq!(t.number(50), 1);
    assert_eq!(t.number_of(20), Some(2));
    assert_eq!(t.number_of(99), None);
    let mut u = t.copy();
    u.mark_inlined(50);
    assert_eq!(u.number(7), 3);
    assert_eq!(t.number_of(7), None);
    assert!(!t.is_inlined(50));
}

#[test]
fn a_reply_without_text_names_its_author() {
    let t = Transcript::default();
    assert_eq!(t.reply_target(&reply(None, "alice", "", false)), "alice");
    assert_eq!(t.reply_target(&reply(Some(3), "alice", "x", false)), "alice: \"x\"");
}

#[test]
fn history_lists_attachments_behind_the_text() {
    let cfg = config();
    let mut t = Transcript::default();
    let mut m = msg(1, "alice", "see", None);
    m.atts.push(Attachment {
        handle: 1,
        content_type: Some("image/png".to_string()),
        file_name: None,
        size: None,
        digest: None,
    });
    let turns = t.history_turns(&cfg, &[m]);
    assert_eq!(contents(&turns), vec!["[msg 1] alice: see\n[attachments: #1 image/png]"]);
    assert!(t.catalog().get(1).is_some());
}

#[test]
fn a_turn_without_media_is_plain_text() {
    let turn = user_turn_value("hi".to_string(), &Media::default());
    assert_eq!(field(&turn, "role"), "user");
    assert_eq!(field(&turn, "content"), "hi");
}

#[test]
fn a_turn_with_media_has_parts_in_order() {
    let media = Media {
        images: vec![("image/png".to_string(), "AA==".to_string())],
        audio: vec!["BB==".to_string()],
        files: vec![("f.pdf".to_string(), "data:application/pdf;base64,CC==".to_string())],
    };
    let turn = user_turn_value("hi".to_string(), &media);
    let parts = turn.get("content").and_then(|c| c.items()).expect("parts");
    let kinds: Vec<String> = parts.iter().map(|p| field(p, "type")).collect();
    assert_eq!(kinds, vec!["text", "image_url", "file", "input_audio"]);
    assert_eq!(field(&parts[0], "text"), "hi");
    assert_eq!(
        field(parts[1].get("image_url").unwrap(), "url"),
        "data:image/png;base64,AA=="
    );
    assert_eq!(field(parts[2].get("file").unwrap(), "filename"), "f.pdf");
    assert_eq!(
        field(parts[2].get("file").unwrap(), "file_data"),
        "data:application/pdf;base64,CC=="
    );
    assert_eq!(field(parts[3].get("input_audio").unwrap(), "data"), "BB==");
    assert_eq!(field(parts[3].get("input_audio").unwrap(), "format"), "wav");
}
