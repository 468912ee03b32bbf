use signal_ai_bot::ai::{AiClient, Phase};
use signal_ai_bot::attachment::Attachment;
use signal_ai_bot::config::Config;
use signal_ai_bot::exchange::Exchange;
use signal_ai_bot::history::{thread_history, HistMsg};
use signal_ai_bot::ids::{uuid_bytes, ServiceId, Thread};
use signal_ai_bot::message::{
    author_source, content_attachments, content_images, data_message, extract,
    from_me, mention_accounts, mention_aci, message_version, quote_author_uuid, quote_text,
    reply_ref, requested_context, resolve_author, resolve_mentions, AuthorSource, BodyRange, Content, ContentBody,
    DataMessage, EditMessage, Quote, RangeValue, RootWalk, Sent, Version, WalkStep, BOT_FILE_NAME,
};
use signal_ai_bot::names::{fallback_name, ChatInfo, Names};
use signal_ai_bot::recipient::{
    attachments_message, edit_message, edit_of, placeholder_message, text_message, trigger_quote,
    upload_spec, Recipient, TriggerRef,
};

const BOB: u128 = 0x00112233_4455_6677_8899_aabbccddeeff;
const ME: u128 = 42;

fn dm(body: &str) -> DataMessage {
    DataMessage {
        body: Some(body.to_string()),
        timestamp: None,
        group_v2: None,
        quote: None,
        attachments: Vec::new(),
        sticker: None,
        body_ranges: Vec::new(),
    }
}

fn content(sender: u128, ts: u64, body: ContentBody) -> Content {
    Content {
        sender: ServiceId::Aci(sender),
        envelope_ts: ts,
        timestamp: ts,
        thread: Some(Thread::Contact(ServiceId::Aci(BOB))),
        body,
    }
}

fn pointer(mime: &str) -> Attachment {
    Attachment {
        handle: 0,
        content_type: Some(mime.to_string()),
        file_name: None,
        size: None,
        digest: None,
    }
}

fn quote() -> Quote {
    Quote {
        id: None,
        author_aci: None,
        author_aci_binary: None,
        text: None,
        body_ranges: Vec::new(),
        thumbnails: Vec::new(),
    }
}

fn mention(start: Option<u32>, value: RangeValue) -> BodyRange {
    BodyRange { start, associated_value: Some(value) }
}

#[test]
fn the_author_of_a_quote_is_read_either_way() {
    let text = "00112233-4455-6677-8899-AABBCCDDEEFF";
    let mut q = quote();
    assert_eq!(quote_author_uuid(&q), None);
    q.author_aci_binary = Some(uuid_bytes(7));
    assert_eq!(quote_author_uuid(&q), Some(7));
    q.author_aci = Some(text.to_string());
    assert_eq!(quote_author_uuid(&q), Some(BOB));
    q.author_aci = Some("no uuid".to_string());
    assert_eq!(quote_author_uuid(&q), Some(7));
    q.author_aci_binary = Some(vec![1, 2]);
    assert_eq!(quote_author_uuid(&q), None);
}

#[test]
fn uuids_are_written_as_bytes() {
    assert_eq!(uuid_bytes(BOB), uuid::Uuid::from_u128(BOB).as_bytes().to_vec());
    assert_eq!(uuid_bytes(0), vec![0; 16]);
    assert_eq!(uuid_bytes(u128::MAX), vec![255; 16]);
}

#[test]
fn mentions_are_resolved_from_left_to_right() {
    let ranges = vec![
        mention(Some(9), RangeValue::MentionAciBinary(uuid_bytes(2))),
        mention(Some(0), RangeValue::MentionAci("00112233445566778899aabbccddeeff".to_string())),
        mention(None, RangeValue::MentionAciBinary(uuid_bytes(3))),
        mention(Some(1), RangeValue::Style),
        BodyRange { start: Some(2), associated_value: None },
    ];
    let body = "\u{fffc} and \u{fffc} and \u{fffc}";
    assert_eq!(mention_accounts(body, &ranges), vec![BOB, 2]);
    assert_eq!(mention_accounts("nobody", &ranges), Vec::<u128>::new());
    assert_eq!(
        resolve_mentions(body, &vec!["Bob".to_string(), "Al".to_string()]),
        "@[Bob] and @[Al] and \u{fffc}"
    );
    assert_eq!(resolve_mentions("plain", &vec!["Bob".to_string()]), "plain");
    assert_eq!(mention_aci(&ranges[0]), Some(2));
    assert_eq!(mention_aci(&ranges[3]), None);
}

#[test]
fn an_author_is_looked_for_in_turn() {
    assert!(author_source(true, Some(5), Some(9)) == AuthorSource::Account(5));
    assert!(author_source(true, None, Some(9)) == AuthorSource::StoredAt(9));
    assert!(author_source(false, None, Some(9)) == AuthorSource::Someone);
    assert!(author_source(true, None, None) == AuthorSource::Someone);
    assert_eq!(resolve_author(None), "someone");
    assert_eq!(resolve_author(Some("Bob".to_string())), "Bob");
}

#[test]
fn a_message_is_taken_apart() {
    let mut m = dm("@ai hi");
    m.attachments.push(pointer("audio/aac"));
    m.attachments.push(pointer("image/png"));
    m.sticker = Some(pointer("image/webp"));
    let mut q = quote();
    q.id = Some(5);
    q.text = Some(String::new());
    q.thumbnails = vec![None, Some(pointer("image/jpeg"))];
    m.quote = Some(q);
    let c = content(BOB, 10, ContentBody::DataMessage(m));
    let t = extract(&c).expect("a trigger");
    assert_eq!(t.body, "@ai hi");
    assert_eq!(t.quoted_text, None);
    assert_eq!(t.quoted_ts, Some(5));
    assert_eq!(t.quoted_thumbnails.len(), 1);
    assert_eq!(t.own_atts.len(), 3);
    assert!(t.is_reply());
    assert_eq!(content_attachments(&c).len(), 3);
    assert_eq!(content_images(&c).len(), 2);
}

#[test]
fn what_has_no_body_or_chat_is_no_trigger() {
    let mut c = content(BOB, 10, ContentBody::DataMessage(dm("x")));
    assert!(!extract(&c).unwrap().is_reply());
    c.thread = None;
    assert!(extract(&c).is_none());
    let mut m = dm("x");
    m.body = None;
    assert!(extract(&content(BOB, 1, ContentBody::DataMessage(m))).is_none());
    assert!(extract(&content(BOB, 1, ContentBody::Other)).is_none());
    let synced = ContentBody::SynchronizeMessage(Some(Sent {
        message: Some(dm("y")),
        edit_message: None,
    }));
    assert_eq!(extract(&content(ME, 1, synced)).unwrap().body, "y");
    let edit = ContentBody::EditMessage(EditMessage {
        target_sent_timestamp: Some(1),
        data_message: Some(dm("z")),
    });
    let c = content(ME, 1, edit);
    assert!(extract(&c).is_none());
    assert!(content_attachments(&c).is_empty());
}

#[test]
fn revisions_are_told_from_originals() {
    let plain = content(BOB, 1, ContentBody::DataMessage(dm("a")));
    assert_eq!(data_message(&plain).unwrap().0, None);
    let synced_edit = ContentBody::SynchronizeMessage(Some(Sent {
        message: None,
        edit_message: Some(EditMessage {
            target_sent_timestamp: Some(3),
            data_message: Some(dm("b")),
        }),
    }));
    let c = content(BOB, 9, synced_edit);
    let (target, m) = data_message(&c).unwrap();
    assert_eq!(target, Some(3));
    assert_eq!(m.body.as_deref(), Some("b"));
    let broken = ContentBody::EditMessage(EditMessage {
        target_sent_timestamp: None,
        data_message: Some(dm("b")),
    });
    assert!(data_message(&content(BOB, 9, broken)).is_none());
    assert!(data_message(&content(BOB, 9, ContentBody::SynchronizeMessage(None))).is_none());
    assert!(from_me(&content(BOB, 9, ContentBody::SynchronizeMessage(None)), ME));
    assert!(from_me(&content(ME, 9, ContentBody::Other), ME));
    assert!(!from_me(&plain, ME));
}

fn edit(target: u64, text: &str) -> ContentBody {
    ContentBody::EditMessage(EditMessage {
        target_sent_timestamp: Some(target),
        data_message: Some(dm(text)),
    })
}

fn walk(store: &[(u64, Content)], ts: u64) -> Option<u64> {
    let mut w = RootWalk::new(ts);
    loop {
        let found = store.iter().find(|(t, _)| *t == w.ts).map(|(_, c)| c);
        match w.step(found, ME, "thinking") {
            WalkStep::Next(next) => w = next,
            WalkStep::Done(root) => return root,
        }
    }
}

#[test]
fn an_answer_is_recognised_by_its_placeholder() {
    let store = vec![
        (1, content(ME, 1, ContentBody::DataMessage(dm("thinking")))),
        (2, content(ME, 2, edit(1, "writing"))),
        (3, content(ME, 3, edit(2, "the answer"))),
        (4, content(BOB, 4, ContentBody::DataMessage(dm("thinking")))),
        (5, content(ME, 5, ContentBody::DataMessage(dm("my own words")))),
        (6, content(ME, 6, edit(99, "lost"))),
        (7, content(ME, 7, edit(7, "itself"))),
    ];
    assert_eq!(walk(&store, 3), Some(1));
    assert_eq!(walk(&store, 1), Some(1));
    assert_eq!(walk(&store, 4), None);
    assert_eq!(walk(&store, 5), None);
    assert_eq!(walk(&store, 6), None);
    assert_eq!(walk(&store, 7), None);
    assert_eq!(walk(&store, 8), None);
}

#[test]
fn a_version_is_known_by_its_own_time() {
    let mut c = content(ME, 9, edit(3, "new text"));
    c.timestamp = 3;
    let v = message_version(&c, ME, "thinking").unwrap();
    assert_eq!((v.own_ts, v.target, v.is_ai), (9, Some(3), false));
    let c = content(ME, 3, ContentBody::DataMessage(dm("thinking")));
    let v = message_version(&c, ME, "thinking").unwrap();
    assert_eq!((v.own_ts, v.target, v.is_ai), (3, None, true));
    let v = v.named("b".to_string(), "Bob".to_string(), None);
    assert_eq!((v.body.as_str(), v.speaker.as_str(), v.own_ts), ("b", "Bob", 3));
    assert!(message_version(&content(ME, 3, ContentBody::DataMessage(dm(""))), ME, "x").is_none());
    assert!(message_version(&content(ME, 3, ContentBody::Other), ME, "x").is_none());
    let mut q = quote();
    assert_eq!(quote_text(&q), "");
    q.text = Some("t".to_string());
    assert_eq!(quote_text(&q), "t");
    q.id = Some(4);
    let r = reply_ref(&q, "Bob".to_string(), "t".to_string(), Some(1));
    assert_eq!((r.author.as_str(), r.text.as_str(), r.ts, r.is_ai), ("Bob", "t", Some(4), true));
    assert!(!reply_ref(&q, String::new(), String::new(), None).is_ai);
}

#[test]
fn digits_behind_the_trigger_ask_for_context() {
    assert_eq!(requested_context("@ai2 hello", "@ai"), Some(2));
    assert_eq!(requested_context("hello @ai12", "@ai"), Some(12));
    assert_eq!(requested_context("@ai hello", "@ai"), None);
    assert_eq!(requested_context("hello", "@ai"), None);
    assert_eq!(requested_context("@ai99999999999999999999999", "@ai"), None);
    assert_eq!(requested_context("@ai0", "@ai"), Some(0));
    assert_eq!(requested_context("@ai+3", "@ai"), None);
}

fn config() -> Config {
    Config {
        trigger: "@ai".to_string(),
        processing_msg: "thinking".to_string(),
        reasoning_msg: "reasoning".to_string(),
        generating_msg: "writing".to_string(),
        tool_msg: "looking".to_string(),
        context_messages: 5,
        vision: false,
        audio: false,
        documents: false,
        memory: false,
        retention: None,
        ai: AiClient::new(String::new(), String::new(), String::new(), None, 0, Vec::new()),
    }
}

fn version(own_ts: u64, target: Option<u64>, is_ai: bool, speaker: &str, body: &str) -> Version {
    Version {
        own_ts,
        target,
        is_ai,
        speaker: speaker.to_string(),
        reply_to: None,
        body: body.to_string(),
        atts: Vec::new(),
    }
}

fn texts(h: &[HistMsg]) -> Vec<(u64, String)> {
    h.iter().map(|m| (m.ts, m.text.clone())).collect()
}

#[test]
fn edits_collapse_into_one_message() {
    let h = thread_history(
        vec![
            version(30, Some(20), false, "x", "third"),
            version(10, None, false, "alice", "first"),
            version(20, Some(10), false, "y", "second"),
            version(15, None, false, "bob", "other"),
        ],
        0,
        100,
        None,
        &config(),
    );
    assert_eq!(texts(&h), vec![(10, "third".to_string()), (15, "other".to_string())]);
    assert_eq!(h[0].speaker, "alice");
}

#[test]
fn the_window_leaves_out_its_ends() {
    let all = || {
        vec![
            version(10, None, false, "a", "x"),
            version(20, None, false, "a", "y"),
            version(30, None, false, "a", "z"),
        ]
    };
    let h = thread_history(all(), 10, 30, None, &config());
    assert_eq!(texts(&h), vec![(20, "y".to_string())]);
    let h = thread_history(all(), 0, 100, Some(2), &config());
    assert_eq!(texts(&h), vec![(20, "y".to_string()), (30, "z".to_string())]);
    assert!(thread_history(all(), 0, 100, Some(0), &config()).is_empty());
}

#[test]
fn status_lines_do_not_surface() {
    for line in ["thinking", "reasoning", "writing", "looking"] {
        let h = thread_history(
            vec![
                version(10, None, true, "me", "thinking"),
                version(11, Some(10), false, "me", line),
                version(12, None, false, "bob", line),
            ],
            0,
            100,
            None,
            &config(),
        );
        assert_eq!(texts(&h), vec![(12, line.to_string())]);
    }
    let h = thread_history(
        vec![
            version(10, None, true, "me", "thinking"),
            version(11, Some(10), false, "me", "the answer"),
        ],
        0,
        100,
        None,
        &config(),
    );
    assert_eq!(texts(&h), vec![(10, "the answer".to_string())]);
    assert!(h[0].is_ai);
}

#[test]
fn the_same_answer_is_folded() {
    let h = thread_history(
        vec![
            version(10, None, true, "me", "same"),
            version(11, None, true, "me", "same"),
            version(12, None, false, "bob", "same"),
            version(13, None, true, "me", "same"),
        ],
        0,
        100,
        None,
        &config(),
    );
    assert_eq!(h.iter().map(|m| m.ts).collect::<Vec<_>>(), vec![10, 12, 13]);
}

#[test]
fn names_fall_back_to_the_uuid() {
    assert_eq!(fallback_name(BOB), "User eeff");
    let names = Names::resolve(ME, Some("  Ann \n".to_string()));
    assert_eq!(names.my_aci(), ME);
    assert_eq!(names.of(&ServiceId::Aci(ME), Some("other".to_string())), "Ann");
    assert_eq!(names.of(&ServiceId::Pni(BOB), Some(" Bob ".to_string())), "Bob");
    assert_eq!(names.of_uuid(BOB, Some("  ".to_string())), "User eeff");
    assert_eq!(names.of_uuid(BOB, None), "User eeff");
    let nameless = Names::resolve(BOB, None);
    assert_eq!(nameless.of_uuid(BOB, None), "User eeff");
}

#[test]
fn the_chat_is_described() {
    let names = Names::resolve(ME, Some("Ann".to_string()));
    assert_eq!(
        names.chat_context(ChatInfo::Direct("Bob".to_string())),
        "---\nChat context:\n- Type: direct message\n- Between: \"Ann\" and \"Bob\""
    );
    let members = vec!["Ann".to_string(), "Bob".to_string(), "Ann".to_string()];
    assert_eq!(
        names.chat_context(ChatInfo::Group("Climbers".to_string(), members)),
        "---\nChat context:\n- Type: group\n- Group name: \"Climbers\"\n- Members: \"Ann\", \"Bob\""
    );
    assert_eq!(names.chat_context(ChatInfo::UnknownGroup), "---\nChat context:\n- Type: group");
}

#[test]
fn messages_are_addressed() {
    let direct = Recipient::from_thread(&Thread::Contact(ServiceId::Aci(BOB)));
    assert!(direct.group_context().is_none());
    let group = Recipient::from_thread(&Thread::Group([9; 32]));
    let g = group.group_context().unwrap();
    assert_eq!((g.master_key, g.revision), (vec![9; 32], 0));

    let trigger = TriggerRef { ts: 5, sender: BOB, body: "hi".to_string() };
    let q = trigger_quote(&trigger);
    assert_eq!(quote_author_uuid(&q), Some(BOB));
    assert_eq!(q.author_aci_binary, Some(uuid_bytes(BOB)));
    let m = text_message(&group, "thinking".to_string(), 6, Some(q));
    assert_eq!((m.body.as_deref(), m.timestamp), (Some("thinking"), Some(6)));
    assert!(m.group_v2.is_some());
    assert_eq!(m.quote.unwrap().id, Some(5));

    let e = edit_of(&direct, 6, "done".to_string(), 8, None);
    assert_eq!(e.target_sent_timestamp, Some(6));
    let m = e.data_message.unwrap();
    assert_eq!((m.body.as_deref(), m.timestamp), (Some("done"), Some(8)));
    assert!(m.group_v2.is_none());

    let mut x = Exchange::new(4, 5, Vec::new());
    let m = placeholder_message(&config(), &x, &group, &trigger);
    assert_eq!((m.body.as_deref(), m.timestamp), (Some("thinking"), Some(6)));
    assert_eq!(m.quote.unwrap().text.as_deref(), Some("hi"));
    let edit = x.on_phase(&config(), Phase::Reasoning, 4).unwrap();
    let e = edit_message(edit, &group, &trigger);
    assert_eq!(e.target_sent_timestamp, Some(6));
    let m = e.data_message.unwrap();
    assert_eq!((m.body.as_deref(), m.timestamp), (Some("reasoning"), Some(7)));
    let q = m.quote.unwrap();
    assert_eq!((q.id, quote_author_uuid(&q)), (Some(5), Some(BOB)));
    assert!(m.group_v2.is_some());

    let m = attachments_message(&direct, vec![pointer("image/png")], 9);
    assert_eq!((m.attachments.len(), m.timestamp, m.body), (1, Some(9), None));
    let u = upload_spec("image/png".to_string(), &[1, 2, 3]);
    assert_eq!((u.content_type.as_str(), u.length), ("image/png", 3));
    assert_eq!(u.file_name, BOT_FILE_NAME);
}
