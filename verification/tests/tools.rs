use signal_ai_bot::ai::{AiClient, ToolCall};
use signal_ai_bot::attachment::Attachment;
use signal_ai_bot::config::Config;
use signal_ai_bot::ids::{ServiceId, Thread};
use signal_ai_bot::media::Media;
use signal_ai_bot::tools::{
    avatar_loaded, avatar_people, avatar_places, definitions, human_size, kind_of, media_loaded,
    of_kind, same_file, text_loaded, truncated_text, try_dispatch, Action, AvatarPlace, Catalog,
    Inline, Kind, MAX_TEXT_BYTES,
};

fn config(vision: bool, audio: bool, documents: bool) -> Config {
    Config {
        trigger: "@ai".to_string(),
        processing_msg: String::new(),
        reasoning_msg: String::new(),
        generating_msg: String::new(),
        tool_msg: String::new(),
        context_messages: 5,
        vision,
        audio,
        documents,
        memory: false,
        retention: None,
        ai: AiClient::new(
            String::new(),
            String::new(),
            String::new(),
            None,
            0,
            Vec::new(),
        ),
    }
}

fn pointer(mime: &str, name: &str, size: u32) -> Attachment {
    Attachment {
        handle: 0,
        content_type: Some(mime.to_string()),
        file_name: Some(name.to_string()),
        size: Some(size),
        digest: None,
    }
}

#[test]
fn numbers_every_attachment_and_marks_the_unreadable() {
    let cfg = config(true, false, false);
    let mut catalog = Catalog::default();
    let note = catalog.announce(
        &cfg,
        &[
            pointer("image/jpeg", "photo.jpg", 2 * 1024 * 1024),
            pointer("application/pdf", "report.pdf", 56 * 1024),
            pointer("audio/aac", "note.aac", 1024),
        ],
        Inline::Listed,
    );
    assert_eq!(
        note,
        "[attachments: #1 image/jpeg photo.jpg 2.0MB, \
         #2 application/pdf report.pdf 56KB (unreadable), \
         #3 audio/aac note.aac 1KB (unreadable)]"
    );
}

#[test]
fn marks_what_the_turn_already_carries() {
    let cfg = config(true, false, false);
    let mut catalog = Catalog::default();
    let note = catalog.announce(
        &cfg,
        &[
            pointer("image/jpeg", "photo.jpg", 1),
            pointer("text/plain", "notes.txt", 1),
        ],
        Inline::Shown,
    );
    assert_eq!(
        note,
        "[attachments: #1 image/jpeg photo.jpg 1B (shown above), #2 text/plain notes.txt 1B]"
    );
}

#[test]
fn documents_are_readable_only_behind_the_flag() {
    let pdf = [pointer("application/pdf", "report.pdf", 1)];
    let note = Catalog::default().announce(&config(true, false, false), &pdf, Inline::Listed);
    assert!(note.ends_with("(unreadable)]"));
    let note = Catalog::default().announce(&config(true, false, true), &pdf, Inline::Listed);
    assert!(!note.contains("unreadable"));
}

#[test]
fn reads_structured_text_formats() {
    for mime in [
        "text/plain; charset=utf-8",
        "text/x-signal-plain",
        "application/json",
        "application/x-yaml",
        "application/ld+json",
    ] {
        assert!(
            matches!(kind_of(mime), Some(Kind::Text)),
            "{mime} should be text"
        );
    }
    assert!(kind_of("application/zip").is_none());
}

#[test]
fn gives_the_same_file_one_id() {
    let cfg = config(true, false, false);
    let mut catalog = Catalog::default();
    let mut photo = pointer("image/jpeg", "photo.jpg", 1);
    photo.digest = Some(vec![1, 2, 3]);

    catalog.announce(&cfg, std::slice::from_ref(&photo), Inline::Listed);
    let again = catalog.announce(&cfg, &[photo], Inline::Shown);
    assert!(again.starts_with("[attachments: #1 "));
    assert!(catalog.get(2).is_none());
}

#[test]
fn tools_keeps_numbering_across_calls() {
    let cfg = config(true, false, false);
    let mut catalog = Catalog::default();
    catalog.announce(&cfg, &[pointer("image/jpeg", "a.jpg", 1)], Inline::Listed);
    let note = catalog.announce(&cfg, &[pointer("image/jpeg", "b.jpg", 1)], Inline::Listed);
    assert!(note.starts_with("[attachments: #2 "));
}

#[test]
fn announces_nothing_without_attachments() {
    let cfg = config(false, false, false);
    let mut catalog = Catalog::default();
    assert!(catalog.announce(&cfg, &[], Inline::Listed).is_empty());
}

#[test]
fn resolves_ids_within_the_catalog_only() {
    let cfg = config(true, false, false);
    let mut catalog = Catalog::default();
    catalog.announce(&cfg, &[pointer("image/jpeg", "a.jpg", 1)], Inline::Listed);
    assert!(catalog.get(1).is_some());
    assert!(catalog.get(0).is_none());
    assert!(catalog.get(2).is_none());
}

#[test]
fn truncates_text_on_a_char_boundary() {
    let long = "ä".repeat(MAX_TEXT_BYTES);
    let out = truncated_text(long.as_bytes());
    assert!(out.ends_with("\n[truncated]"));
    assert!(out.len() < long.len());
}

#[test]
fn text_is_cut_at_the_last_whole_character() {
    let exact = "x".repeat(MAX_TEXT_BYTES);
    assert_eq!(truncated_text(exact.as_bytes()), exact);
    let over = format!("{}ä", "x".repeat(MAX_TEXT_BYTES - 1));
    assert_eq!(
        truncated_text(over.as_bytes()),
        format!("{}\n[truncated]", "x".repeat(MAX_TEXT_BYTES - 1))
    );
    assert_eq!(truncated_text(b"a\xffb"), "a\u{fffd}b");
}

#[test]
fn every_kind_has_its_types() {
    assert!(matches!(kind_of("image/webp"), Some(Kind::Image)));
    assert!(matches!(kind_of(" audio/ogg ;codecs=opus"), Some(Kind::Audio)));
    assert!(matches!(kind_of("image/svg+xml"), Some(Kind::Image)));
    assert!(matches!(kind_of("application/pdf"), Some(Kind::Document)));
    for mime in [
        "application/xml",
        "application/yaml",
        "application/toml",
        "application/x-ndjson",
        "application/javascript",
        "application/sql",
        "application/x-sh",
        "application/atom+xml",
    ] {
        assert!(matches!(kind_of(mime), Some(Kind::Text)));
    }
    assert!(kind_of("").is_none());
    assert!(kind_of("video/mp4").is_none());
}

#[test]
fn attachments_are_picked_by_kind() {
    let atts = [
        pointer("image/png", "a", 1),
        pointer("audio/aac", "b", 1),
        pointer("image/gif", "c", 1),
    ];
    let images = of_kind(&atts, Kind::Image);
    assert_eq!(images.len(), 2);
    assert_eq!(images[1].file_name.as_deref(), Some("c"));
    assert!(of_kind(&atts, Kind::Document).is_empty());
}

#[test]
fn files_without_a_digest_are_never_the_same() {
    let a = pointer("image/png", "a", 1);
    let mut b = pointer("image/png", "a", 1);
    assert!(!same_file(&a, &b));
    b.digest = Some(vec![1]);
    assert!(!same_file(&a, &b));
    let c = Attachment { digest: Some(vec![1]), ..pointer("x/y", "z", 2) };
    assert!(same_file(&b, &c));
    let d = Attachment { digest: Some(vec![2]), ..pointer("x/y", "z", 2) };
    assert!(!same_file(&b, &d));
}

#[test]
fn sizes_are_rounded_as_floats_are() {
    for b in [
        1u32 << 20,
        1_101_005,
        1_101_004,
        1_153_434,
        5_505_024,
        2_202_009,
        2_202_010,
        7_864_320,
        104_857_600,
        u32::MAX,
        3_407_872,
        1_310_720,
        1_835_008,
    ] {
        assert_eq!(human_size(b), format!("{:.1}MB", b as f64 / (1024.0 * 1024.0)));
    }
    let mut n: u32 = 1 << 20;
    while n < 40_000_000 {
        assert_eq!(human_size(n), format!("{:.1}MB", n as f64 / (1024.0 * 1024.0)));
        n += 13_107;
    }
    assert_eq!(human_size(1023), "1023B");
    assert_eq!(human_size(1024), "1KB");
    assert_eq!(human_size(1024 * 1024 - 1), "1023KB");
    assert_eq!(human_size(0), "0B");
}

#[test]
fn two_tools_are_always_on_offer() {
    let defs = definitions();
    assert_eq!(defs.len(), 2);
    let name = |i: usize| {
        defs[i]
            .get("function")
            .and_then(|f| f.get("name"))
            .and_then(|n| n.as_str())
            .cloned()
    };
    assert_eq!(name(0).as_deref(), Some("load_avatar"));
    assert_eq!(name(1).as_deref(), Some("load_attachment"));
}

fn call(name: &str, arguments: &str) -> ToolCall {
    ToolCall {
        id: "c".to_string(),
        name: name.to_string(),
        arguments: arguments.to_string(),
    }
}

fn answer(cfg: &Config, catalog: &Catalog, name: &str, arguments: &str) -> String {
    match try_dispatch(cfg, catalog, &call(name, arguments)) {
        Ok(Action::Answer(s)) => s,
        _ => panic!("not answered at once"),
    }
}

#[test]
fn calls_that_cannot_be_done_are_answered_at_once() {
    let cfg = config(false, false, false);
    let mut catalog = Catalog::default();
    assert_eq!(
        answer(&cfg, &catalog, "load_attachment", "{\"id\":3}"),
        "error: no attachment #3 — there are no attachments in this conversation. Don't retry with a guess."
    );
    catalog.announce(&cfg, &[pointer("image/png", "a", 1)], Inline::Listed);
    assert_eq!(
        answer(&cfg, &catalog, "load_attachment", "{\"id\":0}"),
        "error: no attachment #0 — the only id is 1. Don't retry with a guess."
    );
    assert_eq!(
        answer(&cfg, &catalog, "load_attachment", "{\"id\":1}"),
        "error: attachment #1 is image/png and cannot be read"
    );
    catalog.announce(&cfg, &[pointer("text/plain", "b", 1)], Inline::Listed);
    assert_eq!(
        answer(&cfg, &catalog, "load_attachment", "{\"id\":9}"),
        "error: no attachment #9 — valid ids are 1 to 2. Don't retry with a guess."
    );
    assert_eq!(
        answer(&cfg, &catalog, "load_attachment", "{\"id\":\"1\"}"),
        "error: expected an integer `id` argument"
    );
    assert_eq!(
        answer(&cfg, &catalog, "load_attachment", "nonsense"),
        "error: expected an integer `id` argument"
    );
    assert_eq!(answer(&cfg, &catalog, "dance", "[]"), "error: no tool named dance");
    assert_eq!(answer(&cfg, &catalog, "load_avatar", "[]"), "error: I can't see images");
    assert_eq!(
        answer(&config(true, false, false), &catalog, "load_avatar", "{}"),
        "error: expected a `name` argument"
    );
    assert!(try_dispatch(&cfg, &catalog, &call("load_attachment", "[1]")).is_err());
    assert!(
        try_dispatch(&config(true, false, false), &catalog, &call("load_avatar", "1")).is_err()
    );
}

#[test]
fn calls_load_what_they_name() {
    let cfg = config(true, false, false);
    let mut catalog = Catalog::default();
    catalog.announce(
        &cfg,
        &[pointer("text/plain", "a", 1), pointer("image/png", "b", 1)],
        Inline::Listed,
    );
    match try_dispatch(&cfg, &catalog, &call("load_attachment", "{\"id\":1}")) {
        Ok(Action::LoadText(1, a)) => assert_eq!(a.file_name.as_deref(), Some("a")),
        _ => panic!("text expected"),
    }
    match try_dispatch(&cfg, &catalog, &call("load_attachment", "{\"id\":2}")) {
        Ok(Action::LoadMedia(2, a)) => assert_eq!(a.file_name.as_deref(), Some("b")),
        _ => panic!("media expected"),
    }
    match try_dispatch(&cfg, &catalog, &call("load_avatar", "{\"name\":\"Bob\"}")) {
        Ok(Action::LoadAvatar(n)) => assert_eq!(n, "Bob"),
        _ => panic!("avatar expected"),
    }
}

#[test]
fn what_was_loaded_is_handed_back() {
    assert_eq!(text_loaded(4, Some(b"hi".to_vec())).content, "hi");
    assert_eq!(
        text_loaded(4, Some(Vec::new())).content,
        "error: attachment #4 could not be loaded"
    );
    assert_eq!(text_loaded(4, None).content, "error: attachment #4 could not be loaded");
    let r = media_loaded(2, Media::default());
    assert_eq!(r.content, "error: attachment #2 could not be loaded");
    assert!(r.media.is_none());
    let mut m = Media::default();
    m.audio.push("AAAA".to_string());
    let r = media_loaded(2, m);
    assert_eq!(r.content, "attachment #2 follows");
    assert_eq!(r.media.unwrap().audio.len(), 1);
}

#[test]
fn a_picture_follows_or_is_missing() {
    let r = avatar_loaded("Bob", None);
    assert_eq!(r.content, "error: no picture for \"Bob\" in this chat");
    let r = avatar_loaded("Bob", Some((String::new(), b"no image".to_vec())));
    assert_eq!(r.content, "error: the picture for \"Bob\" is unreadable");
    let r = avatar_loaded("Bob", Some(("image/png".to_string(), vec![0, 0, 0])));
    assert_eq!(r.content, "Bob's picture follows");
    let media = r.media.unwrap();
    assert_eq!(media.images, vec![("image/png".to_string(), "AAAA".to_string())]);
}

#[test]
fn only_participants_are_looked_for() {
    let me = 1u128;
    let direct = Thread::Contact(ServiceId::Pni(7));
    let people = avatar_people(&direct, me, &Vec::new());
    assert!(people == vec![ServiceId::Pni(7), ServiceId::Aci(1)]);
    let group = avatar_people(&Thread::Group([0; 32]), me, &vec![1, 2, 3]);
    assert!(group == vec![ServiceId::Aci(1), ServiceId::Aci(2), ServiceId::Aci(3)]);

    let named: Vec<(ServiceId, String)> = vec![
        (ServiceId::Aci(1), "Me".to_string()),
        (ServiceId::Aci(2), "Bob".to_string()),
        (ServiceId::Aci(3), "bob".to_string()),
    ];
    let title = Some("Climbers".to_string());
    assert!(avatar_places(&title, me, &named, " climbers ") == vec![AvatarPlace::Group]);
    assert!(
        avatar_places(&title, me, &named, "BOB")
            == vec![
                AvatarPlace::Profile(ServiceId::Aci(2), false),
                AvatarPlace::Contact(ServiceId::Aci(2)),
                AvatarPlace::Profile(ServiceId::Aci(3), false),
                AvatarPlace::Contact(ServiceId::Aci(3)),
            ]
    );
    assert!(
        avatar_places(&None, me, &named, "me")
            == vec![
                AvatarPlace::Profile(ServiceId::Aci(1), true),
                AvatarPlace::Contact(ServiceId::Aci(1)),
            ]
    );
    assert!(avatar_places(&title, me, &named, "Carol").is_empty());
}
