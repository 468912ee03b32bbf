use signal_ai_bot::ai::AiClient;
use signal_ai_bot::attachment::Attachment;
use signal_ai_bot::audio::{
    clips, decode_args, decoded, encode_audio, is_truncated, to_wav, CHUNK_BYTES, MAX_CHUNKS,
};
use signal_ai_bot::config::Config;
use signal_ai_bot::images::{encode_image, encode_images, encode_png};
use signal_ai_bot::media::{
    checked_content, decode_data_uri, encode_documents, keep_brought, media_plan, to_data_uri,
    Fetched, Media,
};

fn pointer(mime: &str, name: Option<&str>) -> Attachment {
    Attachment {
        handle: 0,
        content_type: Some(mime.to_string()),
        file_name: name.map(str::to_string),
        size: None,
        digest: None,
    }
}

#[test]
fn data_uris_are_read_back() {
    let uri = to_data_uri("image/png", b"hello");
    assert_eq!(uri, "data:image/png;base64,aGVsbG8=");
    assert_eq!(decode_data_uri(&uri), Some(("image/png".to_string(), b"hello".to_vec())));
    assert_eq!(
        decode_data_uri("data:image/png;charset=x;base64, aGVsbG8= \n"),
        Some(("image/png".to_string(), b"hello".to_vec()))
    );
}

#[test]
fn other_uris_are_not_read() {
    for bad in [
        "http://x",
        "data:image/png;base64",
        "data:;base64,aGVsbG8=",
        "data:image/png;base64,",
        "data:image/png;base64,!!",
        "data:image/png;base64,aGVsbG8",
    ] {
        assert!(decode_data_uri(bad).is_none(), "{bad} should be rejected");
    }
    assert!(checked_content("image/png".to_string(), None).is_none());
    assert!(checked_content(String::new(), Some(vec![1])).is_none());
    assert!(checked_content("a/b".to_string(), Some(Vec::new())).is_none());
    assert!(checked_content("a/b".to_string(), Some(vec![1])).is_some());
}

#[test]
fn media_are_added_kind_by_kind() {
    let mut m = Media::default();
    assert!(m.is_empty());
    m.images.push(("a/b".to_string(), "x".to_string()));
    let mut other = Media::default();
    other.images.push(("c/d".to_string(), "y".to_string()));
    other.files.push(("f".to_string(), "z".to_string()));
    m.extend(other);
    assert!(!m.is_empty());
    assert_eq!(m.images.len(), 2);
    assert_eq!(m.images[1].0, "c/d");
    assert_eq!(m.files.len(), 1);
    assert!(m.audio.is_empty());
}

#[test]
fn failed_and_empty_downloads_are_passed_over() {
    let kept = keep_brought(vec![
        (pointer("a/a", None), Some(vec![1])),
        (pointer("b/b", None), None),
        (pointer("c/c", None), Some(Vec::new())),
        (pointer("d/d", None), Some(vec![2])),
    ]);
    assert_eq!(kept.len(), 2);
    assert_eq!(kept[1].ptr.content_type.as_deref(), Some("d/d"));
    assert_eq!(kept[1].data, vec![2]);
}

#[test]
fn documents_go_by_their_name_or_their_place() {
    let docs = encode_documents(&vec![
        Fetched { ptr: pointer("application/pdf", Some("r.pdf")), data: vec![0, 0, 0] },
        Fetched { ptr: pointer("application/pdf", Some("")), data: vec![0, 0, 0] },
        Fetched { ptr: pointer("application/pdf", None), data: vec![255] },
    ]);
    assert_eq!(docs[0], ("r.pdf".to_string(), "data:application/pdf;base64,AAAA".to_string()));
    assert_eq!(docs[1].0, "document-2.pdf");
    assert_eq!(
        docs[2],
        ("document-3.pdf".to_string(), "data:application/pdf;base64,/w==".to_string())
    );
}

#[test]
fn only_enabled_media_is_fetched() {
    let mut cfg = Config {
        trigger: String::new(),
        processing_msg: String::new(),
        reasoning_msg: String::new(),
        generating_msg: String::new(),
        tool_msg: String::new(),
        context_messages: 0,
        vision: true,
        audio: false,
        documents: true,
        memory: false,
        retention: None,
        ai: AiClient::new(String::new(), String::new(), String::new(), None, 0, Vec::new()),
    };
    let atts = vec![
        pointer("image/png", None),
        pointer("audio/aac", None),
        pointer("application/pdf", None),
        pointer("text/plain", None),
        pointer("video/mp4", None),
    ];
    let plan = media_plan(&cfg, &atts);
    assert_eq!((plan.images.len(), plan.audio.len(), plan.documents.len()), (1, 0, 1));
    cfg.audio = true;
    cfg.vision = false;
    cfg.documents = false;
    let plan = media_plan(&cfg, &atts);
    assert_eq!((plan.images.len(), plan.audio.len(), plan.documents.len()), (0, 1, 0));
}

// a bitmap of one white pixel
fn bitmap() -> Vec<u8> {
    let mut b = b"BM".to_vec();
    b.extend_from_slice(&58u32.to_le_bytes());
    b.extend_from_slice(&0u32.to_le_bytes());
    b.extend_from_slice(&54u32.to_le_bytes());
    b.extend_from_slice(&40u32.to_le_bytes());
    b.extend_from_slice(&1i32.to_le_bytes());
    b.extend_from_slice(&1i32.to_le_bytes());
    b.extend_from_slice(&1u16.to_le_bytes());
    b.extend_from_slice(&24u16.to_le_bytes());
    b.extend_from_slice(&0u32.to_le_bytes());
    b.extend_from_slice(&4u32.to_le_bytes());
    b.extend_from_slice(&[0; 16]);
    b.extend_from_slice(&[255, 255, 255, 0]);
    b
}

#[test]
fn jpeg_and_png_are_handed_on_as_they_are() {
    assert_eq!(
        encode_image("image/jpeg", &[0, 0, 0]),
        Some(("image/jpeg".to_string(), "AAAA".to_string()))
    );
    assert_eq!(
        encode_image("image/png", &[0, 0, 0]),
        Some(("image/png".to_string(), "AAAA".to_string()))
    );
}

#[test]
fn other_images_become_png() {
    let (mime, data) = encode_image("image/bmp", &bitmap()).expect("a readable bitmap");
    assert_eq!(mime, "image/png");
    // the signature of a png in base64
    assert!(data.starts_with("iVBORw0KGgo"));
    assert!(encode_image("image/webp", b"garbage").is_none());
    assert!(encode_png(None).is_none());
    assert_eq!(
        encode_png(Some(vec![0, 0, 0])),
        Some(("image/png".to_string(), "AAAA".to_string()))
    );
}

#[test]
fn unreadable_images_are_skipped() {
    let out = encode_images(&vec![
        Fetched { ptr: pointer("image/webp", None), data: b"garbage".to_vec() },
        Fetched { ptr: pointer("image/png", None), data: vec![0, 0, 0] },
    ]);
    assert_eq!(out, vec![("image/png".to_string(), "AAAA".to_string())]);
}

#[test]
fn a_wav_declares_its_payload() {
    let pcm = vec![7u8; 10];
    let w = to_wav(&pcm);
    assert_eq!(w.len(), 54);
    assert_eq!(&w[0..4], b"RIFF");
    assert_eq!(u32::from_le_bytes(w[4..8].try_into().unwrap()), 46);
    assert_eq!(&w[8..16], b"WAVEfmt ");
    assert_eq!(u32::from_le_bytes(w[16..20].try_into().unwrap()), 16);
    assert_eq!(u16::from_le_bytes(w[20..22].try_into().unwrap()), 1);
    assert_eq!(u16::from_le_bytes(w[22..24].try_into().unwrap()), 1);
    assert_eq!(u32::from_le_bytes(w[24..28].try_into().unwrap()), 16_000);
    assert_eq!(u32::from_le_bytes(w[28..32].try_into().unwrap()), 32_000);
    assert_eq!(u16::from_le_bytes(w[32..34].try_into().unwrap()), 2);
    assert_eq!(u16::from_le_bytes(w[34..36].try_into().unwrap()), 16);
    assert_eq!(&w[36..40], b"data");
    assert_eq!(u32::from_le_bytes(w[40..44].try_into().unwrap()), 10);
    assert_eq!(&w[44..], &pcm[..]);
}

#[test]
fn a_long_recording_becomes_several_clips() {
    // 65 seconds: 30 + 30 + 5
    let pcm = vec![1u8; 65 * 32_000];
    let out = clips(&pcm);
    assert_eq!(out.len(), 3);
    let full = (44 + CHUNK_BYTES + 2) / 3 * 4;
    assert_eq!(out[0].len(), full);
    assert_eq!(out[1].len(), full);
    assert_eq!(out[2].len(), (44 + 5 * 32_000 + 2) / 3 * 4);
    assert!(out[0].starts_with("UklGR"));
    assert!(clips(&[]).is_empty());
    assert_eq!(clips(&vec![0; 9_600_000]).len(), MAX_CHUNKS);
    assert!(is_truncated(9_600_000));
    assert!(!is_truncated(9_599_999));
}

#[test]
fn undecodable_recordings_are_skipped() {
    let out = encode_audio(&vec![None, Some(Vec::new()), Some(vec![1, 2])]);
    assert_eq!(out.len(), 1);
}

#[test]
fn the_decoder_is_told_what_to_do() {
    assert_eq!(
        decode_args("/tmp/x", None),
        vec![
            "-hide_banner", "-loglevel", "error", "-i", "/tmp/x", "-t", "300", "-f", "s16le",
            "-acodec", "pcm_s16le", "-ar", "16000", "-ac", "1", "pipe:1",
        ]
    );
    let args = decode_args("/tmp/x", Some("1.5".to_string()));
    assert_eq!(&args[5..8], &["-filter:a", "atempo=1.5", "-t"]);
}

#[test]
fn only_a_run_without_output_is_an_error() {
    assert_eq!(decoded(false, Vec::new(), b" bad file \n"), Err("ffmpeg: bad file".to_string()));
    assert_eq!(decoded(false, vec![1], b"bad"), Ok(vec![1]));
    assert_eq!(decoded(true, Vec::new(), b""), Ok(Vec::new()));
}
