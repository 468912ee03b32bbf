use signal_ai_bot::ai::ToolCall;
use signal_ai_bot::memory::{
    answers, definitions, delete_answer, dir_of, handles, is_valid, list_answer, missing, names, path_of,
    prompt_section, read_answer, save_answer, try_dispatch, with_memories, Chat, FileOutcome,
    MemoryAction, MAX_MEMORY_BYTES,
};
use signal_ai_bot::ai::AiClient;
use signal_ai_bot::config::Config;
use std::path::Path;

fn call(name: &str, arguments: serde_json::Value) -> ToolCall {
    ToolCall {
        id: String::new(),
        name: name.to_string(),
        arguments: arguments.to_string(),
    }
}

fn args(fields: &[(&str, &str)]) -> serde_json::Value {
    let mut m = serde_json::Map::new();
    for (k, v) in fields {
        m.insert(k.to_string(), serde_json::Value::from(*v));
    }
    serde_json::Value::Object(m)
}

#[test]
fn rejects_names_that_leave_the_folder() {
    let dir = "/memories";
    assert_eq!(
        path_of(dir, "alice-birthday"),
        Some(
            Path::new(dir)
                .join("alice-birthday.md")
                .to_str()
                .unwrap()
                .to_string()
        )
    );
    for bad in ["", "../secret", "a/b", "Alice", "a.b", &"a".repeat(65)] {
        assert!(path_of(dir, bad).is_none(), "{bad} should be rejected");
    }
}

#[test]
fn gives_each_chat_its_own_folder_without_exposing_the_group_key() {
    let group = dir_of(&Chat::Group(vec![9u8; 32]));
    let folder = Path::new(&group).file_name().unwrap().to_str().unwrap();
    assert_eq!(folder.len(), 64);
    assert_eq!(folder, "09".repeat(32));
    assert_ne!(group, dir_of(&Chat::Group(vec![10u8; 32])));

    let uuid = uuid::Uuid::from_bytes([1; 16]);
    let contact = Chat::Contact(uuid.as_u128());
    assert_eq!(
        dir_of(&contact),
        Path::new("/data/memories")
            .join(uuid.to_string())
            .to_str()
            .unwrap()
    );
}

#[test]
fn a_folder_is_named_in_lower_case_hex() {
    assert_eq!(dir_of(&Chat::Group(vec![0xab, 0x01])), "/data/memories/ab01");
    assert_eq!(
        dir_of(&Chat::Contact(0x00112233_4455_6677_8899_aabbccddeeff)),
        "/data/memories/00112233-4455-6677-8899-aabbccddeeff"
    );
}

#[test]
fn names_are_lowercase_letters_digits_and_dashes() {
    assert!(is_valid("a"));
    assert!(is_valid("bob-2"));
    assert!(is_valid(&"a".repeat(64)));
    assert!(!is_valid(&"a".repeat(65)));
    assert!(!is_valid("ä"));
    assert!(!is_valid("a b"));
    assert!(!is_valid("A"));
}

#[test]
fn only_its_own_tools_are_handled() {
    for t in ["list_memories", "read_memory", "save_memory", "delete_memory"] {
        assert!(handles(t));
    }
    assert!(!handles("load_avatar"));
    assert_eq!(definitions().len(), 4);
}

#[test]
fn calls_become_file_accesses() {
    let dir = "/m";
    assert!(matches!(
        try_dispatch(dir, &call("list_memories", serde_json::Value::from(3))),
        Ok(MemoryAction::List)
    ));
    match try_dispatch(dir, &call("read_memory", args(&[("name", "bob")]))) {
        Ok(MemoryAction::Read { name, path }) => {
            assert_eq!((name.as_str(), path.as_str()), ("bob", "/m/bob.md"))
        }
        _ => panic!("read expected"),
    }
    match try_dispatch(
        dir,
        &call("save_memory", args(&[("name", "bob"), ("content", "a cat")])),
    ) {
        Ok(MemoryAction::Save { name, path, staged, content }) => {
            assert_eq!((name.as_str(), path.as_str()), ("bob", "/m/bob.md"));
            assert_eq!((staged.as_str(), content.as_str()), ("/m/.bob.md.tmp", "a cat"));
        }
        _ => panic!("save expected"),
    }
    match try_dispatch(dir, &call("delete_memory", args(&[("name", "bob")]))) {
        Ok(MemoryAction::Delete { name, path }) => {
            assert_eq!((name.as_str(), path.as_str()), ("bob", "/m/bob.md"))
        }
        _ => panic!("delete expected"),
    }
}

fn said(name: &str, arguments: serde_json::Value) -> String {
    match try_dispatch("/m", &call(name, arguments)) {
        Ok(MemoryAction::Answer(s)) => s,
        _ => panic!("answer expected"),
    }
}

#[test]
fn calls_that_cannot_be_done_say_why() {
    assert_eq!(said("read_memory", args(&[])), "error: expected a `name` argument");
    assert_eq!(
        said("read_memory", args(&[("name", "../x")])),
        "error: \"../x\" is not a valid name; use up to 64 lowercase letters, digits and dashes"
    );
    assert_eq!(
        said("save_memory", args(&[("name", "bob")])),
        "error: expected a `content` argument"
    );
    let huge = "x".repeat(MAX_MEMORY_BYTES + 1);
    assert_eq!(
        said("save_memory", args(&[("name", "big"), ("content", &huge)])),
        "error: the memory is 8193 bytes, the limit is 8192"
    );
    let wide = "ä".repeat(4097);
    assert_eq!(
        said("save_memory", args(&[("name", "big"), ("content", &wide)])),
        "error: the memory is 8194 bytes, the limit is 8192"
    );
    assert_eq!(said("dance", args(&[("name", "bob")])), "error: no tool named dance");
    assert!(try_dispatch("/m", &call("read_memory", serde_json::Value::from(3))).is_err());
}

#[test]
fn memories_are_only_used_where_they_are_kept() {
    let mut cfg = Config {
        trigger: String::new(),
        processing_msg: String::new(),
        reasoning_msg: String::new(),
        generating_msg: String::new(),
        tool_msg: String::new(),
        context_messages: 0,
        vision: false,
        audio: false,
        documents: false,
        memory: false,
        retention: None,
        ai: AiClient::new(String::new(), String::new(), String::new(), None, 0, Vec::new()),
    };
    assert!(!answers(&cfg, "read_memory"));
    cfg.memory = true;
    assert!(answers(&cfg, "read_memory"));
    assert!(!answers(&cfg, "load_avatar"));
    assert_eq!(with_memories("ctx".to_string(), "mem"), "ctx\n\nmem");
}

fn files(v: &[&str]) -> Vec<String> {
    v.iter().map(|s| s.to_string()).collect()
}

#[test]
fn only_memories_are_listed_and_in_order() {
    let found = files(&["bob-pets.md", "Not-Valid.md", "alice-diet.md", ".x.md.tmp", "a.txt", ".md", "a.md"]);
    assert_eq!(names(&found), files(&["a", "alice-diet", "bob-pets"]));
    assert_eq!(list_answer(&found), "a\nalice-diet\nbob-pets");
    assert_eq!(list_answer(&Vec::new()), "no memories saved yet");
}

#[test]
fn the_prompt_lists_the_memories() {
    assert_eq!(prompt_section(&Vec::new()), "---\nSaved memories: none yet");
    assert_eq!(
        prompt_section(&files(&["bob-pets.md", "alice-diet.md"])),
        "---\nSaved memories, read one with read_memory when it could matter:\n\
         - alice-diet\n- bob-pets"
    );
}

#[test]
fn accesses_are_answered() {
    assert_eq!(read_answer("b", FileOutcome::Done("a cat".to_string())), "a cat");
    assert_eq!(read_answer("b", FileOutcome::NotFound), missing("b"));
    assert_eq!(
        read_answer("b", FileOutcome::Failed("denied".to_string())),
        "error: could not read b: denied"
    );
    assert_eq!(save_answer("b", None), "saved b");
    assert_eq!(save_answer("b", Some("full".to_string())), "error: could not save b: full");
    assert_eq!(delete_answer("b", FileOutcome::Done(String::new())), "deleted b");
    assert!(delete_answer("b", FileOutcome::NotFound).contains("call list_memories"));
    assert_eq!(
        delete_answer("b", FileOutcome::Failed("denied".to_string())),
        "error: could not delete b: denied"
    );
    assert_eq!(
        missing("b"),
        "error: no memory named b. The memories may have changed since this \
         conversation started; call list_memories for the current list."
    );
}
