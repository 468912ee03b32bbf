//! What the bot remembers of a chat: one small file per aspect.
use vstd::prelude::*;

use crate::ai::{arg_in, arg_of, indexable, NotIndexable, ToolCall};
use crate::config::Config;
use crate::ids::{hyphenated, hyphenated_text, law_uuids_are_told_apart, lemma_hex_fixed_len};
use crate::json::{json_opt, json_value, jsons, lemma_field_with, text_in, Json, JsonV};
use crate::text::{
    byte_len, chars_of, copy, decimal, decimal_text, ends, ends_with, hex, hex_digit, hex_text,
    join, joined, law_joined_in_order, same_text, string_between, texts, utf8_len,
};
use crate::tools::{
    law_a_tool_is_offered_in_full, law_parameters_are_described, name_list, one_name, param,
    param_value, params, params_value, tool, tool_value,
};

verus! {

pub const MAX_NAME_LEN: usize = 64;

pub const MAX_MEMORY_BYTES: usize = 8192;

/// The tools that this module answers.
pub open spec fn is_memory_tool(tool: Seq<char>) -> bool {
    ||| tool == "list_memories"@
    ||| tool == "read_memory"@
    ||| tool == "save_memory"@
    ||| tool == "delete_memory"@
}

/// Is this a tool of this module's?
pub fn handles(tool: &str) -> (r: bool)
    ensures
        r == is_memory_tool(tool@),
{
    same_text(tool, "list_memories") || same_text(tool, "read_memory") || same_text(
        tool,
        "save_memory",
    ) || same_text(tool, "delete_memory")
}

/// Is a call of this tool answered here? Only where memories are kept at all.
pub fn answers(cfg: &Config, tool: &str) -> (r: bool)
    ensures
        r == (cfg.memory && is_memory_tool(tool@)),
{
    cfg.memory && handles(tool)
}

/// What the system prompt says of a chat, with what it says of its memories behind it.
pub fn with_memories(chat_context: String, section: &str) -> (r: String)
    ensures
        r@ == chat_context@ + "\n\n"@ + section@,
{
    let mut r = chat_context;
    r.append("\n\n");
    r.append(section);
    r
}

// ---------------------------------------------------------------------------
// where memories are kept

/// What a chat is told apart by on disk. A group goes by its public identifier: the
/// folder name must never reveal its master key, which is its secret.
pub enum Chat {
    Contact(u128),
    Group(Vec<u8>),
}

/// The mathematical model of what a chat is told apart by.
pub enum ChatV {
    Contact(u128),
    Group(Seq<u8>),
}

impl View for Chat {
    type V = ChatV;

    open spec fn view(&self) -> ChatV {
        match self {
            Chat::Contact(u) => ChatV::Contact(*u),
            Chat::Group(id) => ChatV::Group(id@),
        }
    }
}

/// The name of a chat's folder.
pub open spec fn folder(chat: ChatV) -> Seq<char> {
    match chat {
        ChatV::Contact(uuid) => hyphenated(uuid),
        ChatV::Group(id) => hex(id),
    }
}

/// Where the memories of a chat are kept.
pub open spec fn chat_dir(chat: ChatV) -> Seq<char> {
    "/data/memories/"@ + folder(chat)
}

/// Where the memories of a chat are kept.
pub fn dir_of(chat: &Chat) -> (r: String)
    ensures
        r@ == chat_dir(chat@),
{
    let mut r = copy("/data/memories/");
    match chat {
        Chat::Contact(uuid) => r.append(&hyphenated_text(*uuid)),
        Chat::Group(id) => r.append(&hex_text(id)),
    }
    r
}

proof fn lemma_hex_digits(bytes: Seq<u8>, i: int)
    requires
        0 <= i < hex(bytes).len(),
    ensures
        hex(bytes)[i] != '-',
{
}

proof fn lemma_hex_apart(a: Seq<u8>, b: Seq<u8>)
    requires
        hex(a) == hex(b),
    ensures
        a == b,
{
    assert(hex(a).len() == 2 * a.len());
    assert(hex(b).len() == 2 * b.len());
    assert forall|i: int| 0 <= i < a.len() implies a[i] == b[i] by {
        assert(hex(a)[2 * i] == hex_digit(a[i] as int / 16));
        assert(hex(b)[2 * i] == hex_digit(b[i] as int / 16));
        assert(hex(a)[2 * i + 1] == hex_digit(a[i] as int % 16));
        assert(hex(b)[2 * i + 1] == hex_digit(b[i] as int % 16));
    }
    assert(a =~= b);
}

/// Each chat has its own folder.
pub proof fn law_each_chat_has_its_own_folder(a: ChatV, b: ChatV)
    requires
        chat_dir(a) == chat_dir(b),
    ensures
        match (a, b) {
            (ChatV::Contact(x), ChatV::Contact(y)) => x == y,
            (ChatV::Group(x), ChatV::Group(y)) => x == y,
            _ => false,
        },
{
    let n = "/data/memories/"@.len() as int;
    assert(chat_dir(a).skip(n) =~= folder(a));
    assert(chat_dir(b).skip(n) =~= folder(b));
    match (a, b) {
        (ChatV::Contact(x), ChatV::Contact(y)) => law_uuids_are_told_apart(x, y),
        (ChatV::Group(x), ChatV::Group(y)) => lemma_hex_apart(x, y),
        (ChatV::Contact(x), ChatV::Group(y)) => lemma_kinds_apart(x, y),
        (ChatV::Group(x), ChatV::Contact(y)) => lemma_kinds_apart(y, x),
    }
}

/// The folder of a group is named by its identifier alone, in lower-case hexadecimal:
/// its name is the form of no other bytes, such as the group's master key.
pub proof fn law_folder_shows_the_identifier_alone(id: Seq<u8>, key: Seq<u8>)
    requires
        id != key,
    ensures
        folder(ChatV::Group(id)) != hex(key),
        folder(ChatV::Group(id)).len() == 2 * id.len(),
        forall|i: int|
            0 <= i < folder(ChatV::Group(id)).len() ==> {
                let c = #[trigger] folder(ChatV::Group(id))[i];
                '0' <= c <= '9' || 'a' <= c <= 'f'
            },
{
    if hex(id) == hex(key) {
        lemma_hex_apart(id, key);
    }
}

proof fn lemma_kinds_apart(uuid: u128, id: Seq<u8>)
    ensures
        hyphenated(uuid) != hex(id),
{
    reveal_strlit("-");
    lemma_hex_fixed_len(uuid as nat, 32);
    assert(hyphenated(uuid)[8] == '-');
    if hyphenated(uuid) == hex(id) {
        lemma_hex_digits(id, 8);
    }
}

// ---------------------------------------------------------------------------
// names

/// A character that a name may hold.
pub open spec fn name_char(c: char) -> bool {
    'a' <= c <= 'z' || '0' <= c <= '9' || c == '-'
}

/// A name of lowercase letters, digits and dashes, neither empty nor too long.
pub open spec fn valid(name: Seq<char>) -> bool {
    &&& name.len() > 0
    &&& utf8_len(name) <= MAX_NAME_LEN
    &&& forall|i: int| 0 <= i < name.len() ==> name_char(#[trigger] name[i])
}

pub fn is_valid(name: &str) -> (r: bool)
    ensures
        r == valid(name@),
{
    if name.is_empty() {
        return false;
    }
    if byte_len(name) > 64 {
        return false;
    }
    let cs = chars_of(name);
    for i in 0..cs.len()
        invariant
            cs@ == name@,
            forall|j: int| 0 <= j < i ==> name_char(#[trigger] cs@[j]),
    {
        let c = cs[i];
        if !(('a' <= c && c <= 'z') || ('0' <= c && c <= '9') || c == '-') {
            assert(!name_char(name@[i as int]));
            return false;
        }
    }
    true
}

/// A file in a folder.
pub open spec fn file_in(dir: Seq<char>, file: Seq<char>) -> Seq<char> {
    if dir.len() == 0 {
        file
    } else if dir.last() == '/' {
        dir + file
    } else {
        dir + "/"@ + file
    }
}

fn join_path(dir: &str, file: &str) -> (r: String)
    ensures
        r@ == file_in(dir@, file@),
{
    let mut r = copy(dir);
    let cs = chars_of(dir);
    let n = cs.len();
    if n > 0 && cs[n - 1] != '/' {
        r.append("/");
    }
    r.append(file);
    proof {
        if n == 0 {
            assert(dir@ + file@ =~= file@);
        }
    }
    r
}

/// The file of a memory, where its name is valid.
pub open spec fn memory_path(dir: Seq<char>, name: Seq<char>) -> Option<Seq<char>> {
    if valid(name) {
        Some(file_in(dir, name + ".md"@))
    } else {
        None
    }
}

/// The file of a memory, where its name is valid.
pub fn path_of(dir: &str, name: &str) -> (r: Option<String>)
    ensures
        crate::attachment::text_opt(r) == memory_path(dir@, name@),
{
    if !is_valid(name) {
        return None;
    }
    let mut file = copy(name);
    file.append(".md");
    Some(join_path(dir, &file))
}

/// Where a memory is written before it takes its place.
pub open spec fn staging(dir: Seq<char>, name: Seq<char>) -> Seq<char> {
    file_in(dir, "."@ + name + ".md.tmp"@)
}

/// The name of a file that is in the folder it is looked for in: it leads neither
/// into another folder nor to the folder itself or the one above.
pub open spec fn stays(file: Seq<char>) -> bool {
    &&& file.len() > 0
    &&& !file.contains('/')
    &&& file != "."@
    &&& file != ".."@
}

/// No name leads out of the folder: what stands behind the folder in the path of a
/// memory, and in that of its staging file, is the name of a file in the folder.
pub proof fn law_names_stay_in_the_folder(dir: Seq<char>, name: Seq<char>)
    requires
        memory_path(dir, name) is Some,
    ensures
        memory_path(dir, name)->0 == file_in(dir, name + ".md"@),
        stays(name + ".md"@),
        staging(dir, name) == file_in(dir, "."@ + name + ".md.tmp"@),
        stays("."@ + name + ".md.tmp"@),
{
    reveal_strlit(".");
    reveal_strlit("..");
    reveal_strlit(".md");
    reveal_strlit(".md.tmp");
    let file = name + ".md"@;
    let temp = "."@ + name + ".md.tmp"@;
    assert forall|i: int| 0 <= i < file.len() implies file[i] != '/' by {
        if i < name.len() {
            assert(file[i] == name[i]);
            assert(name_char(name[i]));
        }
    }
    assert forall|i: int| 0 <= i < temp.len() implies temp[i] != '/' by {
        if 1 <= i < 1 + name.len() {
            assert(temp[i] == name[i - 1]);
            assert(name_char(name[i - 1]));
        }
    }
}

/// The name of the memory that a file holds, where it holds one.
pub open spec fn name_of_file(file: Seq<char>) -> Option<Seq<char>> {
    if ends(file, ".md"@) && valid(file.take(file.len() - ".md"@.len())) {
        Some(file.take(file.len() - ".md"@.len()))
    } else {
        None
    }
}

/// `a` does not come after `b`, character by character.
pub open spec fn not_after(a: Seq<char>, b: Seq<char>) -> bool
    decreases a.len(),
{
    if a.len() == 0 {
        true
    } else if b.len() == 0 || a[0] > b[0] {
        false
    } else if a[0] < b[0] {
        true
    } else {
        not_after(a.skip(1), b.skip(1))
    }
}

fn is_not_after(a: &str, b: &str) -> (r: bool)
    ensures
        r == not_after(a@, b@),
{
    let x = chars_of(a);
    let y = chars_of(b);
    let mut i: usize = 0;
    assert(x@.skip(0) =~= x@ && y@.skip(0) =~= y@);
    while i < x.len()
        invariant
            x@ == a@,
            y@ == b@,
            i <= x@.len(),
            i <= y@.len(),
            not_after(x@, y@) == not_after(x@.skip(i as int), y@.skip(i as int)),
        decreases x@.len() - i,
    {
        let ghost p = x@.skip(i as int);
        let ghost q = y@.skip(i as int);
        assert(p.skip(1) =~= x@.skip(i + 1));
        if i == y.len() {
            return false;
        }
        assert(q.skip(1) =~= y@.skip(i + 1));
        if x[i] > y[i] {
            return false;
        }
        if x[i] < y[i] {
            return true;
        }
        i += 1;
    }
    true
}

/// `x` put behind every name that does not come after it.
pub open spec fn name_placed(s: Seq<Seq<char>>, x: Seq<char>) -> Seq<Seq<char>>
    decreases s.len(),
{
    if s.len() > 0 && !not_after(s.last(), x) {
        name_placed(s.drop_last(), x).push(s.last())
    } else {
        s.push(x)
    }
}

/// The names of the memories among the files, in order.
pub open spec fn names_among(files: Seq<Seq<char>>) -> Seq<Seq<char>>
    decreases files.len(),
{
    if files.len() == 0 {
        Seq::empty()
    } else {
        let rest = names_among(files.drop_last());
        match name_of_file(files.last()) {
            Some(name) => name_placed(rest, name),
            None => rest,
        }
    }
}

proof fn lemma_name_placed(s: Seq<Seq<char>>, x: Seq<char>, n: int)
    requires
        0 <= n <= s.len(),
        forall|i: int| n <= i < s.len() ==> !not_after(#[trigger] s[i], x),
        n == 0 || not_after(s[n - 1], x),
    ensures
        name_placed(s, x) == s.insert(n, x),
    decreases s.len(),
{
    if n < s.len() {
        assert(!not_after(s[s.len() - 1], x));
        assert forall|i: int| n <= i < s.drop_last().len() implies !not_after(
            #[trigger] s.drop_last()[i],
            x,
        ) by {
            assert(s.drop_last()[i] == s[i]);
        }
        lemma_name_placed(s.drop_last(), x, n);
        assert(s.drop_last().insert(n, x).push(s.last()) =~= s.insert(n, x));
    } else {
        assert(s.push(x) =~= s.insert(n, x));
    }
}

fn file_name(file: &str) -> (r: Option<String>)
    ensures
        crate::attachment::text_opt(r) == name_of_file(file@),
{
    proof {
        reveal_strlit(".md");
    }
    if !ends_with(file, ".md") {
        return None;
    }
    let cs = chars_of(file);
    let stem = string_between(&cs, 0, cs.len() - 3);
    assert(stem@ =~= file@.take(file@.len() - 3));
    if is_valid(&stem) {
        Some(stem)
    } else {
        None
    }
}

/// The names of the memories saved in a folder that holds these files, in order.
/// Other files are passed over.
pub fn names(files: &Vec<String>) -> (r: Vec<String>)
    ensures
        texts(r@) == names_among(texts(files@)),
{
    let ghost all = texts(files@);
    let mut out: Vec<String> = Vec::new();
    assert(all.take(0) =~= Seq::empty());
    assert(texts(out@) =~= Seq::empty());
    for i in 0..files.len()
        invariant
            all == texts(files@),
            texts(out@) == names_among(all.take(i as int)),
    {
        assert(all.take(i + 1).drop_last() =~= all.take(i as int));
        if let Some(name) = file_name(&files[i]) {
            let mut at: usize = out.len();
            while at > 0 && !is_not_after(&out[at - 1], &name)
                invariant
                    at <= out@.len(),
                    forall|j: int| at <= j < out@.len() ==> !not_after(#[trigger] texts(out@)[j], name@),
                ensures
                    at <= out@.len(),
                    forall|j: int| at <= j < out@.len() ==> !not_after(#[trigger] texts(out@)[j], name@),
                    at == 0 || not_after(texts(out@)[at - 1], name@),
                decreases at,
            {
                at -= 1;
            }
            proof {
                lemma_name_placed(texts(out@), name@, at as int);
                assert(texts(out@.insert(at as int, name)) =~= texts(out@).insert(at as int, name@));
            }
            out.insert(at, name);
        }
    }
    assert(all.take(all.len() as int) =~= all);
    out
}

proof fn lemma_total(a: Seq<char>, b: Seq<char>)
    ensures
        not_after(a, b) || not_after(b, a),
    decreases a.len(),
{
    if a.len() > 0 && b.len() > 0 && a[0] == b[0] {
        lemma_total(a.skip(1), b.skip(1));
    }
}

proof fn lemma_transitive(a: Seq<char>, b: Seq<char>, c: Seq<char>)
    requires
        not_after(a, b),
        not_after(b, c),
    ensures
        not_after(a, c),
    decreases a.len(),
{
    if a.len() > 0 && b.len() > 0 && c.len() > 0 && a[0] == b[0] && b[0] == c[0] {
        lemma_transitive(a.skip(1), b.skip(1), c.skip(1));
    }
}

/// In order.
pub open spec fn sorted(s: Seq<Seq<char>>) -> bool {
    forall|i: int, j: int| 0 <= i < j < s.len() ==> not_after(#[trigger] s[i], #[trigger] s[j])
}

proof fn lemma_placed_sorted(s: Seq<Seq<char>>, x: Seq<char>)
    requires
        sorted(s),
    ensures
        sorted(name_placed(s, x)),
        forall|i: int|
            0 <= i < name_placed(s, x).len() ==> (#[trigger] name_placed(s, x)[i]) == x
                || s.contains(name_placed(s, x)[i]),
    decreases s.len(),
{
    let p = name_placed(s, x);
    if s.len() > 0 && !not_after(s.last(), x) {
        let head = s.drop_last();
        assert forall|i: int, j: int| 0 <= i < j < head.len() implies not_after(
            #[trigger] head[i],
            #[trigger] head[j],
        ) by {
            assert(head[i] == s[i] && head[j] == s[j]);
        }
        lemma_placed_sorted(head, x);
        let q = name_placed(head, x);
        lemma_total(s.last(), x);
        assert forall|i: int| 0 <= i < p.len() implies (#[trigger] p[i]) == x || s.contains(
            p[i],
        ) by {
            if i < q.len() {
                assert(p[i] == q[i]);
                if q[i] != x {
                    let k = choose|k: int| 0 <= k < head.len() && head[k] == q[i];
                    assert(s[k] == p[i]);
                }
            } else {
                assert(s[s.len() - 1] == p[i]);
            }
        }
        assert forall|i: int, j: int| 0 <= i < j < p.len() implies not_after(
            #[trigger] p[i],
            #[trigger] p[j],
        ) by {
            assert(p[i] == q[i]);
            if j < q.len() {
                assert(p[j] == q[j]);
            } else if q[i] != x {
                let k = choose|k: int| 0 <= k < head.len() && head[k] == q[i];
                assert(s[k] == q[i]);
                assert(not_after(s[k], s[s.len() - 1]));
            }
        }
    } else {
        assert forall|i: int| 0 <= i < p.len() implies (#[trigger] p[i]) == x || s.contains(
            p[i],
        ) by {
            if i < s.len() {
                assert(p[i] == s[i]);
            }
        }
        assert forall|i: int, j: int| 0 <= i < j < p.len() implies not_after(
            #[trigger] p[i],
            #[trigger] p[j],
        ) by {
            assert(p[i] == s[i]);
            if j < s.len() {
                assert(p[j] == s[j]);
            } else if i < s.len() - 1 {
                assert(not_after(s[i], s[s.len() - 1]));
                lemma_transitive(s[i], s[s.len() - 1], x);
            }
        }
    }
}

/// The names are listed in order, and only such as a memory can have.
pub proof fn law_names_are_listed_in_order(files: Seq<Seq<char>>)
    ensures
        sorted(names_among(files)),
        forall|i: int|
            0 <= i < names_among(files).len() ==> valid(#[trigger] names_among(files)[i]),
    decreases files.len(),
{
    if files.len() > 0 {
        law_names_are_listed_in_order(files.drop_last());
        let rest = names_among(files.drop_last());
        if let Some(name) = name_of_file(files.last()) {
            lemma_placed_sorted(rest, name);
            let all = names_among(files);
            assert forall|i: int| 0 <= i < all.len() implies valid(#[trigger] all[i]) by {
                if all[i] != name {
                    let k = choose|k: int| 0 <= k < rest.len() && rest[k] == all[i];
                    assert(valid(rest[k]));
                }
            }
        }
    }
}

/// A file holds the memory that it is named after, and no other.
proof fn lemma_name_of_file(file: Seq<char>, name: Seq<char>)
    ensures
        name_of_file(file) == Some(name) <==> valid(name) && file == name + ".md"@,
{
    reveal_strlit(".md");
    let whole = name + ".md"@;
    assert(whole.take(name.len() as int) =~= name);
    assert(whole.skip(name.len() as int) =~= ".md"@);
    if name_of_file(file) == Some(name) {
        assert(file =~= whole);
    }
}

proof fn lemma_placed_holds(s: Seq<Seq<char>>, x: Seq<char>, y: Seq<char>)
    ensures
        name_placed(s, x).contains(y) <==> x == y || s.contains(y),
    decreases s.len(),
{
    let p = name_placed(s, x);
    if s.len() > 0 && !not_after(s.last(), x) {
        let head = s.drop_last();
        let q = name_placed(head, x);
        lemma_placed_holds(head, x, y);
        assert(p[p.len() - 1] == s[s.len() - 1]);
        assert forall|i: int| 0 <= i < q.len() implies p.contains(#[trigger] q[i]) by {
            assert(p[i] == q[i]);
        }
        assert forall|i: int| 0 <= i < head.len() implies s.contains(#[trigger] head[i]) by {
            assert(s[i] == head[i]);
        }
        if p.contains(y) {
            let i = choose|i: int| 0 <= i < p.len() && p[i] == y;
            if i < q.len() {
                assert(q[i] == y);
            }
        }
        if s.contains(y) {
            let i = choose|i: int| 0 <= i < s.len() && s[i] == y;
            if i < head.len() {
                assert(head[i] == y);
            }
        }
    } else {
        assert(p[s.len() as int] == x);
        if s.contains(y) {
            let i = choose|i: int| 0 <= i < s.len() && s[i] == y;
            assert(p[i] == y);
        }
    }
}

/// What was saved is listed, and nothing else: a name is among those of a folder if
/// and only if the folder holds the file that the name leads to.
pub proof fn law_saved_is_listed(files: Seq<Seq<char>>, name: Seq<char>)
    ensures
        names_among(files).contains(name) <==> valid(name) && files.contains(name + ".md"@),
    decreases files.len(),
{
    if files.len() > 0 {
        let head = files.drop_last();
        law_saved_is_listed(head, name);
        lemma_name_of_file(files.last(), name);
        if let Some(other) = name_of_file(files.last()) {
            lemma_placed_holds(names_among(head), other, name);
        }
        assert(files =~= head.push(files.last()));
        let file = name + ".md"@;
        if head.contains(file) {
            let i = choose|i: int| 0 <= i < head.len() && head[i] == file;
            assert(files[i] == file);
        }
        if files.last() == file {
            assert(files[files.len() - 1] == file);
        }
        if files.contains(file) {
            let i = choose|i: int| 0 <= i < files.len() && files[i] == file;
            if i < head.len() {
                assert(head[i] == file);
            }
        }
    }
}

// ---------------------------------------------------------------------------
// what the model is offered

pub open spec fn name_param() -> JsonV {
    param_value(
        "string"@,
        "lowercase letters, digits and dashes naming one aspect, e.g. alice-birthday"@,
    )
}

pub open spec fn list_tool() -> JsonV {
    tool_value(
        "list_memories"@,
        "List the names of the memories saved in this chat. The system prompt lists them as of the start of this conversation; call this for the current list."@,
        params_value(JsonV::object()),
    )
}

pub open spec fn read_tool() -> JsonV {
    tool_value(
        "read_memory"@,
        "Read one saved memory by name."@,
        params_value(JsonV::object().with("name"@, name_param())).with(
            "required"@,
            one_name("name"@),
        ),
    )
}

pub open spec fn save_tool() -> JsonV {
    tool_value(
        "save_memory"@,
        "Save a memory for later conversations in this chat, replacing any memory with the same name. Each memory covers exactly one aspect. To add to an aspect that already has a memory, read it and save the combined text under the same name rather than starting a second one."@,
        params_value(
            JsonV::object().with("name"@, name_param()).with(
                "content"@,
                param_value("string"@, "the memory as markdown"@),
            ),
        ).with("required"@, JsonV::Arr(seq![JsonV::Str("name"@), JsonV::Str("content"@)])),
    )
}

pub open spec fn delete_tool() -> JsonV {
    tool_value(
        "delete_memory"@,
        "Delete a saved memory that is wrong or no longer needed."@,
        params_value(JsonV::object().with("name"@, name_param())).with(
            "required"@,
            one_name("name"@),
        ),
    )
}

fn name_parameter() -> (r: Json)
    ensures
        r@ == name_param(),
{
    param(
        "string",
        "lowercase letters, digits and dashes naming one aspect, e.g. alice-birthday",
    )
}

/// The tools on offer where memories are kept.
pub fn definitions() -> (r: Vec<Json>)
    ensures
        jsons(r@) == seq![list_tool(), read_tool(), save_tool(), delete_tool()],
{
    let mut both: Vec<Json> = Vec::new();
    both.push(Json::text("name"));
    both.push(Json::text("content"));
    assert(jsons(both@) =~= seq![JsonV::Str("name"@), JsonV::Str("content"@)]);
    let mut out: Vec<Json> = Vec::new();
    out.push(
        tool(
            "list_memories",
            "List the names of the memories saved in this chat. The system prompt lists them as of the start of this conversation; call this for the current list.",
            params(Json::object()),
        ),
    );
    out.push(
        tool(
            "read_memory",
            "Read one saved memory by name.",
            params(Json::object().with("name", name_parameter())).with(
                "required",
                name_list("name"),
            ),
        ),
    );
    out.push(
        tool(
            "save_memory",
            "Save a memory for later conversations in this chat, replacing any memory with the same name. Each memory covers exactly one aspect. To add to an aspect that already has a memory, read it and save the combined text under the same name rather than starting a second one.",
            params(
                Json::object().with("name", name_parameter()).with(
                    "content",
                    param("string", "the memory as markdown"),
                ),
            ).with("required", Json::array(both)),
        ),
    );
    out.push(
        tool(
            "delete_memory",
            "Delete a saved memory that is wrong or no longer needed.",
            params(Json::object().with("name", name_parameter())).with(
                "required",
                name_list("name"),
            ),
        ),
    );
    assert(jsons(out@) =~= seq![list_tool(), read_tool(), save_tool(), delete_tool()]);
    out
}

// ---------------------------------------------------------------------------
// what a call comes to

/// What a call asks to be done.
pub enum MemoryAction {
    /// nothing: this is the answer
    Answer(String),
    /// list the folder
    List,
    /// read the file at the path
    Read { name: String, path: String },
    /// make the folder, write the content to the staging file, then move that to the
    /// path
    Save { name: String, path: String, staged: String, content: String },
    /// delete the file at the path
    Delete { name: String, path: String },
}

/// The mathematical model of what a call asks to be done.
pub enum MemoryActionV {
    Answer(Seq<char>),
    List,
    Read { name: Seq<char>, path: Seq<char> },
    Save { name: Seq<char>, path: Seq<char>, staged: Seq<char>, content: Seq<char> },
    Delete { name: Seq<char>, path: Seq<char> },
}

impl View for MemoryAction {
    type V = MemoryActionV;

    open spec fn view(&self) -> MemoryActionV {
        match self {
            MemoryAction::Answer(s) => MemoryActionV::Answer(s@),
            MemoryAction::List => MemoryActionV::List,
            MemoryAction::Read { name, path } => MemoryActionV::Read { name: name@, path: path@ },
            MemoryAction::Save { name, path, staged, content } => MemoryActionV::Save {
                name: name@,
                path: path@,
                staged: staged@,
                content: content@,
            },
            MemoryAction::Delete { name, path } => MemoryActionV::Delete {
                name: name@,
                path: path@,
            },
        }
    }
}

/// What a call to save asks to be done.
pub open spec fn save_action(
    dir: Seq<char>,
    name: Seq<char>,
    path: Seq<char>,
    args: Option<JsonV>,
) -> MemoryActionV {
    match text_in(arg_in(args, "content"@)) {
        None => MemoryActionV::Answer("error: expected a `content` argument"@),
        Some(content) => if utf8_len(content) > MAX_MEMORY_BYTES {
            MemoryActionV::Answer(
                "error: the memory is "@ + decimal(utf8_len(content)) + " bytes, the limit is "@
                    + decimal(MAX_MEMORY_BYTES as nat),
            )
        } else {
            MemoryActionV::Save { name, path, staged: staging(dir, name), content }
        },
    }
}

/// What a call asks to be done.
pub open spec fn memory_action(dir: Seq<char>, tool: Seq<char>, args: Option<JsonV>) -> MemoryActionV {
    if tool == "list_memories"@ {
        MemoryActionV::List
    } else {
        match text_in(arg_in(args, "name"@)) {
            None => MemoryActionV::Answer("error: expected a `name` argument"@),
            Some(name) => match memory_path(dir, name) {
                None => MemoryActionV::Answer(
                    "error: \""@ + name + "\" is not a valid name; use up to "@ + decimal(
                        MAX_NAME_LEN as nat,
                    ) + " lowercase letters, digits and dashes"@,
                ),
                Some(path) => if tool == "read_memory"@ {
                    MemoryActionV::Read { name, path }
                } else if tool == "save_memory"@ {
                    save_action(dir, name, path, args)
                } else if tool == "delete_memory"@ {
                    MemoryActionV::Delete { name, path }
                } else {
                    MemoryActionV::Answer("error: no tool named "@ + tool)
                },
            },
        }
    }
}

fn text_arg(args: &Option<Json>, name: &str) -> (r: Option<String>)
    requires
        indexable(json_opt(*args)),
    ensures
        crate::attachment::text_opt(r) == text_in(arg_in(json_opt(*args), name@)),
{
    match arg_of(args, name) {
        Some(v) => match v.as_str() {
            Some(s) => Some(copy(s)),
            None => None,
        },
        None => None,
    }
}

fn save(dir: &str, name: String, path: String, args: &Option<Json>) -> (r: MemoryAction)
    requires
        indexable(json_opt(*args)),
    ensures
        r@ == save_action(dir@, name@, path@, json_opt(*args)),
{
    let content = match text_arg(args, "content") {
        Some(c) => c,
        None => {
            return MemoryAction::Answer(copy("error: expected a `content` argument"));
        },
    };
    let len = byte_len(&content);
    if len > 8192 {
        let mut s = copy("error: the memory is ");
        s.append(&decimal_text(len as u64));
        s.append(" bytes, the limit is ");
        s.append(&decimal_text(8192));
        return MemoryAction::Answer(s);
    }
    let mut file = copy(".");
    file.append(&name);
    file.append(".md.tmp");
    let staged = join_path(dir, &file);
    MemoryAction::Save { name, path, staged, content }
}

/// What a call asks to be done, its arguments parsed.
pub fn dispatch_parsed(dir: &str, tool: &str, args: &Option<Json>) -> (r: MemoryAction)
    requires
        tool@ != "list_memories"@ ==> indexable(json_opt(*args)),
    ensures
        r@ == memory_action(dir@, tool@, json_opt(*args)),
{
    if same_text(tool, "list_memories") {
        return MemoryAction::List;
    }
    let name = match text_arg(args, "name") {
        Some(n) => n,
        None => {
            return MemoryAction::Answer(copy("error: expected a `name` argument"));
        },
    };
    let path = match path_of(dir, &name) {
        Some(p) => p,
        None => {
            let mut s = copy("error: \"");
            s.append(&name);
            s.append("\" is not a valid name; use up to ");
            s.append(&decimal_text(64));
            s.append(" lowercase letters, digits and dashes");
            return MemoryAction::Answer(s);
        },
    };
    if same_text(tool, "read_memory") {
        MemoryAction::Read { name, path }
    } else if same_text(tool, "save_memory") {
        save(dir, name, path, args)
    } else if same_text(tool, "delete_memory") {
        MemoryAction::Delete { name, path }
    } else {
        let mut s = copy("error: no tool named ");
        s.append(tool);
        MemoryAction::Answer(s)
    }
}

/// What a call asks to be done. Where its arguments are looked at, they have to be
/// some in which a name can be looked up.
pub fn dispatch(dir: &str, call: &ToolCall) -> (r: MemoryAction)
    requires
        call@.name != "list_memories"@ ==> indexable(json_value(call@.arguments)),
    ensures
        r@ == memory_action(dir@, call@.name, json_value(call@.arguments)),
{
    let args = call.parsed();
    dispatch_parsed(dir, &call.name, &args)
}

/// What a call asks to be done, for any call.
pub fn try_dispatch(dir: &str, call: &ToolCall) -> (r: Result<MemoryAction, NotIndexable>)
    ensures
        match r {
            Ok(a) => (call@.name != "list_memories"@ ==> indexable(json_value(call@.arguments)))
                && a@ == memory_action(dir@, call@.name, json_value(call@.arguments)),
            Err(_) => call@.name != "list_memories"@ && !indexable(json_value(call@.arguments)),
        },
{
    let ok = match call.parsed() {
        Some(Json::Null) => true,
        Some(Json::Obj(_)) => true,
        Some(_) => false,
        None => true,
    };
    if !ok && !same_text(&call.name, "list_memories") {
        Err(NotIndexable)
    } else {
        Ok(dispatch(dir, call))
    }
}

/// A memory is only ever written, read or deleted under a valid name, and what is
/// written is never too long.
pub proof fn law_only_valid_memories(dir: Seq<char>, tool: Seq<char>, args: Option<JsonV>)
    ensures
        match memory_action(dir, tool, args) {
            MemoryActionV::Read { name, path } => memory_path(dir, name) == Some(path),
            MemoryActionV::Save { name, path, staged, content } => memory_path(dir, name) == Some(
                path,
            ) && utf8_len(content) <= MAX_MEMORY_BYTES && staged == staging(dir, name),
            MemoryActionV::Delete { name, path } => memory_path(dir, name) == Some(path),
            _ => true,
        },
{
}

/// What is said of a memory that is not there.
pub open spec fn missing_text(name: Seq<char>) -> Seq<char> {
    "error: no memory named "@ + name
        + ". The memories may have changed since this conversation started; call "@
        + "list_memories"@ + " for the current list."@
}

/// What is said of a memory that is not there.
pub fn missing(name: &str) -> (r: String)
    ensures
        r@ == missing_text(name@),
{
    let mut s = copy("error: no memory named ");
    s.append(name);
    s.append(". The memories may have changed since this conversation started; call ");
    s.append("list_memories");
    s.append(" for the current list.");
    s
}

/// What came of an access to a file.
pub enum FileOutcome {
    Done(String),
    NotFound,
    Failed(String),
}

/// What is said of an access that failed.
pub open spec fn failure(doing: Seq<char>, name: Seq<char>, error: Seq<char>) -> Seq<char> {
    "error: could not "@ + doing + " "@ + name + ": "@ + error
}

fn failed(doing: &str, name: &str, error: &str) -> (r: String)
    ensures
        r@ == failure(doing@, name@, error@),
{
    let mut s = copy("error: could not ");
    s.append(doing);
    s.append(" ");
    s.append(name);
    s.append(": ");
    s.append(error);
    s
}

/// The answer to a call to read, given what came of it.
pub open spec fn read_text(name: Seq<char>, outcome: FileOutcome) -> Seq<char> {
    match outcome {
        FileOutcome::Done(content) => content@,
        FileOutcome::NotFound => missing_text(name),
        FileOutcome::Failed(e) => failure("read"@, name, e@),
    }
}

/// The answer to a call to read, once the file has been read or could not be.
pub fn read_answer(name: &str, outcome: FileOutcome) -> (r: String)
    ensures
        r@ == read_text(name@, outcome),
{
    match outcome {
        FileOutcome::Done(content) => content,
        FileOutcome::NotFound => missing(name),
        FileOutcome::Failed(e) => failed("read", name, &e),
    }
}

/// The answer to a call to save, given what went wrong, if anything.
pub open spec fn saved_text(name: Seq<char>, error: Option<Seq<char>>) -> Seq<char> {
    match error {
        None => "saved "@ + name,
        Some(e) => failure("save"@, name, e),
    }
}

/// The answer to a call to save, once the file has been written or could not be.
pub fn save_answer(name: &str, error: Option<String>) -> (r: String)
    ensures
        r@ == saved_text(name@, crate::attachment::text_opt(error)),
{
    match error {
        None => {
            let mut s = copy("saved ");
            s.append(name);
            s
        },
        Some(e) => failed("save", name, &e),
    }
}

/// The answer to a call to delete, given what came of it.
pub open spec fn deleted_text(name: Seq<char>, outcome: FileOutcome) -> Seq<char> {
    match outcome {
        FileOutcome::Done(_) => "deleted "@ + name,
        FileOutcome::NotFound => missing_text(name),
        FileOutcome::Failed(e) => failure("delete"@, name, e@),
    }
}

/// The answer to a call to delete, once the file has been deleted or could not be.
pub fn delete_answer(name: &str, outcome: FileOutcome) -> (r: String)
    ensures
        r@ == deleted_text(name@, outcome),
{
    match outcome {
        FileOutcome::Done(_) => {
            let mut s = copy("deleted ");
            s.append(name);
            s
        },
        FileOutcome::NotFound => missing(name),
        FileOutcome::Failed(e) => failed("delete", name, &e),
    }
}

/// The answer to a call to list, given the names.
pub open spec fn list_text(names: Seq<Seq<char>>) -> Seq<char> {
    if names.len() == 0 {
        "no memories saved yet"@
    } else {
        joined(names, "\n"@)
    }
}

/// The answer to a call to list, given the files in the folder.
pub fn list_answer(files: &Vec<String>) -> (r: String)
    ensures
        r@ == list_text(names_among(texts(files@))),
{
    let found = names(files);
    if found.len() == 0 {
        return copy("no memories saved yet");
    }
    join(&found, "\n")
}

/// What the system prompt says of the memories, given their names.
pub open spec fn section_text(names: Seq<Seq<char>>) -> Seq<char> {
    if names.len() == 0 {
        "---\nSaved memories: none yet"@
    } else {
        "---\nSaved memories, read one with "@ + "read_memory"@ + " when it could matter:\n- "@
            + joined(names, "\n- "@)
    }
}

/// What the system prompt says of the memories, given the files in the folder.
pub fn prompt_section(files: &Vec<String>) -> (r: String)
    ensures
        r@ == section_text(names_among(texts(files@))),
{
    let found = names(files);
    if found.len() == 0 {
        return copy("---\nSaved memories: none yet");
    }
    let mut s = copy("---\nSaved memories, read one with ");
    s.append("read_memory");
    s.append(" when it could matter:\n- ");
    s.append(&join(&found, "\n- "));
    s
}

// ---------------------------------------------------------------------------
// laws

/// A name is one to sixty-four lowercase letters, digits and dashes.
pub proof fn law_what_a_name_may_be(name: Seq<char>)
    ensures
        valid(name) <==> 0 < name.len() <= 64 && forall|i: int|
            0 <= i < name.len() ==> ('a' <= #[trigger] name[i] <= 'z' || '0' <= name[i] <= '9'
                || name[i] == '-'),
{
    if forall|i: int|
        0 <= i < name.len() ==> ('a' <= #[trigger] name[i] <= 'z' || '0' <= name[i] <= '9'
            || name[i] == '-') {
        assert(vstd::utf8::is_ascii_chars(name));
        vstd::utf8::is_ascii_chars_encode_utf8(name);
        assert(utf8_len(name) == name.len());
        assert forall|i: int| 0 <= i < name.len() implies name_char(#[trigger] name[i]) by {}
    }
    if valid(name) {
        assert forall|i: int| 0 <= i < name.len() implies ('a' <= #[trigger] name[i] <= 'z' || '0'
            <= name[i] <= '9' || name[i] == '-') by {
            assert(name_char(name[i]));
        }
        assert(vstd::utf8::is_ascii_chars(name));
        vstd::utf8::is_ascii_chars_encode_utf8(name);
    }
}

/// A memory is a file of its name in the folder of its chat, and it is written beside its
/// place before it takes it.
pub proof fn law_where_a_memory_is(dir: Seq<char>, name: Seq<char>)
    requires
        dir.len() > 0,
        dir.last() != '/',
    ensures
        valid(name) ==> memory_path(dir, name) == Some(dir + "/"@ + name + ".md"@),
        !valid(name) ==> memory_path(dir, name) is None,
        staging(dir, name) == dir + "/"@ + "."@ + name + ".md.tmp"@,
        staging(dir, name) != dir + "/"@ + name + ".md"@,
{
    assert(dir + "/"@ + (name + ".md"@) =~= dir + "/"@ + name + ".md"@);
    assert(dir + "/"@ + ("."@ + name + ".md.tmp"@) =~= dir + "/"@ + "."@ + name + ".md.tmp"@);
    reveal_strlit(".md");
    reveal_strlit(".md.tmp");
    reveal_strlit(".");
    assert(staging(dir, name).len() != (dir + "/"@ + name + ".md"@).len());
}

/// Two memories of one chat are two files.
pub proof fn law_each_memory_has_its_own_file(dir: Seq<char>, a: Seq<char>, b: Seq<char>)
    requires
        valid(a),
        valid(b),
        memory_path(dir, a) == memory_path(dir, b),
    ensures
        a == b,
{
    let x = memory_path(dir, a)->0;
    let y = memory_path(dir, b)->0;
    let n = x.len() - (a + ".md"@).len();
    let m = y.len() - (b + ".md"@).len();
    assert(x.skip(n) =~= a + ".md"@);
    assert(y.skip(m) =~= b + ".md"@);
    assert(n == m);
    assert((a + ".md"@).take(a.len() as int) =~= a);
    assert((b + ".md"@).take(b.len() as int) =~= b);
}

proof fn lemma_memory_tools()
    ensures
        "list_memories"@ != "read_memory"@,
        "list_memories"@ != "save_memory"@,
        "list_memories"@ != "delete_memory"@,
        "read_memory"@ != "save_memory"@,
        "read_memory"@ != "delete_memory"@,
        "save_memory"@ != "delete_memory"@,
{
    reveal_strlit("list_memories");
    reveal_strlit("read_memory");
    reveal_strlit("save_memory");
    reveal_strlit("delete_memory");
    assert("list_memories"@[0] == 'l' && "read_memory"@[0] == 'r');
    assert("save_memory"@[0] == 's' && "delete_memory"@[0] == 'd');
}

/// A call does what its tool is for, with the memory of the very name it gives: what is
/// read, saved or deleted is the file of that name, and what is saved is the very content,
/// provided that it takes no more than 8 KiB.
pub proof fn law_a_call_does_what_it_says(
    dir: Seq<char>,
    args: JsonV,
    name: Seq<char>,
    content: Seq<char>,
)
    requires
        args.get("name"@) == Some(JsonV::Str(name)),
        valid(name),
    ensures
        memory_action(dir, "list_memories"@, Some(args)) == MemoryActionV::List,
        memory_action(dir, "read_memory"@, Some(args)) == (MemoryActionV::Read {
            name,
            path: file_in(dir, name + ".md"@),
        }),
        memory_action(dir, "delete_memory"@, Some(args)) == (MemoryActionV::Delete {
            name,
            path: file_in(dir, name + ".md"@),
        }),
        args.get("content"@) == Some(JsonV::Str(content)) && vstd::utf8::encode_utf8(
            content,
        ).len() <= 8192 ==> memory_action(dir, "save_memory"@, Some(args)) == (MemoryActionV::Save {
            name,
            path: file_in(dir, name + ".md"@),
            staged: file_in(dir, "."@ + name + ".md.tmp"@),
            content,
        }),
        args.get("content"@) == Some(JsonV::Str(content)) && vstd::utf8::encode_utf8(
            content,
        ).len() > 8192 ==> memory_action(dir, "save_memory"@, Some(args)) == MemoryActionV::Answer(
            "error: the memory is "@ + decimal(vstd::utf8::encode_utf8(content).len())
                + " bytes, the limit is "@ + decimal(8192),
        ),
        (args.get("content"@) is None || args.get("content"@)->0 !is Str) ==> memory_action(
            dir,
            "save_memory"@,
            Some(args),
        ) == MemoryActionV::Answer("error: expected a `content` argument"@),
{
    lemma_memory_tools();
}

/// A call for a memory that gives no name, or none that a memory may have, is told so;
/// listing them takes none.
pub proof fn law_a_name_is_expected(dir: Seq<char>, tool: Seq<char>, args: Option<JsonV>)
    ensures
        memory_action(dir, "list_memories"@, args) == MemoryActionV::List,
        tool != "list_memories"@ && (crate::ai::inner(args, "name"@) is None || crate::ai::inner(
            args,
            "name"@,
        )->0 !is Str) ==> memory_action(dir, tool, args) == MemoryActionV::Answer(
            "error: expected a `name` argument"@,
        ),
        match crate::ai::inner(args, "name"@) {
            Some(JsonV::Str(name)) => tool != "list_memories"@ && !valid(name) ==> memory_action(
                dir,
                tool,
                args,
            ) == MemoryActionV::Answer(
                "error: \""@ + name + "\" is not a valid name; use up to "@ + decimal(64)
                    + " lowercase letters, digits and dashes"@,
            ),
            _ => true,
        },
{
}

/// The tools for memories are the four there are.
pub proof fn law_the_tools_for_memories(tool: Seq<char>)
    ensures
        is_memory_tool("list_memories"@),
        is_memory_tool("read_memory"@),
        is_memory_tool("save_memory"@),
        is_memory_tool("delete_memory"@),
        is_memory_tool(tool) ==> tool == "list_memories"@ || tool == "read_memory"@ || tool
            == "save_memory"@ || tool == "delete_memory"@,
{
}

/// A memory is read out word for word; one that is not there is said to be missing, and
/// what went wrong is told, with the name and what was tried.
pub proof fn law_what_came_of_it_is_told(name: Seq<char>, content: String, e: String)
    ensures
        read_text(name, FileOutcome::Done(content)) == content@,
        deleted_text(name, FileOutcome::Done(content)) == "deleted "@ + name,
        saved_text(name, None) == "saved "@ + name,
        read_text(name, FileOutcome::NotFound) == deleted_text(name, FileOutcome::NotFound),
        read_text(name, FileOutcome::NotFound) == "error: no memory named "@ + name
            + ". The memories may have changed since this conversation started; call "@
            + "list_memories"@ + " for the current list."@,
        read_text(name, FileOutcome::Failed(e)) == "error: could not "@ + "read"@ + " "@ + name
            + ": "@ + e@,
        deleted_text(name, FileOutcome::Failed(e)) == "error: could not "@ + "delete"@ + " "@ + name
            + ": "@ + e@,
        saved_text(name, Some(e@)) == "error: could not "@ + "save"@ + " "@ + name + ": "@ + e@,
{
}

/// The names of all memories are listed, one a line, and so they are in the system prompt;
/// where there are none, that is said.
pub proof fn law_all_memories_are_listed(names: Seq<Seq<char>>, x: Seq<char>)
    ensures
        list_text(Seq::empty()) == "no memories saved yet"@,
        list_text(seq![x]) == x,
        names.len() > 0 ==> list_text(names.push(x)) == list_text(names) + "\n"@ + x,
        section_text(Seq::empty()) == "---\nSaved memories: none yet"@,
        section_text(seq![x]) == "---\nSaved memories, read one with "@ + "read_memory"@
            + " when it could matter:\n- "@ + x,
        names.len() > 0 ==> section_text(names.push(x)) == section_text(names) + "\n- "@ + x,
{
    law_joined_in_order(names, x, "\n"@);
    law_joined_in_order(names, x, "\n- "@);
    let head = "---\nSaved memories, read one with "@ + "read_memory"@
        + " when it could matter:\n- "@;
    if names.len() > 0 {
        assert(head + (joined(names, "\n- "@) + "\n- "@ + x) =~= head + joined(names, "\n- "@)
            + "\n- "@ + x);
    }
}

/// A file holds the memory of its name where it ends as the files of memories do, and no
/// other file holds any.
pub proof fn law_which_files_are_memories(file: Seq<char>, name: Seq<char>)
    ensures
        valid(name) ==> name_of_file(name + ".md"@) == Some(name),
        name_of_file(file) matches Some(n) ==> valid(n) && file == n + ".md"@,
{
    lemma_name_of_file(name + ".md"@, name);
    if name_of_file(file) is Some {
        lemma_name_of_file(file, name_of_file(file)->0);
    }
}

/// The tools for memories are offered under their names, and each but the list has to be
/// given one.
pub proof fn law_memories_are_offered()
    ensures
        list_tool().get("function"@)->0.get("name"@) == Some(JsonV::Str("list_memories"@)),
        read_tool().get("function"@)->0.get("name"@) == Some(JsonV::Str("read_memory"@)),
        save_tool().get("function"@)->0.get("name"@) == Some(JsonV::Str("save_memory"@)),
        delete_tool().get("function"@)->0.get("name"@) == Some(JsonV::Str("delete_memory"@)),
        read_tool().get("function"@)->0.get("parameters"@)->0.get("required"@) == Some(
            JsonV::Arr(seq![JsonV::Str("name"@)]),
        ),
        delete_tool().get("function"@)->0.get("parameters"@)->0.get("required"@) == Some(
            JsonV::Arr(seq![JsonV::Str("name"@)]),
        ),
        save_tool().get("function"@)->0.get("parameters"@)->0.get("required"@) == Some(
            JsonV::Arr(seq![JsonV::Str("name"@), JsonV::Str("content"@)]),
        ),
        list_tool().get("function"@)->0.get("parameters"@)->0.get("required"@) is None,
{
    let one = JsonV::object().with("name"@, name_param());
    let two = one.with("content"@, param_value("string"@, "the memory as markdown"@));
    let needed = JsonV::Arr(seq![JsonV::Str("name"@), JsonV::Str("content"@)]);
    lemma_required(one, one_name("name"@));
    lemma_required(two, needed);
    lemma_required(JsonV::object(), needed);
    law_a_tool_is_offered_in_full(
        "list_memories"@,
        "List the names of the memories saved in this chat. The system prompt lists them as of the start of this conversation; call this for the current list."@,
        params_value(JsonV::object()),
    );
    law_a_tool_is_offered_in_full(
        "read_memory"@,
        "Read one saved memory by name."@,
        params_value(one).with("required"@, one_name("name"@)),
    );
    law_a_tool_is_offered_in_full(
        "save_memory"@,
        "Save a memory for later conversations in this chat, replacing any memory with the same name. Each memory covers exactly one aspect. To add to an aspect that already has a memory, read it and save the combined text under the same name rather than starting a second one."@,
        params_value(two).with("required"@, needed),
    );
    law_a_tool_is_offered_in_full(
        "delete_memory"@,
        "Delete a saved memory that is wrong or no longer needed."@,
        params_value(one).with("required"@, one_name("name"@)),
    );
}

proof fn lemma_required(all: JsonV, needed: JsonV)
    ensures
        params_value(all).get("required"@) is None,
        params_value(all).with("required"@, needed).get("required"@) == Some(needed),
{
    law_parameters_are_described("object"@, "object"@, all);
    lemma_field_with(params_value(all), "required"@, needed, "required"@);
}

/// Names go in the order of their characters: one comes before another where the first
/// character in which they differ does, or where it is the beginning of the other.
pub proof fn law_the_order_of_names(a: Seq<char>, b: Seq<char>, k: int)
    requires
        0 <= k <= a.len(),
        k <= b.len(),
        forall|i: int| 0 <= i < k ==> #[trigger] a[i] == b[i],
    ensures
        k < a.len() && k < b.len() && a[k] < b[k] ==> not_after(a, b) && !not_after(b, a),
        k == a.len() ==> not_after(a, b),
        k == a.len() && k < b.len() ==> !not_after(b, a),
    decreases k,
{
    if k > 0 {
        assert(a[0] == b[0]);
        assert forall|i: int| 0 <= i < k - 1 implies #[trigger] a.skip(1)[i] == b.skip(1)[i] by {
            assert(a[i + 1] == b[i + 1]);
        }
        law_the_order_of_names(a.skip(1), b.skip(1), k - 1);
    }
}

} // verus!
