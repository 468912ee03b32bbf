//! The tools offered to the model, and the attachments it can ask for.
use vstd::prelude::*;

use crate::ai::{arg_in, arg_of, indexable, NotIndexable, ToolCall};
use crate::attachment::{
    attachments, bytes_opt, lemma_attachments_push, same_bytes, Attachment, AttachmentV,
};
use crate::config::Config;
use crate::ids::{ServiceId, Thread};
use crate::images::{encode_image, image_pair, png_bytes};
use crate::json::{
    json_opt, json_value, jsons, law_three_fields, law_two_fields, text_in, Json, JsonV,
};
use crate::media::{Media, MediaV};
use crate::text::{
    before_char, begins, copy, decimal, decimal_text, ends, ends_with, fit, fit_text, fits, join,
    joined, law_trimmed_is_unique, law_until_the_first, law_what_fits_is_as_long_as_may_be,
    lemma_texts_push, lossy, lossy_text, lowered, same_ignoring_case, same_text,
    starts_with, texts, trim, trimmed, until, utf8_len,
};

verus! {

/// What an attachment is to the model.
#[derive(Clone, Copy, PartialEq, Eq, Structural)]
pub enum Kind {
    Image,
    Audio,
    Text,
    Document,
}

/// The content types outside `text/` that are text all the same.
pub open spec fn text_format(m: Seq<char>) -> bool {
    ||| m == "application/json"@
    ||| m == "application/xml"@
    ||| m == "application/yaml"@
    ||| m == "application/x-yaml"@
    ||| m == "application/toml"@
    ||| m == "application/x-ndjson"@
    ||| m == "application/javascript"@
    ||| m == "application/sql"@
    ||| m == "application/x-sh"@
    ||| ends(m, "+json"@)
    ||| ends(m, "+xml"@)
}

/// The kind of a content type, its parameters set aside.
pub open spec fn kind(mime: Seq<char>) -> Option<Kind> {
    let m = trimmed(until(mime, ';'));
    if begins(m, "image/"@) {
        Some(Kind::Image)
    } else if begins(m, "audio/"@) {
        Some(Kind::Audio)
    } else if begins(m, "text/"@) || text_format(m) {
        Some(Kind::Text)
    } else if m == "application/pdf"@ {
        Some(Kind::Document)
    } else {
        None
    }
}

fn is_text_format(m: &str) -> (r: bool)
    ensures
        r == text_format(m@),
{
    same_text(m, "application/json") || same_text(m, "application/xml") || same_text(
        m,
        "application/yaml",
    ) || same_text(m, "application/x-yaml") || same_text(m, "application/toml") || same_text(
        m,
        "application/x-ndjson",
    ) || same_text(m, "application/javascript") || same_text(m, "application/sql") || same_text(
        m,
        "application/x-sh",
    ) || ends_with(m, "+json") || ends_with(m, "+xml")
}

/// The kind of a content type, which may carry parameters, e.g.
/// "text/plain; charset=utf-8".
pub fn kind_of(mime: &str) -> (r: Option<Kind>)
    ensures
        r == kind(mime@),
{
    let essence = before_char(mime, ';');
    let m = trim(&essence);
    if starts_with(&m, "image/") {
        Some(Kind::Image)
    } else if starts_with(&m, "audio/") {
        Some(Kind::Audio)
    } else if starts_with(&m, "text/") || is_text_format(&m) {
        Some(Kind::Text)
    } else if same_text(&m, "application/pdf") {
        Some(Kind::Document)
    } else {
        None
    }
}

/// The attachments of one kind, in order.
pub open spec fn kept_of_kind(atts: Seq<AttachmentV>, k: Kind) -> Seq<AttachmentV>
    decreases atts.len(),
{
    if atts.len() == 0 {
        Seq::empty()
    } else {
        let rest = kept_of_kind(atts.drop_last(), k);
        if kind(atts.last().mime()) == Some(k) {
            rest.push(atts.last())
        } else {
            rest
        }
    }
}

/// The attachments of one kind, in order.
pub fn of_kind(atts: &[Attachment], k: Kind) -> (r: Vec<Attachment>)
    ensures
        attachments(r@) == kept_of_kind(attachments(atts@), k),
{
    broadcast use lemma_attachments_push;

    let mut out: Vec<Attachment> = Vec::new();
    let ghost all = attachments(atts@);
    assert(all.take(0) =~= Seq::empty());
    for i in 0..atts.len()
        invariant
            all == attachments(atts@),
            attachments(out@) == kept_of_kind(all.take(i as int), k),
    {
        assert(all.take(i + 1).drop_last() =~= all.take(i as int));
        let mime = atts[i].mime();
        let wanted = match kind_of(&mime) {
            Some(found) => found == k,
            None => false,
        };
        if wanted {
            out.push(atts[i].copy());
        }
    }
    assert(all.take(all.len() as int) =~= all);
    out
}

/// Signal gives every upload its own digest, so the same file quoted from
/// outside the window is recognised as one already numbered. Without a digest
/// there is nothing to compare, so it counts as a new attachment.
pub fn same_file(a: &Attachment, b: &Attachment) -> (r: bool)
    ensures
        r == a@.same_file(b@),
{
    match (&a.digest, &b.digest) {
        (Some(x), Some(y)) => same_bytes(x, y),
        _ => false,
    }
}

/// How many tenths of a mebibyte `bytes` is, to the nearest one; halfway between
/// two, the even one.
pub open spec fn tenths_of_mib(bytes: int) -> int {
    let whole = bytes * 10 / 1048576;
    let rest = bytes * 10 % 1048576;
    if rest > 524288 || (rest == 524288 && whole % 2 == 1) {
        whole + 1
    } else {
        whole
    }
}

/// A size for people: mebibytes with one decimal place, whole kibibytes, or
/// bytes.
pub open spec fn size_text(bytes: nat) -> Seq<char> {
    if bytes >= 1048576 {
        let t = tenths_of_mib(bytes as int);
        decimal((t / 10) as nat) + "."@ + decimal((t % 10) as nat) + "MB"@
    } else if bytes >= 1024 {
        decimal(bytes / 1024) + "KB"@
    } else {
        decimal(bytes) + "B"@
    }
}

/// A size for people: "2.1MB", "56KB", "12B".
pub fn human_size(bytes: u32) -> (r: String)
    ensures
        r@ == size_text(bytes as nat),
{
    let b: u64 = bytes as u64;
    if b >= 1048576 {
        let whole: u64 = b * 10 / 1048576;
        let rest: u64 = b * 10 % 1048576;
        let t: u64 = if rest > 524288 || (rest == 524288 && whole % 2 == 1) {
            whole + 1
        } else {
            whole
        };
        let mut s = decimal_text(t / 10);
        s.append(".");
        s.append(&decimal_text(t % 10));
        s.append("MB");
        s
    } else if b >= 1024 {
        let mut s = decimal_text(b / 1024);
        s.append("KB");
        s
    } else {
        let mut s = decimal_text(b);
        s.append("B");
        s
    }
}

/// Whether the attachments being announced are also attached to the same turn.
#[derive(Clone, Copy, PartialEq, Eq, Structural)]
pub enum Inline {
    Shown,
    Listed,
}

/// An attachment the model has been told about and may ask for by id.
pub struct Entry {
    pub ptr: Attachment,
    pub mime: String,
}

/// The attachments named in the conversation so far, addressed by 1-based id.
/// Ids are positions in `entries`, so it is only ever appended to: a continued
/// conversation keeps addressing each attachment by the id it was already shown.
pub struct Catalog {
    pub entries: Vec<Entry>,
}

/// The attachments of a list of entries.
pub open spec fn entry_ptrs(v: Seq<Entry>) -> Seq<AttachmentV> {
    Seq::new(v.len(), |i: int| v[i].ptr@)
}

impl View for Catalog {
    type V = Seq<AttachmentV>;

    /// The attachments by id, the one with id 1 first.
    open spec fn view(&self) -> Seq<AttachmentV> {
        entry_ptrs(self.entries@)
    }
}

/// The position of the first entry that is the same file as `a`; the number of
/// entries where none is.
pub open spec fn slot(entries: Seq<AttachmentV>, a: AttachmentV) -> int
    decreases entries.len(),
{
    if entries.len() == 0 || entries[0].same_file(a) {
        0
    } else {
        1 + slot(entries.skip(1), a)
    }
}

/// The entries once `a` has one.
pub open spec fn entered(entries: Seq<AttachmentV>, a: AttachmentV) -> Seq<AttachmentV> {
    if slot(entries, a) < entries.len() {
        entries
    } else {
        entries.push(a)
    }
}

/// The entries once each of `atts` has one, in order.
pub open spec fn all_entered(entries: Seq<AttachmentV>, atts: Seq<AttachmentV>) -> Seq<AttachmentV>
    decreases atts.len(),
{
    if atts.len() == 0 {
        entries
    } else {
        entered(all_entered(entries, atts.drop_last()), atts.last())
    }
}

/// How one attachment is listed under its id: type, name, size, and whether it
/// cannot be read or is already in the turn.
pub open spec fn label(cfg: Config, id: nat, a: AttachmentV, inline: Inline) -> Seq<char> {
    let head = "#"@ + decimal(id) + " "@ + a.mime();
    let named = match a.name() {
        Some(n) => head + " "@ + n,
        None => head,
    };
    let sized = match a.size {
        Some(n) => named + " "@ + size_text(n as nat),
        None => named,
    };
    if !cfg.loads(a.mime()) {
        sized + " (unreadable)"@
    } else if inline == Inline::Shown && cfg.inlines(a.mime()) {
        sized + " (shown above)"@
    } else {
        sized
    }
}

/// How each of `atts` is listed, each under the id it has or gets in turn.
pub open spec fn labels(
    cfg: Config,
    entries: Seq<AttachmentV>,
    atts: Seq<AttachmentV>,
    inline: Inline,
) -> Seq<Seq<char>>
    decreases atts.len(),
{
    if atts.len() == 0 {
        Seq::empty()
    } else {
        let before = all_entered(entries, atts.drop_last());
        labels(cfg, entries, atts.drop_last(), inline).push(
            label(cfg, (slot(before, atts.last()) + 1) as nat, atts.last(), inline),
        )
    }
}

/// The annotation for `atts`; empty where there are none.
pub open spec fn announcement(
    cfg: Config,
    entries: Seq<AttachmentV>,
    atts: Seq<AttachmentV>,
    inline: Inline,
) -> Seq<char> {
    if atts.len() == 0 {
        Seq::empty()
    } else {
        "[attachments: "@ + joined(labels(cfg, entries, atts, inline), ", "@) + "]"@
    }
}

/// What `slot` gives back is the first of all.
pub proof fn lemma_slot(entries: Seq<AttachmentV>, a: AttachmentV)
    ensures
        0 <= slot(entries, a) <= entries.len(),
        slot(entries, a) < entries.len() ==> entries[slot(entries, a)].same_file(a),
        forall|j: int| 0 <= j < slot(entries, a) ==> !(#[trigger] entries[j]).same_file(a),
    decreases entries.len(),
{
    if entries.len() == 0 || entries[0].same_file(a) {
    } else {
        lemma_slot(entries.skip(1), a);
        let n = slot(entries.skip(1), a);
        assert forall|j: int| 0 <= j < n + 1 implies !(#[trigger] entries[j]).same_file(a) by {
            if j > 0 {
                assert(entries.skip(1)[j - 1] == entries[j]);
            }
        }
    }
}

impl Default for Catalog {
    fn default() -> (r: Catalog)
        ensures
            r.wf(),
            r@ == Seq::<AttachmentV>::empty(),
    {
        let r = Catalog { entries: Vec::new() };
        assert(r@ =~= Seq::<AttachmentV>::empty());
        r
    }
}

impl Catalog {
    /// Every entry keeps the content type of its attachment.
    pub open spec fn wf(&self) -> bool {
        forall|i: int|
            0 <= i < self.entries@.len() ==> (#[trigger] self.entries@[i]).mime@
                == self.entries@[i].ptr@.mime()
    }

    /// The position of the first entry that is the same file as `a`; the number
    /// of entries where none is.
    fn position(&self, a: &Attachment) -> (r: usize)
        ensures
            r == slot(self@, a@),
            r <= self.entries@.len(),
    {
        let mut i: usize = 0;
        assert(self@.skip(0) =~= self@);
        while i < self.entries.len()
            invariant
                i <= self.entries@.len(),
                slot(self@, a@) == i + slot(self@.skip(i as int), a@),
            decreases self.entries@.len() - i,
        {
            assert(self@.skip(i as int)[0] == self@[i as int]);
            assert(self@.skip(i as int).skip(1) =~= self@.skip(i + 1));
            if same_file(&self.entries[i].ptr, a) {
                return i;
            }
            i += 1;
        }
        assert(self@.skip(i as int).len() == 0);
        i
    }

    /// Lists and numbers every attachment, marking the unreadable ones and,
    /// where they are shown, the ones this turn already carries.
    pub fn announce(&mut self, cfg: &Config, atts: &[Attachment], inline: Inline) -> (r: String)
        requires
            old(self).wf(),
        ensures
            final(self).wf(),
            final(self)@ == all_entered(old(self)@, attachments(atts@)),
            r@ == announcement(*cfg, old(self)@, attachments(atts@), inline),
    {
        broadcast use lemma_texts_push;

        let ghost all = attachments(atts@);
        let ghost start = self@;
        let mut listed: Vec<String> = Vec::new();
        assert(all.take(0) =~= Seq::empty());
        assert(texts(listed@) =~= Seq::empty());
        for i in 0..atts.len()
            invariant
                all == attachments(atts@),
                start == old(self)@,
                self.wf(),
                self@ == all_entered(start, all.take(i as int)),
                texts(listed@) == labels(*cfg, start, all.take(i as int), inline),
        {
            assert(all.take(i + 1).drop_last() =~= all.take(i as int));
            let ptr = &atts[i];
            let mime = ptr.mime();
            let at = self.position(ptr);
            let ghost before = self@;
            if at == self.entries.len() {
                self.entries.push(Entry { ptr: ptr.copy(), mime: mime.clone() });
                assert(self@ =~= before.push(ptr@));
            }
            assert(at < self.entries.len());
            let mut s = String::new();
            s.append("#");
            s.append(&decimal_text(at as u64 + 1));
            s.append(" ");
            s.append(&mime);
            if let Some(name) = ptr.name() {
                s.append(" ");
                s.append(&name);
            }
            if let Some(size) = ptr.size {
                s.append(" ");
                s.append(&human_size(size));
            }
            if !cfg.can_load(&mime) {
                s.append(" (unreadable)");
            } else if inline == Inline::Shown && cfg.sent_inline(&mime) {
                s.append(" (shown above)");
            }
            assert(s@ =~= label(*cfg, (at + 1) as nat, ptr@, inline));
            listed.push(s);
        }
        assert(all.take(all.len() as int) =~= all);
        if atts.len() == 0 {
            return String::new();
        }
        let mut out = String::new();
        out.append("[attachments: ");
        out.append(&join(&listed, ", "));
        out.append("]");
        assert(out@ =~= announcement(*cfg, start, all, inline));
        out
    }

    /// The same catalog again.
    pub fn copy(&self) -> (r: Catalog)
        ensures
            r@ == self@,
            self.wf() ==> r.wf(),
    {
        let mut entries: Vec<Entry> = Vec::new();
        for i in 0..self.entries.len()
            invariant
                entries@.len() == i,
                forall|j: int|
                    0 <= j < i ==> (#[trigger] entries@[j]).ptr@ == self.entries@[j].ptr@
                        && entries@[j].mime@ == self.entries@[j].mime@,
        {
            entries.push(
                Entry { ptr: self.entries[i].ptr.copy(), mime: self.entries[i].mime.clone() },
            );
        }
        let r = Catalog { entries };
        assert(r@ =~= self@);
        r
    }

    /// Which ids there are, for a caller that asked for another.
    pub fn valid_ids(&self) -> (r: String)
        ensures
            r@ == ids_text(self@.len()),
    {
        let n = self.entries.len();
        if n == 0 {
            copy("there are no attachments in this conversation")
        } else if n == 1 {
            copy("the only id is 1")
        } else {
            let mut r = copy("valid ids are 1 to ");
            r.append(&decimal_text(n as u64));
            r
        }
    }

    /// The entry with the given id.
    pub fn get(&self, id: u64) -> (r: Option<&Entry>)
        ensures
            match r {
                Some(e) => 1 <= id <= self@.len() && e.ptr@ == self@[id - 1] && (self.wf()
                    ==> e.mime@ == self@[id - 1].mime()),
                None => !(1 <= id <= self@.len()),
            },
    {
        if id >= 1 && id - 1 < self.entries.len() as u64 {
            Some(&self.entries[(id - 1) as usize])
        } else {
            None
        }
    }
}

/// Which ids there are, of `n` attachments.
pub open spec fn ids_text(n: nat) -> Seq<char> {
    if n == 0 {
        "there are no attachments in this conversation"@
    } else if n == 1 {
        "the only id is 1"@
    } else {
        "valid ids are 1 to "@ + decimal(n)
    }
}

/// Ids are for good: however many attachments are announced after it, an
/// attachment keeps its id.
pub proof fn law_ids_are_for_good(entries: Seq<AttachmentV>, atts: Seq<AttachmentV>)
    ensures
        entries.len() <= all_entered(entries, atts).len() <= entries.len() + atts.len(),
        all_entered(entries, atts).take(entries.len() as int) == entries,
    decreases atts.len(),
{
    if atts.len() > 0 {
        law_ids_are_for_good(entries, atts.drop_last());
        let before = all_entered(entries, atts.drop_last());
        let after = all_entered(entries, atts);
        lemma_slot(before, atts.last());
        assert(after.take(entries.len() as int) =~= before.take(entries.len() as int));
    } else {
        assert(entries.take(entries.len() as int) =~= entries);
    }
}

/// The same file has one id: announcing a file that has one gives it no other.
pub proof fn law_same_file_has_one_id(entries: Seq<AttachmentV>, a: AttachmentV, i: int)
    requires
        0 <= i < entries.len(),
        entries[i].same_file(a),
    ensures
        entered(entries, a) == entries,
        slot(entries, a) <= i,
{
    lemma_slot(entries, a);
}

/// Every announced attachment can then be asked for: its id leads to the same
/// file, or to itself where it has no digest.
pub proof fn law_announced_can_be_loaded(entries: Seq<AttachmentV>, a: AttachmentV)
    ensures
        slot(entries, a) < entered(entries, a).len(),
        entered(entries, a)[slot(entries, a)] == a || entered(entries, a)[slot(
            entries,
            a,
        )].same_file(a),
{
    lemma_slot(entries, a);
}

/// The id that the attachment at a position is listed under.
pub open spec fn id_at(entries: Seq<AttachmentV>, atts: Seq<AttachmentV>, i: int) -> int {
    slot(all_entered(entries, atts.take(i)), atts[i]) + 1
}

/// Every attachment is listed, each on its own and in its place, under an id by which
/// it can then be asked for.
pub proof fn law_every_attachment_is_listed(
    cfg: Config,
    entries: Seq<AttachmentV>,
    atts: Seq<AttachmentV>,
    inline: Inline,
    i: int,
)
    requires
        0 <= i < atts.len(),
    ensures
        labels(cfg, entries, atts, inline).len() == atts.len(),
        labels(cfg, entries, atts, inline)[i] == label(
            cfg,
            id_at(entries, atts, i) as nat,
            atts[i],
            inline,
        ),
        1 <= id_at(entries, atts, i) <= all_entered(entries, atts).len(),
        all_entered(entries, atts)[id_at(entries, atts, i) - 1] == atts[i] || all_entered(
            entries,
            atts,
        )[id_at(entries, atts, i) - 1].same_file(atts[i]),
    decreases atts.len(),
{
    let head = atts.drop_last();
    let before = all_entered(entries, head);
    lemma_labels_len(cfg, entries, head, inline);
    lemma_slot(before, atts.last());
    if i == atts.len() - 1 {
        assert(atts.take(i) =~= head);
        law_announced_can_be_loaded(before, atts.last());
    } else {
        law_every_attachment_is_listed(cfg, entries, head, inline, i);
        assert(head.take(i) =~= atts.take(i));
    }
}

proof fn lemma_labels_len(
    cfg: Config,
    entries: Seq<AttachmentV>,
    atts: Seq<AttachmentV>,
    inline: Inline,
)
    ensures
        labels(cfg, entries, atts, inline).len() == atts.len(),
    decreases atts.len(),
{
    if atts.len() > 0 {
        lemma_labels_len(cfg, entries, atts.drop_last(), inline);
    }
}

/// What the turn carries anyway is marked.
pub proof fn law_shown_is_marked(cfg: Config, id: nat, a: AttachmentV)
    requires
        cfg.inlines(a.mime()),
    ensures
        ends(label(cfg, id, a, Inline::Shown), " (shown above)"@),
{
    let all = label(cfg, id, a, Inline::Shown);
    let tail = " (shown above)"@;
    assert(all.skip(all.len() - tail.len()) =~= tail);
}

/// What cannot be read is listed all the same, and marked.
pub proof fn law_unreadable_is_marked(cfg: Config, id: nat, a: AttachmentV, inline: Inline)
    requires
        !cfg.loads(a.mime()),
    ensures
        ends(label(cfg, id, a, inline), " (unreadable)"@),
{
    let s = label(cfg, id, a, inline);
    let m = " (unreadable)"@;
    assert(s.skip(s.len() - m.len()) =~= m);
}

/// Text can be read whatever the settings are.
pub proof fn law_text_is_always_readable(cfg: Config, mime: Seq<char>)
    requires
        kind(mime) == Some(Kind::Text),
    ensures
        cfg.loads(mime),
        !cfg.inlines(mime),
{
}

// ---------------------------------------------------------------------------
// what the model is offered

/// A parameter of the given type.
pub open spec fn param_value(kind: Seq<char>, description: Seq<char>) -> JsonV {
    JsonV::object().with("type"@, JsonV::Str(kind)).with("description"@, JsonV::Str(description))
}

/// A parameter of the given type.
pub fn param(kind: &str, description: &str) -> (r: Json)
    ensures
        r@ == param_value(kind@, description@),
{
    Json::object().with("type", Json::text(kind)).with("description", Json::text(description))
}

/// The parameters of a tool, given as an object of them.
pub open spec fn params_value(properties: JsonV) -> JsonV {
    JsonV::object().with("type"@, JsonV::Str("object"@)).with("properties"@, properties)
}

/// The parameters of a tool, given as an object of them.
pub fn params(properties: Json) -> (r: Json)
    ensures
        r@ == params_value(properties@),
{
    Json::object().with("type", Json::text("object")).with("properties", properties)
}

/// The definition of a tool.
pub open spec fn tool_value(name: Seq<char>, description: Seq<char>, parameters: JsonV) -> JsonV {
    JsonV::object().with("type"@, JsonV::Str("function"@)).with(
        "function"@,
        JsonV::object().with("name"@, JsonV::Str(name)).with(
            "description"@,
            JsonV::Str(description),
        ).with("parameters"@, parameters),
    )
}

/// The definition of a tool.
pub fn tool(name: &str, description: &str, parameters: Json) -> (r: Json)
    ensures
        r@ == tool_value(name@, description@, parameters@),
{
    Json::object().with("type", Json::text("function")).with(
        "function",
        Json::object().with("name", Json::text(name)).with(
            "description",
            Json::text(description),
        ).with("parameters", parameters),
    )
}

/// A list of one name.
pub open spec fn one_name(name: Seq<char>) -> JsonV {
    JsonV::Arr(seq![JsonV::Str(name)])
}

/// A list of one name.
pub fn name_list(name: &str) -> (r: Json)
    ensures
        r@ == one_name(name@),
{
    let mut v: Vec<Json> = Vec::new();
    v.push(Json::text(name));
    assert(jsons(v@) =~= seq![JsonV::Str(name@)]);
    Json::array(v)
}

pub open spec fn avatar_tool() -> JsonV {
    tool_value(
        "load_avatar"@,
        "Look at someone's profile picture, or the group's own picture. Takes a display name exactly as it appears in this chat."@,
        params_value(
            JsonV::object().with(
                "name"@,
                param_value("string"@, "the person's display name, or the group's title"@),
            ),
        ).with("required"@, one_name("name"@)),
    )
}

pub open spec fn attachment_tool() -> JsonV {
    tool_value(
        "load_attachment"@,
        "Load an attachment from this chat so you can see, hear or read it. Attachments are listed in the messages as [attachments: #id type name size]. Only call this for an id that appears in the conversation."@,
        params_value(
            JsonV::object().with(
                "id"@,
                param_value(
                    "integer"@,
                    "the id shown after # in the attachments annotation"@,
                ),
            ),
        ).with("required"@, one_name("id"@)),
    )
}

/// The tools that are always on offer.
pub fn definitions() -> (r: Vec<Json>)
    ensures
        jsons(r@) == seq![avatar_tool(), attachment_tool()],
{
    let mut out: Vec<Json> = Vec::new();
    out.push(
        tool(
            "load_avatar",
            "Look at someone's profile picture, or the group's own picture. Takes a display name exactly as it appears in this chat.",
            params(
                Json::object().with(
                    "name",
                    param("string", "the person's display name, or the group's title"),
                ),
            ).with("required", name_list("name")),
        ),
    );
    out.push(
        tool(
            "load_attachment",
            "Load an attachment from this chat so you can see, hear or read it. Attachments are listed in the messages as [attachments: #id type name size]. Only call this for an id that appears in the conversation.",
            params(
                Json::object().with(
                    "id",
                    param("integer", "the id shown after # in the attachments annotation"),
                ),
            ).with("required", name_list("id")),
        ),
    );
    assert(jsons(out@) =~= seq![avatar_tool(), attachment_tool()]);
    out
}

// ---------------------------------------------------------------------------
// what a call comes to

/// What one tool call produced: the text handed back as the tool result, plus any
/// media that has to travel in a separate user turn (a tool result is text-only).
pub struct ToolResult {
    pub content: String,
    pub media: Option<Media>,
}

/// The mathematical model of a tool's result.
pub struct ToolResultV {
    pub content: Seq<char>,
    pub media: Option<MediaV>,
}

impl View for ToolResult {
    type V = ToolResultV;

    open spec fn view(&self) -> ToolResultV {
        ToolResultV {
            content: self.content@,
            media: match self.media {
                Some(m) => Some(m@),
                None => None,
            },
        }
    }
}

impl ToolResultV {
    pub open spec fn text(content: Seq<char>) -> ToolResultV {
        ToolResultV { content, media: None }
    }
}

impl ToolResult {
    /// A result that is text alone.
    pub fn text(content: String) -> (r: ToolResult)
        ensures
            r@ == ToolResultV::text(content@),
    {
        ToolResult { content, media: None }
    }
}

/// What a tool call asks to be done.
pub enum Action {
    /// nothing: this is the answer
    Answer(String),
    /// fetch the attachment and read it as text
    LoadText(u64, Attachment),
    /// fetch the attachment and encode it
    LoadMedia(u64, Attachment),
    /// look for the picture of who goes by this name
    LoadAvatar(String),
}

/// The mathematical model of what a tool call asks to be done.
pub enum ActionV {
    Answer(Seq<char>),
    LoadText(u64, AttachmentV),
    LoadMedia(u64, AttachmentV),
    LoadAvatar(Seq<char>),
}

impl View for Action {
    type V = ActionV;

    open spec fn view(&self) -> ActionV {
        match self {
            Action::Answer(s) => ActionV::Answer(s@),
            Action::LoadText(id, a) => ActionV::LoadText(*id, a@),
            Action::LoadMedia(id, a) => ActionV::LoadMedia(*id, a@),
            Action::LoadAvatar(s) => ActionV::LoadAvatar(s@),
        }
    }
}

/// The arguments of a call of this name are looked at.
pub open spec fn reads_args(cfg: Config, name: Seq<char>) -> bool {
    if name == "load_avatar"@ {
        cfg.vision
    } else {
        name == "load_attachment"@
    }
}

/// What a call of `load_avatar` asks to be done.
pub open spec fn avatar_action(cfg: Config, args: Option<JsonV>) -> ActionV {
    if !cfg.vision {
        ActionV::Answer("error: I can't see images"@)
    } else {
        match text_in(arg_in(args, "name"@)) {
            Some(wanted) => ActionV::LoadAvatar(wanted),
            None => ActionV::Answer("error: expected a `name` argument"@),
        }
    }
}

/// What a call of `load_attachment` asks to be done.
pub open spec fn attachment_action(
    cfg: Config,
    catalog: Seq<AttachmentV>,
    args: Option<JsonV>,
) -> ActionV {
    match arg_in(args, "id"@) {
        Some(JsonV::Uint(id)) => if !(1 <= id <= catalog.len()) {
            ActionV::Answer(
                "error: no attachment #"@ + decimal(id as nat) + " — "@ + ids_text(catalog.len())
                    + ". Don't retry with a guess."@,
            )
        } else {
            let a = catalog[id - 1];
            if !cfg.loads(a.mime()) {
                ActionV::Answer(
                    "error: attachment #"@ + decimal(id as nat) + " is "@ + a.mime()
                        + " and cannot be read"@,
                )
            } else if kind(a.mime()) == Some(Kind::Text) {
                ActionV::LoadText(id, a)
            } else {
                ActionV::LoadMedia(id, a)
            }
        },
        _ => ActionV::Answer("error: expected an integer `id` argument"@),
    }
}

/// What a call asks to be done.
pub open spec fn action_of(
    cfg: Config,
    catalog: Seq<AttachmentV>,
    name: Seq<char>,
    args: Option<JsonV>,
) -> ActionV {
    if name == "load_avatar"@ {
        avatar_action(cfg, args)
    } else if name == "load_attachment"@ {
        attachment_action(cfg, catalog, args)
    } else {
        ActionV::Answer("error: no tool named "@ + name)
    }
}

fn load_avatar(cfg: &Config, args: &Option<Json>) -> (r: Action)
    requires
        cfg.vision ==> indexable(json_opt(*args)),
    ensures
        r@ == avatar_action(*cfg, json_opt(*args)),
{
    if !cfg.vision {
        return Action::Answer(copy("error: I can't see images"));
    }
    if let Some(v) = arg_of(args, "name") {
        if let Some(wanted) = v.as_str() {
            return Action::LoadAvatar(copy(wanted));
        }
    }
    Action::Answer(copy("error: expected a `name` argument"))
}

fn load_attachment(cfg: &Config, catalog: &Catalog, args: &Option<Json>) -> (r: Action)
    requires
        catalog.wf(),
        indexable(json_opt(*args)),
    ensures
        r@ == attachment_action(*cfg, catalog@, json_opt(*args)),
{
    let given = match arg_of(args, "id") {
        Some(v) => v.as_u64(),
        None => None,
    };
    let id = match given {
        Some(id) => id,
        None => {
            return Action::Answer(copy("error: expected an integer `id` argument"));
        },
    };
    match catalog.get(id) {
        Some(entry) => if !cfg.can_load(&entry.mime) {
            let mut s = copy("error: attachment #");
            s.append(&decimal_text(id));
            s.append(" is ");
            s.append(&entry.mime);
            s.append(" and cannot be read");
            Action::Answer(s)
        } else {
            match kind_of(&entry.mime) {
                Some(Kind::Text) => Action::LoadText(id, entry.ptr.copy()),
                _ => Action::LoadMedia(id, entry.ptr.copy()),
            }
        },
        None => {
            let mut s = copy("error: no attachment #");
            s.append(&decimal_text(id));
            s.append(" — ");
            s.append(&catalog.valid_ids());
            s.append(". Don't retry with a guess.");
            Action::Answer(s)
        },
    }
}

/// What a call asks to be done, its arguments parsed.
pub fn dispatch_parsed(cfg: &Config, catalog: &Catalog, name: &str, args: &Option<Json>) -> (r:
    Action)
    requires
        catalog.wf(),
        reads_args(*cfg, name@) ==> indexable(json_opt(*args)),
    ensures
        r@ == action_of(*cfg, catalog@, name@, json_opt(*args)),
{
    if same_text(name, "load_avatar") {
        return load_avatar(cfg, args);
    }
    if !same_text(name, "load_attachment") {
        let mut s = copy("error: no tool named ");
        s.append(name);
        return Action::Answer(s);
    }
    load_attachment(cfg, catalog, args)
}

/// What a call asks to be done. Where its arguments are looked at, they have to be
/// some in which a name can be looked up.
pub fn dispatch(cfg: &Config, catalog: &Catalog, call: &ToolCall) -> (r: Action)
    requires
        catalog.wf(),
        reads_args(*cfg, call@.name) ==> indexable(json_value(call@.arguments)),
    ensures
        r@ == action_of(*cfg, catalog@, call@.name, json_value(call@.arguments)),
{
    let args = call.parsed();
    dispatch_parsed(cfg, catalog, &call.name, &args)
}

/// What a call asks to be done, for any call.
pub fn try_dispatch(cfg: &Config, catalog: &Catalog, call: &ToolCall) -> (r: Result<
    Action,
    NotIndexable,
>)
    requires
        catalog.wf(),
    ensures
        match r {
            Ok(a) => (reads_args(*cfg, call@.name) ==> indexable(json_value(call@.arguments)))
                && a@ == action_of(*cfg, catalog@, call@.name, json_value(call@.arguments)),
            Err(_) => reads_args(*cfg, call@.name) && !indexable(json_value(call@.arguments)),
        },
{
    let reads = if same_text(&call.name, "load_avatar") {
        cfg.vision
    } else {
        same_text(&call.name, "load_attachment")
    };
    let ok = match call.parsed() {
        Some(Json::Null) => true,
        Some(Json::Obj(_)) => true,
        Some(_) => false,
        None => true,
    };
    if reads && !ok {
        Err(NotIndexable)
    } else {
        Ok(dispatch(cfg, catalog, call))
    }
}

/// Nothing is loaded but what the model was shown, and only what it can be given.
pub proof fn law_only_listed_attachments_are_loaded(
    cfg: Config,
    catalog: Seq<AttachmentV>,
    name: Seq<char>,
    args: Option<JsonV>,
)
    ensures
        match action_of(cfg, catalog, name, args) {
            ActionV::LoadText(id, a) => 1 <= id <= catalog.len() && a == catalog[id - 1]
                && cfg.loads(a.mime()) && kind(a.mime()) == Some(Kind::Text),
            ActionV::LoadMedia(id, a) => 1 <= id <= catalog.len() && a == catalog[id - 1]
                && cfg.inlines(a.mime()),
            ActionV::LoadAvatar(_) => cfg.vision,
            ActionV::Answer(_) => true,
        },
{
}

/// How much of a text attachment is handed on, in bytes.
pub const MAX_TEXT_BYTES: usize = 32_768;

/// The text of an attachment, cut on a character boundary where it is too long.
pub open spec fn shortened(text: Seq<char>) -> Seq<char> {
    if utf8_len(text) <= MAX_TEXT_BYTES {
        text
    } else {
        fit(text, MAX_TEXT_BYTES as nat) + "\n[truncated]"@
    }
}

/// The text of an attachment, cut where it is too long.
pub fn truncated_text(bytes: &[u8]) -> (r: String)
    ensures
        r@ == shortened(lossy(bytes@)),
{
    let text = lossy_text(bytes);
    if fits(&text, 32_768) {
        return text;
    }
    let mut r = fit_text(&text, 32_768);
    r.append("\n[truncated]");
    r
}

/// What is said of an attachment that could not be fetched.
pub open spec fn not_loaded(id: u64) -> Seq<char> {
    "error: attachment #"@ + decimal(id as nat) + " could not be loaded"@
}

fn not_loaded_text(id: u64) -> (r: String)
    ensures
        r@ == not_loaded(id),
{
    let mut s = copy("error: attachment #");
    s.append(&decimal_text(id));
    s.append(" could not be loaded");
    s
}

/// What a call for a text comes to, given what was fetched.
pub open spec fn text_result(id: u64, fetched: Option<Seq<u8>>) -> ToolResultV {
    ToolResultV::text(
        match fetched {
            Some(b) => if b.len() > 0 {
                shortened(lossy(b))
            } else {
                not_loaded(id)
            },
            None => not_loaded(id),
        },
    )
}

/// The result of a call, once the attachment has been fetched to be read as text,
/// or could not be. One that comes back empty counts as not fetched.
pub fn text_loaded(id: u64, fetched: Option<Vec<u8>>) -> (r: ToolResult)
    ensures
        r@ == text_result(id, bytes_opt(fetched)),
{
    match fetched {
        Some(b) => if b.len() > 0 {
            ToolResult::text(truncated_text(&b))
        } else {
            ToolResult::text(not_loaded_text(id))
        },
        None => ToolResult::text(not_loaded_text(id)),
    }
}

/// What a call for media comes to, given what could be encoded.
pub open spec fn media_result(id: u64, media: MediaV) -> ToolResultV {
    if media.is_empty() {
        ToolResultV::text(not_loaded(id))
    } else {
        ToolResultV {
            content: "attachment #"@ + decimal(id as nat) + " follows"@,
            media: Some(media),
        }
    }
}

/// The result of a call, once the attachment has been fetched and encoded, or
/// could not be.
pub fn media_loaded(id: u64, media: Media) -> (r: ToolResult)
    ensures
        r@ == media_result(id, media@),
{
    if media.is_empty() {
        return ToolResult::text(not_loaded_text(id));
    }
    let mut s = copy("attachment #");
    s.append(&decimal_text(id));
    s.append(" follows");
    ToolResult { content: s, media: Some(media) }
}

/// The result of a call for the picture of `wanted`, given the picture as (mime,
/// base64), if it is readable.
pub open spec fn picture_result(wanted: Seq<char>, image: Option<(Seq<char>, Seq<char>)>) -> ToolResultV {
    match image {
        Some(pair) => ToolResultV {
            content: wanted + "'s picture follows"@,
            media: Some(
                MediaV { images: seq![pair], audio: Seq::empty(), files: Seq::empty() },
            ),
        },
        None => ToolResultV::text("error: the picture for \""@ + wanted + "\" is unreadable"@),
    }
}

/// The result of a call for the picture of `wanted`, given the picture as (mime,
/// base64), if it is readable.
pub fn picture_loaded(wanted: &str, image: Option<(String, String)>) -> (r: ToolResult)
    ensures
        r@ == picture_result(wanted@, crate::images::pair_opt(image)),
{
    match image {
        Some(pair) => {
            let mut s = copy(wanted);
            s.append("'s picture follows");
            let mut media = Media::default();
            media.images.push(pair);
            assert(media@.images =~= seq![(pair.0@, pair.1@)]);
            ToolResult { content: s, media: Some(media) }
        },
        None => {
            let mut s = copy("error: the picture for \"");
            s.append(wanted);
            s.append("\" is unreadable");
            ToolResult::text(s)
        },
    }
}

/// What a call for a picture comes to, given what was found.
pub open spec fn avatar_result(wanted: Seq<char>, found: Option<(Seq<char>, Seq<u8>)>) -> ToolResultV {
    match found {
        Some((mime, bytes)) => picture_result(wanted, image_pair(mime, bytes, png_bytes(bytes))),
        None => ToolResultV::text("error: no picture for \""@ + wanted + "\" in this chat"@),
    }
}

/// The result of a call for the picture of `wanted`, given the picture that was
/// found, if any, with its type. A profile's picture arrives as bare bytes, without
/// a type, so the encoder decides its type.
pub fn avatar_loaded(wanted: &str, found: Option<(String, Vec<u8>)>) -> (r: ToolResult)
    ensures
        r@ == avatar_result(wanted@, crate::media::mime_bytes(found)),
{
    match found {
        Some((mime, bytes)) => picture_loaded(wanted, encode_image(&mime, &bytes)),
        None => {
            let mut s = copy("error: no picture for \"");
            s.append(wanted);
            s.append("\" in this chat");
            ToolResult::text(s)
        },
    }
}

// ---------------------------------------------------------------------------
// whose picture may be looked at

/// The participants of a chat: both sides of a direct one, or the members of a
/// group.
pub open spec fn participants(thread: Thread, my_aci: u128, members: Seq<u128>) -> Seq<ServiceId> {
    match thread {
        Thread::Contact(sid) => seq![sid, ServiceId::Aci(my_aci)],
        Thread::Group(_) => Seq::new(members.len(), |i: int| ServiceId::Aci(members[i])),
    }
}

/// The participants of a chat.
pub fn avatar_people(thread: &Thread, my_aci: u128, members: &Vec<u128>) -> (r: Vec<ServiceId>)
    ensures
        r@ == participants(*thread, my_aci, members@),
{
    let mut people: Vec<ServiceId> = Vec::new();
    let ghost goal = participants(*thread, my_aci, members@);
    match thread {
        Thread::Contact(sid) => {
            people.push(*sid);
            people.push(ServiceId::Aci(my_aci));
            assert(people@ =~= goal);
        },
        Thread::Group(_) => {
            for i in 0..members.len()
                invariant
                    goal.len() == members@.len(),
                    forall|j: int|
                        0 <= j < goal.len() ==> #[trigger] goal[j] == ServiceId::Aci(members@[j]),
                    people@ == goal.take(i as int),
            {
                people.push(ServiceId::Aci(members[i]));
                assert(goal.take(i + 1) =~= goal.take(i as int).push(goal[i as int]));
            }
            assert(goal.take(goal.len() as int) =~= goal);
        },
    }
    people
}

/// A name is the wanted one, but for the case of letters and whitespace around
/// what was asked for.
pub open spec fn is_wanted(name: Seq<char>, wanted: Seq<char>) -> bool {
    lowered(name) == lowered(trimmed(wanted))
}

/// Where a picture may be found.
#[derive(Clone, Copy, PartialEq, Eq, Structural)]
pub enum AvatarPlace {
    /// the group's own picture
    Group,
    /// the profile of an account; our own has no contact record, so its key comes
    /// from the registration
    Profile(ServiceId, bool),
    /// what the contacts hold of an account
    Contact(ServiceId),
}

/// Where the pictures of people may be found who go by the wanted name, in order.
pub open spec fn places_among(
    my_aci: u128,
    people: Seq<(ServiceId, Seq<char>)>,
    wanted: Seq<char>,
) -> Seq<AvatarPlace>
    decreases people.len(),
{
    if people.len() == 0 {
        Seq::empty()
    } else {
        let rest = places_among(my_aci, people.drop_last(), wanted);
        let (id, name) = people.last();
        if is_wanted(name, wanted) {
            rest.push(AvatarPlace::Profile(id, id.uuid() == my_aci)).push(AvatarPlace::Contact(id))
        } else {
            rest
        }
    }
}

/// Where the wanted picture may be found: with the group where it has that title,
/// otherwise with the people who go by that name.
pub open spec fn places(
    title: Option<Seq<char>>,
    my_aci: u128,
    people: Seq<(ServiceId, Seq<char>)>,
    wanted: Seq<char>,
) -> Seq<AvatarPlace> {
    if title is Some && is_wanted(title->0, wanted) {
        seq![AvatarPlace::Group]
    } else {
        places_among(my_aci, people, wanted)
    }
}

/// People with their names.
pub open spec fn named(people: Seq<(ServiceId, String)>) -> Seq<(ServiceId, Seq<char>)> {
    Seq::new(people.len(), |i: int| (people[i].0, people[i].1@))
}

/// Where the wanted picture may be found, in the order in which to look. `title` is
/// that of the chat's group, `people` its participants with their names.
pub fn avatar_places(
    title: &Option<String>,
    my_aci: u128,
    people: &Vec<(ServiceId, String)>,
    wanted: &str,
) -> (r: Vec<AvatarPlace>)
    ensures
        r@ == places(crate::attachment::text_opt(*title), my_aci, named(people@), wanted@),
{
    let name = trim(wanted);
    let mut out: Vec<AvatarPlace> = Vec::new();
    if let Some(t) = title {
        if same_ignoring_case(t, &name) {
            out.push(AvatarPlace::Group);
            assert(out@ =~= seq![AvatarPlace::Group]);
            return out;
        }
    }
    let ghost all = named(people@);
    assert(all.take(0) =~= Seq::empty());
    for i in 0..people.len()
        invariant
            name@ == trimmed(wanted@),
            all == named(people@),
            out@ == places_among(my_aci, all.take(i as int), wanted@),
    {
        assert(all.take(i + 1).drop_last() =~= all.take(i as int));
        let id = people[i].0;
        if same_ignoring_case(&people[i].1, &name) {
            out.push(AvatarPlace::Profile(id, id.raw_uuid() == my_aci));
            out.push(AvatarPlace::Contact(id));
        }
    }
    assert(all.take(all.len() as int) =~= all);
    out
}

/// Who a place is the picture of.
pub open spec fn subject(p: AvatarPlace) -> Option<ServiceId> {
    match p {
        AvatarPlace::Group => None,
        AvatarPlace::Profile(id, _) => Some(id),
        AvatarPlace::Contact(id) => Some(id),
    }
}

proof fn lemma_places_among(
    my_aci: u128,
    people: Seq<(ServiceId, Seq<char>)>,
    wanted: Seq<char>,
    i: int,
)
    requires
        0 <= i < places_among(my_aci, people, wanted).len(),
    ensures
        exists|j: int|
            0 <= j < people.len() && Some((#[trigger] people[j]).0) == subject(
                places_among(my_aci, people, wanted)[i],
            ) && is_wanted(people[j].1, wanted),
    decreases people.len(),
{
    if people.len() > 0 {
        let head = people.drop_last();
        let rest = places_among(my_aci, head, wanted);
        let all = places_among(my_aci, people, wanted);
        if i < rest.len() {
            lemma_places_among(my_aci, head, wanted, i);
            let j = choose|j: int|
                0 <= j < head.len() && Some((#[trigger] head[j]).0) == subject(rest[i])
                    && is_wanted(head[j].1, wanted);
            assert(people[j] == head[j]);
            assert(all[i] == rest[i]);
        } else {
            let j = people.len() - 1;
            assert(Some(people[j].0) == subject(all[i]));
        }
    }
}

/// Only the thread's participants and the group itself are ever looked for, never
/// the rest of the contacts.
pub proof fn law_only_participants_are_looked_for(
    title: Option<Seq<char>>,
    my_aci: u128,
    people: Seq<(ServiceId, Seq<char>)>,
    wanted: Seq<char>,
    i: int,
)
    requires
        0 <= i < places(title, my_aci, people, wanted).len(),
    ensures
        match subject(places(title, my_aci, people, wanted)[i]) {
            Some(id) => exists|j: int|
                0 <= j < people.len() && (#[trigger] people[j]).0 == id && is_wanted(
                    people[j].1,
                    wanted,
                ),
            None => title is Some && is_wanted(title->0, wanted),
        },
{
    if !(title is Some && is_wanted(title->0, wanted)) {
        lemma_places_among(my_aci, people, wanted, i);
        let p = places(title, my_aci, people, wanted)[i];
        let j = choose|j: int|
            0 <= j < people.len() && Some((#[trigger] people[j]).0) == subject(p) && is_wanted(
                people[j].1,
                wanted,
            );
        assert(people[j].0 == subject(p)->0);
    }
}

/// Once attachments are announced, each has an entry that is it or the same file.
pub proof fn lemma_entered_has(entries: Seq<AttachmentV>, atts: Seq<AttachmentV>, k: int)
    requires
        0 <= k < atts.len(),
    ensures
        exists|m: int|
            0 <= m < all_entered(entries, atts).len() && ((#[trigger] all_entered(entries, atts)[m])
                == atts[k] || (all_entered(entries, atts)[m].digest is Some && all_entered(
                entries,
                atts,
            )[m].digest == atts[k].digest)),
    decreases atts.len(),
{
    let head = atts.drop_last();
    let before = all_entered(entries, head);
    let after = all_entered(entries, atts);
    lemma_slot(before, atts.last());
    if k < head.len() {
        lemma_entered_has(entries, head, k);
        let m = choose|m: int|
            0 <= m < before.len() && ((#[trigger] before[m]) == head[k] || (before[m].digest is Some
                && before[m].digest == head[k].digest));
        assert(after[m] == before[m]);
    } else {
        assert(after[slot(before, atts.last())] == atts[k] || after[slot(
            before,
            atts.last(),
        )].digest == atts[k].digest);
    }
}

// ---------------------------------------------------------------------------
// laws

/// What an attachment is goes by its type alone: pictures, recordings, text in any of
/// the forms that people and programs write, and PDF documents. Nothing else is read.
pub proof fn law_what_an_attachment_is(m: Seq<char>)
    requires
        !m.contains(';'),
        m.len() > 0 ==> !crate::text::white(m[0]) && !crate::text::white(m.last()),
    ensures
        kind(m) == Some(Kind::Image) <==> begins(m, "image/"@),
        kind(m) == Some(Kind::Audio) <==> begins(m, "audio/"@),
        kind(m) == Some(Kind::Document) <==> m == "application/pdf"@,
        kind(m) == Some(Kind::Text) <==> !begins(m, "image/"@) && !begins(m, "audio/"@) && (
        begins(m, "text/"@) || m == "application/json"@ || m == "application/xml"@ || m
            == "application/yaml"@ || m == "application/x-yaml"@ || m == "application/toml"@ || m
            == "application/x-ndjson"@ || m == "application/javascript"@ || m
            == "application/sql"@ || m == "application/x-sh"@ || ends(m, "+json"@) || ends(
            m,
            "+xml"@,
        )),
{
    law_until_the_first(m, ';');
    assert(until(m, ';') =~= m) by {
        if until(m, ';').len() < m.len() {
            assert(m.contains(m[until(m, ';').len() as int]));
        }
    }
    law_trimmed_is_unique(Seq::empty(), m, Seq::empty());
    assert(Seq::<char>::empty() + m + Seq::<char>::empty() =~= m);
    assert(trimmed(until(m, ';')) == m);
    reveal_strlit("image/");
    reveal_strlit("audio/");
    reveal_strlit("text/");
    reveal_strlit("application/pdf");
    let p = "application/pdf"@;
    assert(p.len() == 15 && p[0] == 'a' && p[1] == 'p' && p[12] == 'p' && p[14] == 'f');
    assert("image/"@[0] == 'i' && "audio/"@[0] == 'a' && "audio/"@[1] == 'u' && "text/"@[0] == 't');
    if begins(m, "image/"@) {
        assert(m[0] == m.take(6)[0]);
    }
    if begins(m, "audio/"@) {
        assert(m[0] == m.take(6)[0] && m[1] == m.take(6)[1]);
    }
    if begins(m, "text/"@) {
        assert(m[0] == m.take(5)[0]);
    }
    reveal_strlit("application/json");
    reveal_strlit("application/xml");
    reveal_strlit("application/yaml");
    reveal_strlit("application/x-yaml");
    reveal_strlit("application/toml");
    reveal_strlit("application/x-ndjson");
    reveal_strlit("application/javascript");
    reveal_strlit("application/sql");
    reveal_strlit("application/x-sh");
    reveal_strlit("+json");
    reveal_strlit("+xml");
    assert("application/json"@.len() == 16 && "application/yaml"@.len() == 16);
    assert("application/toml"@.len() == 16 && "application/x-sh"@.len() == 16);
    assert("application/x-yaml"@.len() == 18 && "application/x-ndjson"@.len() == 20);
    assert("application/javascript"@.len() == 22);
    assert("application/xml"@[12] == 'x' && "application/sql"@[12] == 's');
    assert("+json"@[4] == 'n' && "+xml"@[3] == 'l');
    if ends(m, "+json"@) {
        assert(m.last() == m.skip(m.len() - 5)[4]);
    }
    if ends(m, "+xml"@) {
        assert(m.last() == m.skip(m.len() - 4)[3]);
    }
}

/// Parameters behind the type say nothing of what an attachment is, nor does whitespace
/// around it.
pub proof fn law_parameters_are_set_aside(a: Seq<char>, m: Seq<char>, b: Seq<char>, rest: Seq<char>)
    requires
        !m.contains(';'),
        m.len() > 0 ==> !crate::text::white(m[0]) && !crate::text::white(m.last()),
        forall|i: int| 0 <= i < a.len() ==> crate::text::white(#[trigger] a[i]),
        forall|i: int| 0 <= i < b.len() ==> crate::text::white(#[trigger] b[i]),
    ensures
        kind(a + m + b) == kind(m),
        kind(a + m + b + ";"@ + rest) == kind(m),
{
    reveal_strlit(";");
    let s = a + m + b;
    assert(!s.contains(';')) by {
        if s.contains(';') {
            let i = choose|i: int| 0 <= i < s.len() && s[i] == ';';
            if i < a.len() {
                assert(a[i] == ';');
            } else if i < a.len() + m.len() {
                assert(m[i - a.len()] == ';');
            } else {
                assert(b[i - a.len() - m.len()] == ';');
            }
        }
    }
    let t = s + ";"@ + rest;
    law_until_the_first(s, ';');
    if until(s, ';').len() < s.len() {
        assert(s.contains(s[until(s, ';').len() as int]));
    }
    assert(until(s, ';') =~= s);
    law_until_the_first(m, ';');
    if until(m, ';').len() < m.len() {
        assert(m.contains(m[until(m, ';').len() as int]));
    }
    assert(until(m, ';') =~= m);
    law_until_the_first(t, ';');
    let n = until(t, ';').len() as int;
    if n < s.len() {
        assert(t[n] == s[n]);
        assert(s.contains(s[n]));
    }
    if n > s.len() {
        assert(until(t, ';')[s.len() as int] == t[s.len() as int]);
        assert(t[s.len() as int] == ';');
        assert(until(t, ';').contains(';'));
    }
    assert(until(t, ';') =~= s);
    law_trimmed_is_unique(a, m, b);
    law_trimmed_is_unique(Seq::empty(), m, Seq::empty());
    assert(Seq::<char>::empty() + m + Seq::<char>::empty() =~= m);
}

/// The attachments of one kind are all those of that kind, in their order, and no others.
pub proof fn law_all_of_a_kind_are_kept(atts: Seq<AttachmentV>, k: Kind)
    ensures
        kept_of_kind(atts, k) == atts.filter(|a: AttachmentV| kind(a.mime()) == Some(k)),
    decreases atts.len(),
{
    reveal(Seq::filter);
    if atts.len() > 0 {
        law_all_of_a_kind_are_kept(atts.drop_last(), k);
    }
}

/// A size is told in the largest unit that it fills, whole kibibytes being counted and
/// mebibytes given to the nearest tenth.
pub proof fn law_sizes_are_told(bytes: nat)
    ensures
        bytes < 1024 ==> size_text(bytes) == decimal(bytes) + "B"@,
        1024 <= bytes < 1048576 ==> exists|k: nat|
            1024 * k <= bytes < 1024 * k + 1024 && size_text(bytes) == #[trigger] decimal(k)
                + "KB"@,
        bytes >= 1048576 ==> exists|w: nat, t: nat|
            t < 10 && -524288 <= 10 * bytes - 1048576 * (10 * w + t) <= 524288 && size_text(bytes)
                == #[trigger] decimal(w) + "."@ + #[trigger] decimal(t) + "MB"@,
{
    if 1024 <= bytes < 1048576 {
        let k = bytes / 1024;
        assert(1024 * k <= bytes < 1024 * k + 1024);
        assert(size_text(bytes) == decimal(k) + "KB"@);
    }
    if bytes >= 1048576 {
        let x = bytes as int * 10;
        let n = tenths_of_mib(bytes as int);
        assert(-524288 <= x - 1048576 * n <= 524288);
        assert(n >= 0);
        let w = (n / 10) as nat;
        let t = (n % 10) as nat;
        assert(n == 10 * w + t);
        assert(size_text(bytes) == decimal(w) + "."@ + decimal(t) + "MB"@);
    }
}

/// An attachment that no entry is the same file as gets the next free id; one that is
/// there already keeps its own, and nothing is entered.
pub proof fn law_new_files_get_the_next_id(entries: Seq<AttachmentV>, a: AttachmentV, i: int)
    ensures
        (forall|j: int| 0 <= j < entries.len() ==> !(#[trigger] entries[j]).same_file(a)) ==> slot(
            entries,
            a,
        ) == entries.len() && entered(entries, a) == entries.push(a),
        0 <= i < entries.len() && entries[i].same_file(a) && (forall|j: int|
            0 <= j < i ==> !(#[trigger] entries[j]).same_file(a)) ==> slot(entries, a) == i
            && entered(entries, a) == entries,
{
    lemma_slot(entries, a);
}

/// Entering several attachments is entering one after the other.
pub proof fn law_files_are_entered_in_order(
    entries: Seq<AttachmentV>,
    atts: Seq<AttachmentV>,
    a: AttachmentV,
)
    ensures
        all_entered(entries, Seq::empty()) == entries,
        all_entered(entries, atts.push(a)) == entered(all_entered(entries, atts), a),
{
    assert(atts.push(a).drop_last() =~= atts);
}

/// An attachment is listed by its id and type, then its name and size where they are
/// known; what cannot be read says so, and so does what the turn shows anyway.
pub proof fn law_a_label_says_it_all(cfg: Config, id: nat, a: AttachmentV, inline: Inline)
    ensures
        ({
            let head = "#"@ + decimal(id) + " "@ + a.mime();
            let name = if a.name() is Some {
                " "@ + a.name()->0
            } else {
                Seq::<char>::empty()
            };
            let size = if a.size is Some {
                " "@ + size_text(a.size->0 as nat)
            } else {
                Seq::<char>::empty()
            };
            let readable = match kind(a.mime()) {
                Some(Kind::Image) => cfg.vision,
                Some(Kind::Audio) => cfg.audio,
                Some(Kind::Document) => cfg.documents,
                Some(Kind::Text) => true,
                None => false,
            };
            let mark = if !readable {
                " (unreadable)"@
            } else if inline == Inline::Shown && kind(a.mime()) != Some(Kind::Text) {
                " (shown above)"@
            } else {
                Seq::<char>::empty()
            };
            label(cfg, id, a, inline) == head + name + size + mark
        }),
{
    let head = "#"@ + decimal(id) + " "@ + a.mime();
    let name = if a.name() is Some {
        " "@ + a.name()->0
    } else {
        Seq::<char>::empty()
    };
    let size = if a.size is Some {
        " "@ + size_text(a.size->0 as nat)
    } else {
        Seq::<char>::empty()
    };
    let named = match a.name() {
        Some(n) => head + " "@ + n,
        None => head,
    };
    assert(named =~= head + name);
    let sized = match a.size {
        Some(n) => named + " "@ + size_text(n as nat),
        None => named,
    };
    assert(sized =~= head + name + size);
    assert(label(cfg, id, a, inline) =~= head + name + size + (if !cfg.loads(a.mime()) {
        " (unreadable)"@
    } else if inline == Inline::Shown && cfg.inlines(a.mime()) {
        " (shown above)"@
    } else {
        Seq::<char>::empty()
    }));
}

/// Attachments are announced in brackets, one label after the other; where there are none,
/// nothing is said.
pub proof fn law_attachments_are_announced(
    cfg: Config,
    entries: Seq<AttachmentV>,
    atts: Seq<AttachmentV>,
    inline: Inline,
    listed: Seq<Seq<char>>,
)
    requires
        listed.len() == atts.len(),
        forall|i: int|
            0 <= i < atts.len() ==> #[trigger] listed[i] == label(
                cfg,
                (slot(all_entered(entries, atts.take(i)), atts[i]) + 1) as nat,
                atts[i],
                inline,
            ),
    ensures
        atts.len() == 0 ==> announcement(cfg, entries, atts, inline) == Seq::<char>::empty(),
        atts.len() > 0 ==> announcement(cfg, entries, atts, inline) == "[attachments: "@ + joined(
            listed,
            ", "@,
        ) + "]"@,
{
    lemma_labels_len(cfg, entries, atts, inline);
    assert forall|i: int| 0 <= i < atts.len() implies labels(cfg, entries, atts, inline)[i]
        == #[trigger] listed[i] by {
        law_every_attachment_is_listed(cfg, entries, atts, inline, i);
    }
    assert(labels(cfg, entries, atts, inline) =~= listed);
}

/// Whoever asks for an attachment that is not there is told which ids there are.
pub proof fn law_the_ids_are_told(n: nat)
    ensures
        n == 0 ==> ids_text(n) == "there are no attachments in this conversation"@,
        n == 1 ==> ids_text(n) == "the only id is 1"@,
        n > 1 ==> ids_text(n) == "valid ids are 1 to "@ + decimal(n),
{
}

/// A call for a listed attachment that can be read asks for that very one, as text where
/// it is text and as media otherwise; any other call for an attachment is answered with
/// what is wrong.
pub proof fn law_listed_attachments_are_loaded(
    cfg: Config,
    catalog: Seq<AttachmentV>,
    args: JsonV,
    id: u64,
)
    requires
        args.get("id"@) == Some(JsonV::Uint(id)),
    ensures
        ({
            let got = action_of(cfg, catalog, "load_attachment"@, Some(args));
            let told = decimal(id as nat);
            if id == 0 || id > catalog.len() {
                got == ActionV::Answer(
                    "error: no attachment #"@ + told + " — "@ + ids_text(catalog.len())
                        + ". Don't retry with a guess."@,
                )
            } else {
                let a = catalog[id - 1];
                match kind(a.mime()) {
                    Some(Kind::Text) => got == ActionV::LoadText(id, a),
                    Some(Kind::Image) if cfg.vision => got == ActionV::LoadMedia(id, a),
                    Some(Kind::Audio) if cfg.audio => got == ActionV::LoadMedia(id, a),
                    Some(Kind::Document) if cfg.documents => got == ActionV::LoadMedia(id, a),
                    _ => got == ActionV::Answer(
                        "error: attachment #"@ + told + " is "@ + a.mime() + " and cannot be read"@,
                    ),
                }
            }
        }),
{
    lemma_tool_names();
}

proof fn lemma_tool_names()
    ensures
        "load_attachment"@ != "load_avatar"@,
{
    reveal_strlit("load_attachment");
    reveal_strlit("load_avatar");
    assert("load_attachment"@.len() == 15 && "load_avatar"@.len() == 11);
}

/// A call that gives no whole number for an id is told that one is expected.
pub proof fn law_an_id_is_expected(cfg: Config, catalog: Seq<AttachmentV>, args: Option<JsonV>)
    requires
        crate::ai::inner(args, "id"@) !is Some || crate::ai::inner(args, "id"@)->0 !is Uint,
    ensures
        action_of(cfg, catalog, "load_attachment"@, args) == ActionV::Answer(
            "error: expected an integer `id` argument"@,
        ),
{
    lemma_tool_names();
}

/// A call for a picture asks for the one of the very name it gives, provided that images
/// can be seen at all.
pub proof fn law_pictures_are_looked_for(
    cfg: Config,
    catalog: Seq<AttachmentV>,
    args: Option<JsonV>,
)
    ensures
        ({
            let got = action_of(cfg, catalog, "load_avatar"@, args);
            match crate::ai::inner(args, "name"@) {
                _ if !cfg.vision => got == ActionV::Answer("error: I can't see images"@),
                Some(JsonV::Str(wanted)) => got == ActionV::LoadAvatar(wanted),
                _ => got == ActionV::Answer("error: expected a `name` argument"@),
            }
        }),
{
}

/// A call of any other tool is told that there is none of that name.
pub proof fn law_other_tools_are_not_there(
    cfg: Config,
    catalog: Seq<AttachmentV>,
    name: Seq<char>,
    args: Option<JsonV>,
)
    requires
        name != "load_avatar"@,
        name != "load_attachment"@,
    ensures
        action_of(cfg, catalog, name, args) == ActionV::Answer("error: no tool named "@ + name),
{
}

/// A text of up to 32 KiB is handed on as it is; of a longer one the beginning is, as much
/// of it as takes no more than that, with a note that something is missing.
pub proof fn law_long_attachments_are_cut(text: Seq<char>)
    ensures
        vstd::utf8::encode_utf8(text).len() <= 32768 ==> shortened(text) == text,
        vstd::utf8::encode_utf8(text).len() > 32768 ==> exists|n: int|
            0 <= n < text.len() && shortened(text) == #[trigger] text.take(n) + "\n[truncated]"@ && (
            vstd::utf8::encode_utf8(text.take(n)).len() <= 32768 || n == 0)
                && vstd::utf8::encode_utf8(text.take(n + 1)).len() > 32768,
{
    if vstd::utf8::encode_utf8(text).len() > 32768 {
        law_what_fits_is_as_long_as_may_be(text, 32768);
        let n = fit(text, 32768).len() as int;
        assert(text.take(text.len() as int) =~= text);
        assert(shortened(text) == text.take(n) + "\n[truncated]"@);
    }
}

/// A picture that was found is handed over, by itself and as it was encoded; otherwise
/// the model is told.
pub proof fn law_the_picture_is_handed_over(wanted: Seq<char>, mime: Seq<char>, data: Seq<char>)
    ensures
        picture_result(wanted, Some((mime, data))).content == wanted + "'s picture follows"@,
        picture_result(wanted, Some((mime, data))).media is Some,
        picture_result(wanted, Some((mime, data))).media->0.images == seq![(mime, data)],
        picture_result(wanted, Some((mime, data))).media->0.audio.len() == 0,
        picture_result(wanted, Some((mime, data))).media->0.files.len() == 0,
        picture_result(wanted, None).content == "error: the picture for \""@ + wanted
            + "\" is unreadable"@,
        picture_result(wanted, None).media is None,
{
}

/// Those in a direct chat are the other one and we; those in a group are its members, all
/// of them.
pub proof fn law_everyone_takes_part(
    sid: ServiceId,
    key: [u8; 32],
    my_aci: u128,
    members: Seq<u128>,
    i: int,
)
    ensures
        participants(Thread::Contact(sid), my_aci, members) == seq![sid, ServiceId::Aci(my_aci)],
        participants(Thread::Group(key), my_aci, members).len() == members.len(),
        0 <= i < members.len() ==> participants(Thread::Group(key), my_aci, members)[i]
            == ServiceId::Aci(members[i]),
{
}

/// Two names are the same but for the case of their letters.
pub open spec fn same_name(a: Seq<char>, b: Seq<char>) -> bool {
    a.len() == b.len() && forall|i: int|
        0 <= i < a.len() ==> ((#[trigger] a[i]) == b[i] || (('A' <= a[i] <= 'Z') && b[i] as int
            == a[i] as int + 32) || (('A' <= b[i] <= 'Z') && a[i] as int == b[i] as int + 32))
}

/// A name is the wanted one where the two differ in the case of letters at most, whitespace
/// around what is wanted aside.
pub proof fn law_names_go_without_case(name: Seq<char>, wanted: Seq<char>)
    ensures
        is_wanted(name, wanted) <==> same_name(name, trimmed(wanted)),
{
    let w = trimmed(wanted);
    if is_wanted(name, wanted) {
        assert(lowered(name).len() == name.len() && lowered(w).len() == w.len());
        assert forall|i: int| 0 <= i < name.len() implies ((#[trigger] name[i]) == w[i] || (('A'
            <= name[i] <= 'Z') && w[i] as int == name[i] as int + 32) || (('A' <= w[i] <= 'Z')
            && name[i] as int == w[i] as int + 32)) by {
            assert(lowered(name)[i] == lowered(w)[i]);
            assert(crate::text::lower(name[i]) == crate::text::lower(w[i]));
        }
    }
    if same_name(name, w) {
        assert forall|i: int| 0 <= i < name.len() implies lowered(name)[i] == lowered(w)[i] by {
            assert(name[i] == name[i]);
        }
        assert(lowered(name) =~= lowered(w));
    }
}

/// The group's own picture is the one meant where the group has the wanted title. Otherwise
/// everyone of that name is looked for, in order: first their profile, then their contact.
pub proof fn law_all_of_that_name_are_looked_for(
    title: Option<Seq<char>>,
    my_aci: u128,
    people: Seq<(ServiceId, Seq<char>)>,
    wanted: Seq<char>,
    i: int,
)
    requires
        0 <= i < people.len(),
    ensures
        title is Some && same_name(title->0, trimmed(wanted)) ==> places(
            title,
            my_aci,
            people,
            wanted,
        ) == seq![AvatarPlace::Group],
        !(title is Some && same_name(title->0, trimmed(wanted))) ==> {
            let before = people.take(i).filter(
                |p: (ServiceId, Seq<char>)| same_name(p.1, trimmed(wanted)),
            ).len();
            let all = people.filter(
                |p: (ServiceId, Seq<char>)| same_name(p.1, trimmed(wanted)),
            ).len();
            let found = places(title, my_aci, people, wanted);
            &&& found.len() == 2 * all
            &&& same_name(people[i].1, trimmed(wanted)) ==> before < all && found[2 * before as int]
                == AvatarPlace::Profile(people[i].0, people[i].0.uuid() == my_aci) && found[2
                * before as int + 1] == AvatarPlace::Contact(people[i].0)
        },
{
    if title is Some {
        law_names_go_without_case(title->0, wanted);
    }
    lemma_places_of_each(my_aci, people, wanted, i);
}

proof fn lemma_places_of_each(
    my_aci: u128,
    people: Seq<(ServiceId, Seq<char>)>,
    wanted: Seq<char>,
    i: int,
)
    ensures
        ({
            let all = people.filter(
                |p: (ServiceId, Seq<char>)| same_name(p.1, trimmed(wanted)),
            ).len();
            let found = places_among(my_aci, people, wanted);
            &&& found.len() == 2 * all
            &&& 0 <= i < people.len() && same_name(people[i].1, trimmed(wanted)) ==> {
                let before = people.take(i).filter(
                    |p: (ServiceId, Seq<char>)| same_name(p.1, trimmed(wanted)),
                ).len();
                &&& before < all
                &&& found[2 * before as int] == AvatarPlace::Profile(
                    people[i].0,
                    people[i].0.uuid() == my_aci,
                )
                &&& found[2 * before as int + 1] == AvatarPlace::Contact(people[i].0)
            }
        }),
    decreases people.len(),
{
    reveal(Seq::filter);
    if people.len() > 0 {
        let head = people.drop_last();
        lemma_places_of_each(my_aci, head, wanted, i);
        law_names_go_without_case(people.last().1, wanted);
        if i == people.len() - 1 {
            assert(people.take(i) =~= head);
        } else if 0 <= i < people.len() {
            assert(people.take(i) =~= head.take(i));
        }
    }
}

/// Each tool is offered under its name, with the one argument that it takes and has to be
/// given.
pub proof fn law_a_tool_is_offered_in_full(
    name: Seq<char>,
    description: Seq<char>,
    parameters: JsonV,
)
    ensures
        tool_value(name, description, parameters).get("type"@) == Some(
            JsonV::Str("function"@),
        ),
        tool_value(name, description, parameters).get("function"@) is Some,
        ({
            let f = tool_value(name, description, parameters).get("function"@)->0;
            &&& f.get("name"@) == Some(JsonV::Str(name))
            &&& f.get("description"@) == Some(JsonV::Str(description))
            &&& f.get("parameters"@) == Some(parameters)
        }),
{
    reveal_strlit("type");
    reveal_strlit("function");
    reveal_strlit("name");
    reveal_strlit("description");
    reveal_strlit("parameters");
    assert("type"@.len() == 4 && "function"@.len() == 8 && "name"@.len() == 4);
    assert("description"@.len() == 11 && "parameters"@.len() == 10);
    law_three_fields(
        "name"@,
        JsonV::Str(name),
        "description"@,
        JsonV::Str(description),
        "parameters"@,
        parameters,
    );
    law_two_fields(
        "type"@,
        JsonV::Str("function"@),
        "function"@,
        JsonV::object().with("name"@, JsonV::Str(name)).with(
            "description"@,
            JsonV::Str(description),
        ).with("parameters"@, parameters),
    );
}

/// A parameter is given with its type and what it is for, and the parameters of a tool
/// as those of an object.
pub proof fn law_parameters_are_described(kind: Seq<char>, description: Seq<char>, all: JsonV)
    ensures
        param_value(kind, description).get("type"@) == Some(JsonV::Str(kind)),
        param_value(kind, description).get("description"@) == Some(JsonV::Str(description)),
        params_value(all).get("type"@) == Some(JsonV::Str("object"@)),
        params_value(all).get("properties"@) == Some(all),
        params_value(all).get("required"@) is None,
{
    reveal_strlit("type");
    reveal_strlit("description");
    reveal_strlit("properties");
    reveal_strlit("required");
    assert("type"@.len() == 4 && "description"@.len() == 11);
    assert("properties"@.len() == 10 && "required"@.len() == 8);
    law_two_fields("type"@, JsonV::Str(kind), "description"@, JsonV::Str(description));
    law_two_fields("type"@, JsonV::Str("object"@), "properties"@, all);
}

/// The text of an attachment is handed back as its bytes say, and media as they were
/// encoded, all of them; where nothing came, the model is told of which attachment.
pub proof fn law_what_was_fetched_is_handed_back(id: u64, bytes: Seq<u8>, media: MediaV)
    ensures
        ({
            let sorry = "error: attachment #"@ + decimal(id as nat) + " could not be loaded"@;
            &&& text_result(id, None) == (ToolResultV { content: sorry, media: None })
            &&& bytes.len() == 0 ==> text_result(id, Some(bytes)) == (ToolResultV {
                content: sorry,
                media: None,
            })
            &&& bytes.len() > 0 ==> text_result(id, Some(bytes)) == (ToolResultV {
                content: shortened(lossy(bytes)),
                media: None,
            })
            &&& media.images.len() == 0 && media.audio.len() == 0 && media.files.len() == 0
                ==> media_result(id, media) == (ToolResultV { content: sorry, media: None })
            &&& media.images.len() > 0 || media.audio.len() > 0 || media.files.len() > 0
                ==> media_result(id, media) == (ToolResultV {
                content: "attachment #"@ + decimal(id as nat) + " follows"@,
                media: Some(media),
            })
        }),
{
}

/// A picture in a form that is handed on is handed over as its very bytes; one that was
/// not found is said not to be there.
pub proof fn law_found_pictures_are_encoded(wanted: Seq<char>, bytes: Seq<u8>)
    ensures
        avatar_result(wanted, Some(("image/jpeg"@, bytes))).media is Some,
        avatar_result(wanted, Some(("image/jpeg"@, bytes))).media->0.images == seq![
            ("image/jpeg"@, crate::media::base64_text(bytes)),
        ],
        avatar_result(wanted, Some(("image/png"@, bytes))).media is Some,
        avatar_result(wanted, Some(("image/png"@, bytes))).media->0.images == seq![
            ("image/png"@, crate::media::base64_text(bytes)),
        ],
        avatar_result(wanted, None) == (ToolResultV {
            content: "error: no picture for \""@ + wanted + "\" in this chat"@,
            media: None,
        }),
{
}

} // verus!
