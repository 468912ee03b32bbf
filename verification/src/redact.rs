//! Conversations for the log, without the media they carry.
use vstd::prelude::*;

use crate::json::{
    field_of, fields_view, jsons, law_two_fields, lemma_fields_push, lemma_jsons_push, text_in, Json,
    JsonV,
};
use crate::text::{copy, same_text};

verus! {

broadcast use {lemma_jsons_push, lemma_fields_push};

/// The types of content part that carry media.
pub open spec fn media_kind(kind: Seq<char>) -> bool {
    kind == "image_url"@ || kind == "input_audio"@ || kind == "file"@
}

/// What stands for a content part that carries media.
pub open spec fn placeholder(kind: Seq<char>) -> JsonV {
    JsonV::object().with("type"@, JsonV::Str(kind)).with(kind, JsonV::Str("<omitted>"@))
}

/// A content part without the media it carries.
pub open spec fn redacted_part(p: JsonV) -> JsonV {
    match text_in(p.get("type"@)) {
        Some(kind) => if media_kind(kind) {
            placeholder(kind)
        } else {
            p
        },
        None => p,
    }
}

/// The content parts without the media they carry.
pub open spec fn redacted_parts(ps: Seq<JsonV>) -> Seq<JsonV> {
    Seq::new(ps.len(), |i: int| redacted_part(ps[i]))
}

/// A field of a turn without the media it carries.
pub open spec fn redacted_field(name: Seq<char>, v: JsonV) -> JsonV {
    if name == "images"@ {
        JsonV::Str("<images omitted>"@)
    } else if name == "content"@ {
        match v {
            JsonV::Arr(parts) => JsonV::Arr(redacted_parts(parts)),
            _ => v,
        }
    } else {
        v
    }
}

/// The fields of a turn without the media they carry.
pub open spec fn redacted_fields(fs: Seq<(Seq<char>, JsonV)>) -> Seq<(Seq<char>, JsonV)> {
    Seq::new(fs.len(), |i: int| (fs[i].0, redacted_field(fs[i].0, fs[i].1)))
}

/// A turn without the media it carries.
pub open spec fn redacted(m: JsonV) -> JsonV {
    match m {
        JsonV::Obj(fields) => JsonV::Obj(redacted_fields(fields)),
        _ => m,
    }
}

/// No content part of a turn that is logged carries media: one that did is a
/// placeholder.
pub proof fn law_no_media_is_logged(parts: Seq<JsonV>, i: int)
    requires
        0 <= i < parts.len(),
    ensures
        ({
            let p = redacted_parts(parts)[i];
            match text_in(p.get("type"@)) {
                Some(kind) => media_kind(kind) ==> p == placeholder(kind),
                None => true,
            }
        }),
{
    let p = parts[i];
    if let Some(kind) = text_in(p.get("type"@)) {
        if media_kind(kind) {
            let r = placeholder(kind);
            let fields = r->Obj_0;
            assert(fields[0] == ("type"@, JsonV::Str(kind)));
            assert(r.get("type"@) == Some(JsonV::Str(kind)));
        }
    }
}

fn redact_part(p: &Json) -> (r: Json)
    ensures
        r@ == redacted_part(p@),
{
    if let Some(t) = p.get("type") {
        if let Some(kind) = t.as_str() {
            if same_text(kind, "image_url") || same_text(kind, "input_audio") || same_text(
                kind,
                "file",
            ) {
                return Json::object().with("type", Json::text(kind)).with(
                    kind,
                    Json::text("<omitted>"),
                );
            }
        }
    }
    p.copy()
}

fn redact_field(name: &str, v: &Json) -> (r: Json)
    ensures
        r@ == redacted_field(name@, v@),
{
    if same_text(name, "images") {
        return Json::text("<images omitted>");
    }
    if same_text(name, "content") {
        if let Some(parts) = v.items() {
            let ghost goal = redacted_parts(jsons(parts@));
            let mut out: Vec<Json> = Vec::new();
            assert(jsons(out@) =~= goal.take(0));
            for i in 0..parts.len()
                invariant
                    goal == redacted_parts(jsons(parts@)),
                    jsons(out@) == goal.take(i as int),
            {
                out.push(redact_part(&parts[i]));
                assert(goal.take(i + 1) =~= goal.take(i as int).push(goal[i as int]));
            }
            assert(goal.take(goal.len() as int) =~= goal);
            return Json::array(out);
        }
    }
    v.copy()
}

fn redact_message(m: &Json) -> (r: Json)
    ensures
        r@ == redacted(m@),
{
    match m {
        Json::Obj(fields) => {
            let ghost goal = redacted_fields(fields_view(fields@));
            let mut out: Vec<(String, Json)> = Vec::new();
            assert(fields_view(out@) =~= goal.take(0));
            for i in 0..fields.len()
                invariant
                    goal == redacted_fields(fields_view(fields@)),
                    fields_view(out@) == goal.take(i as int),
            {
                let v = redact_field(&fields[i].0, &fields[i].1);
                out.push((copy(&fields[i].0), v));
                assert(goal.take(i + 1) =~= goal.take(i as int).push(goal[i as int]));
            }
            assert(goal.take(goal.len() as int) =~= goal);
            let r = Json::Obj(out);
            assert(r@->Obj_0 =~= fields_view(out@));
            assert(m@->Obj_0 =~= fields_view(fields@));
            r
        },
        _ => m.copy(),
    }
}

/// Replaces each media part of the messages with a short placeholder so that base64
/// payloads don't flood logs.
pub fn redact_media(messages: &[Json]) -> (r: Vec<Json>)
    ensures
        r@.len() == messages@.len(),
        forall|i: int| 0 <= i < r@.len() ==> (#[trigger] r@[i])@ == redacted(messages@[i]@),
{
    let mut out: Vec<Json> = Vec::new();
    for i in 0..messages.len()
        invariant
            out@.len() == i,
            forall|j: int| 0 <= j < i ==> (#[trigger] out@[j])@ == redacted(messages@[j]@),
    {
        out.push(redact_message(&messages[i]));
    }
    out
}

proof fn lemma_field_redacted(fs: Seq<(Seq<char>, JsonV)>, key: Seq<char>)
    ensures
        field_of(redacted_fields(fs), key) == (match field_of(fs, key) {
            Some(v) => Some(redacted_field(key, v)),
            None => None,
        }),
    decreases fs.len(),
{
    let rs = redacted_fields(fs);
    if fs.len() > 0 {
        assert(rs[0].0 == fs[0].0);
        assert(rs.skip(1) =~= redacted_fields(fs.skip(1)));
        lemma_field_redacted(fs.skip(1), key);
    }
}

/// Nothing but media is left out of the log: every other field of a turn is as it was, and
/// so is content that is plain text.
pub proof fn law_the_rest_is_logged(m: JsonV, key: Seq<char>)
    ensures
        key != "images"@ && key != "content"@ ==> redacted(m).get(key) == m.get(key),
        m.get("content"@) is Some && !(m.get("content"@)->0 is Arr) ==> redacted(m).get("content"@)
            == m.get("content"@),
        m.get("content"@) is None ==> redacted(m).get("content"@) is None,
        m.get("images"@) is None ==> redacted(m).get("images"@) is None,
        m.get("images"@) is Some ==> redacted(m).get("images"@) == Some(
            JsonV::Str("<images omitted>"@),
        ),
{
    reveal_strlit("images");
    reveal_strlit("content");
    assert("images"@.len() == 6 && "content"@.len() == 7);
    if let JsonV::Obj(fields) = m {
        lemma_field_redacted(fields, key);
        lemma_field_redacted(fields, "content"@);
        lemma_field_redacted(fields, "images"@);
    }
}

/// Content in parts keeps all of them, in their places: a part that carries an image, a
/// recording or a file says only that it did, and any other is as it was.
pub proof fn law_other_parts_are_logged(m: JsonV, parts: Seq<JsonV>, i: int, kind: Seq<char>)
    requires
        m.get("content"@) == Some(JsonV::Arr(parts)),
        0 <= i < parts.len(),
    ensures
        redacted(m).get("content"@) is Some,
        redacted(m).get("content"@)->0 is Arr,
        ({
            let logged = redacted(m).get("content"@)->0->Arr_0;
            &&& logged.len() == parts.len()
            &&& parts[i].get("type"@) == Some(JsonV::Str(kind)) && (kind == "image_url"@ || kind
                == "input_audio"@ || kind == "file"@) ==> logged[i].get("type"@) == Some(
                JsonV::Str(kind),
            ) && logged[i].get(kind) == Some(JsonV::Str("<omitted>"@))
            &&& parts[i].get("type"@) == Some(JsonV::Str(kind)) && kind != "image_url"@ && kind
                != "input_audio"@ && kind != "file"@ ==> logged[i] == parts[i]
            &&& parts[i].get("type"@) is None ==> logged[i] == parts[i]
        }),
{
    reveal_strlit("images");
    reveal_strlit("content");
    assert("images"@.len() == 6 && "content"@.len() == 7);
    if let JsonV::Obj(fields) = m {
        lemma_field_redacted(fields, "content"@);
    }
    reveal_strlit("type");
    reveal_strlit("image_url");
    reveal_strlit("input_audio");
    reveal_strlit("file");
    assert("type"@.len() == 4 && "image_url"@.len() == 9 && "input_audio"@.len() == 11);
    assert("type"@[0] == 't' && "file"@[0] == 'f');
    if kind != "type"@ {
        law_two_fields("type"@, JsonV::Str(kind), kind, JsonV::Str("<omitted>"@));
    }
}

} // verus!
