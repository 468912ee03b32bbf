//! The media of a turn: what is fetched for it, and how it is encoded.
use base64::prelude::{Engine, BASE64_STANDARD};
use vstd::prelude::*;

use crate::attachment::{attachments, lemma_attachments_push, Attachment, AttachmentV};
use crate::config::Config;
use crate::text::{
    before_char, begins, copy, decimal, decimal_text, lemma_until, split_once, strip_prefix, texts,
    trim, trimmed, until, white,
};
use crate::tools::{kept_of_kind, of_kind, Kind};

verus! {

/// What `BASE64_STANDARD.encode` makes of a run of bytes.
pub uninterp spec fn base64_text(bytes: Seq<u8>) -> Seq<char>;

/// What `BASE64_STANDARD.decode` reads from a text.
pub uninterp spec fn base64_bytes(text: Seq<char>) -> Option<Seq<u8>>;

/// The characters of the standard alphabet, and the one that pads.
pub open spec fn base64_char(c: char) -> bool {
    ||| 'A' <= c <= 'Z'
    ||| 'a' <= c <= 'z'
    ||| '0' <= c <= '9'
    ||| c == '+'
    ||| c == '/'
    ||| c == '='
}

/// `base64::Engine::encode` of the standard engine, which pads: the text for a
/// run of bytes, which depends on the bytes alone, holds nothing but characters
/// of the alphabet and padding, and from which the same engine reads the bytes
/// back.
#[verifier::external_body]
pub(crate) fn encode_base64(bytes: &[u8]) -> (r: String)
    ensures
        r@ == base64_text(bytes@),
        base64_bytes(r@) == Some(bytes@),
        forall|i: int| 0 <= i < r@.len() ==> base64_char(#[trigger] r@[i]),
{
    BASE64_STANDARD.encode(bytes)
}

/// `base64::Engine::decode` of the standard engine: the bytes that a text
/// stands for, where it is canonical base64. What they are depends on the text
/// alone.
#[verifier::external_body]
fn decode_base64(text: &str) -> (r: Option<Vec<u8>>)
    ensures
        crate::attachment::bytes_opt(r) == base64_bytes(text@),
{
    BASE64_STANDARD.decode(text).ok()
}

/// The encoded attachments of one turn: images as (mime, base64), audio as
/// base64 wav clips of at most 30s each, documents as (filename, data uri).
pub struct Media {
    pub images: Vec<(String, String)>,
    pub audio: Vec<String>,
    pub files: Vec<(String, String)>,
}

/// The mathematical model of the media of a turn.
#[verifier::ext_equal]
pub struct MediaV {
    pub images: Seq<(Seq<char>, Seq<char>)>,
    pub audio: Seq<Seq<char>>,
    pub files: Seq<(Seq<char>, Seq<char>)>,
}

/// The texts of a list of pairs.
pub open spec fn pairs(v: Seq<(String, String)>) -> Seq<(Seq<char>, Seq<char>)> {
    Seq::new(v.len(), |i: int| (v[i].0@, v[i].1@))
}

/// One pair more is one pair of texts more.
pub broadcast proof fn lemma_pairs_push(v: Seq<(String, String)>, x: (String, String))
    ensures
        #[trigger] pairs(v.push(x)) == pairs(v).push((x.0@, x.1@)),
{
    assert(pairs(v.push(x)) =~= pairs(v).push((x.0@, x.1@)));
}

impl View for Media {
    type V = MediaV;

    open spec fn view(&self) -> MediaV {
        MediaV {
            images: pairs(self.images@),
            audio: texts(self.audio@),
            files: pairs(self.files@),
        }
    }
}

impl MediaV {
    /// No media at all.
    pub open spec fn none() -> MediaV {
        MediaV { images: Seq::empty(), audio: Seq::empty(), files: Seq::empty() }
    }

    pub open spec fn is_empty(self) -> bool {
        self.images.len() == 0 && self.audio.len() == 0 && self.files.len() == 0
    }

    /// These media, then the others, kind by kind.
    pub open spec fn and(self, other: MediaV) -> MediaV {
        MediaV {
            images: self.images + other.images,
            audio: self.audio + other.audio,
            files: self.files + other.files,
        }
    }
}

impl Default for Media {
    /// No media at all.
    fn default() -> (r: Media)
        ensures
            r@ == MediaV::none(),
    {
        let r = Media { images: Vec::new(), audio: Vec::new(), files: Vec::new() };
        assert(r@ =~= MediaV::none());
        r
    }
}

impl Media {
    pub fn is_empty(&self) -> (r: bool)
        ensures
            r == self@.is_empty(),
    {
        self.images.len() == 0 && self.audio.len() == 0 && self.files.len() == 0
    }

    /// Adds the other media behind these, kind by kind.
    pub fn extend(&mut self, other: Media)
        ensures
            final(self)@ == old(self)@.and(other@),
    {
        let mut more = other;
        let ghost mine = self@;
        self.images.append(&mut more.images);
        self.audio.append(&mut more.audio);
        self.files.append(&mut more.files);
        assert(self@ =~= mine.and(other@));
    }
}

/// The mime and the payload of a "data:<mime>;base64,<data>" uri.
pub open spec fn uri_parts(uri: Seq<char>) -> Option<(Seq<char>, Seq<char>)> {
    if !begins(uri, "data:"@) {
        None
    } else {
        let rest = uri.skip("data:"@.len() as int);
        if !rest.contains(',') {
            None
        } else {
            let meta = until(rest, ',');
            Some((until(meta, ';'), trimmed(rest.skip(meta.len() as int + 1))))
        }
    }
}

/// The mime with what was decoded, where neither is empty.
pub open spec fn uri_content(mime: Seq<char>, decoded: Option<Seq<u8>>) -> Option<
    (Seq<char>, Seq<u8>),
> {
    match decoded {
        Some(b) => if mime.len() > 0 && b.len() > 0 {
            Some((mime, b))
        } else {
            None
        },
        None => None,
    }
}

/// The mime and the bytes that a uri carries.
pub open spec fn uri_decoded(uri: Seq<char>) -> Option<(Seq<char>, Seq<u8>)> {
    match uri_parts(uri) {
        Some((mime, data)) => uri_content(mime, base64_bytes(data)),
        None => None,
    }
}

/// The model of a mime with its bytes.
pub open spec fn mime_bytes(v: Option<(String, Vec<u8>)>) -> Option<(Seq<char>, Seq<u8>)> {
    match v {
        Some((m, b)) => Some((m@, b@)),
        None => None,
    }
}

/// Splits a "data:<mime>;base64,<data>" uri into its mime and its payload.
pub fn split_data_uri(uri: &str) -> (r: Option<(String, String)>)
    ensures
        match r {
            Some((m, d)) => uri_parts(uri@) == Some((m@, d@)),
            None => uri_parts(uri@) is None,
        },
{
    match strip_prefix(uri, "data:") {
        Some(rest) => match split_once(&rest, ',') {
            Some((meta, data)) => Some((before_char(&meta, ';'), trim(&data))),
            None => None,
        },
        None => None,
    }
}

/// The mime with what was decoded, where neither is empty.
pub fn checked_content(mime: String, decoded: Option<Vec<u8>>) -> (r: Option<(String, Vec<u8>)>)
    ensures
        mime_bytes(r) == uri_content(mime@, crate::attachment::bytes_opt(decoded)),
{
    match decoded {
        Some(bytes) => if mime.as_str().is_empty() || bytes.len() == 0 {
            None
        } else {
            Some((mime, bytes))
        },
        None => None,
    }
}

/// Splits a "data:<mime>;base64,<data>" uri into its mime and decoded bytes.
pub fn decode_data_uri(uri: &str) -> (r: Option<(String, Vec<u8>)>)
    ensures
        mime_bytes(r) == uri_decoded(uri@),
{
    match split_data_uri(uri) {
        Some((mime, data)) => checked_content(mime, decode_base64(&data)),
        None => None,
    }
}

/// The uri that carries `payload` as base64 of the given type.
pub open spec fn data_uri(mime: Seq<char>, payload: Seq<char>) -> Seq<char> {
    "data:"@ + mime + ";base64,"@ + payload
}

proof fn lemma_nothing_to_trim(s: Seq<char>)
    requires
        forall|i: int| 0 <= i < s.len() ==> !white(#[trigger] s[i]),
    ensures
        trimmed(s) == s,
{
    if s.len() > 0 {
        assert(!white(s[0]));
        assert(!white(s[s.len() - 1]));
    }
}

proof fn lemma_uri_parts(mime: Seq<char>, payload: Seq<char>)
    requires
        !mime.contains(','),
        !mime.contains(';'),
        forall|i: int| 0 <= i < payload.len() ==> base64_char(#[trigger] payload[i]),
    ensures
        uri_parts(data_uri(mime, payload)) == Some((mime, payload)),
{
    reveal_strlit("data:");
    reveal_strlit(";base64,");
    let uri = data_uri(mime, payload);
    assert(uri.take(5) =~= "data:"@);
    let rest = uri.skip(5);
    let m = mime.len() as int;
    assert(rest =~= mime + ";base64,"@ + payload);
    assert forall|i: int| 0 <= i < m + 7 implies rest[i] != ',' by {
        if i < m {
            assert(rest[i] == mime[i]);
        } else {
            assert(rest[i] == ";base64,"@[i - m]);
        }
    }
    assert(rest[m + 7] == ";base64,"@[7]);
    lemma_until(rest, ',', m + 7);
    let meta = rest.take(m + 7);
    assert(rest.contains(','));
    assert forall|i: int| 0 <= i < m implies meta[i] != ';' by {
        assert(meta[i] == mime[i]);
    }
    assert(meta[m] == ";base64,"@[0]);
    lemma_until(meta, ';', m);
    assert(meta.take(m) =~= mime);
    assert(rest.skip(m + 8) =~= payload);
    assert forall|i: int| 0 <= i < payload.len() implies !white(#[trigger] payload[i]) by {
        assert(base64_char(payload[i]));
    }
    lemma_nothing_to_trim(payload);
}

/// The uri that carries bytes of the given type. What is written into it is read
/// back from it, where neither the type nor the bytes are empty and the type
/// holds neither `,` nor `;`.
pub fn to_data_uri(mime: &str, bytes: &[u8]) -> (r: String)
    ensures
        r@ == data_uri(mime@, base64_text(bytes@)),
        mime@.len() > 0 && bytes@.len() > 0 && !mime@.contains(',') && !mime@.contains(';')
            ==> uri_decoded(r@) == Some((mime@, bytes@)),
{
    let payload = encode_base64(bytes);
    proof {
        if !mime@.contains(',') && !mime@.contains(';') {
            lemma_uri_parts(mime@, payload@);
        }
    }
    let mut uri = copy("data:");
    uri.append(mime);
    uri.append(";base64,");
    uri.append(&payload);
    uri
}

/// The name that a document goes by: its own, or one from its place among the
/// fetched.
pub open spec fn document_name(i: int, a: AttachmentV) -> Seq<char> {
    match a.name() {
        Some(n) => n,
        None => "document-"@ + decimal((i + 1) as nat) + ".pdf"@,
    }
}

/// An attachment with its bytes.
pub struct Fetched {
    pub ptr: Attachment,
    pub data: Vec<u8>,
}

/// The mathematical model of an attachment with its bytes.
pub struct FetchedV {
    pub ptr: AttachmentV,
    pub data: Seq<u8>,
}

impl View for Fetched {
    type V = FetchedV;

    open spec fn view(&self) -> FetchedV {
        FetchedV { ptr: self.ptr@, data: self.data@ }
    }
}

/// The models of a list of attachments with their bytes.
pub open spec fn fetched_all(v: Seq<Fetched>) -> Seq<FetchedV> {
    Seq::new(v.len(), |i: int| v[i]@)
}

/// The downloads that brought something: an attachment whose download failed,
/// or came back empty, is passed over.
pub open spec fn brought(tried: Seq<(AttachmentV, Option<Seq<u8>>)>) -> Seq<FetchedV>
    decreases tried.len(),
{
    if tried.len() == 0 {
        Seq::empty()
    } else {
        let rest = brought(tried.drop_last());
        match tried.last().1 {
            Some(d) => if d.len() > 0 {
                rest.push(FetchedV { ptr: tried.last().0, data: d })
            } else {
                rest
            },
            None => rest,
        }
    }
}

/// The models of downloads that were tried.
pub open spec fn tried_all(v: Seq<(Attachment, Option<Vec<u8>>)>) -> Seq<
    (AttachmentV, Option<Seq<u8>>),
> {
    Seq::new(v.len(), |i: int| (v[i].0@, crate::attachment::bytes_opt(v[i].1)))
}

/// The downloads that brought something, each paired with its pointer.
pub fn keep_brought(tried: Vec<(Attachment, Option<Vec<u8>>)>) -> (r: Vec<Fetched>)
    ensures
        fetched_all(r@) == brought(tried_all(tried@)),
{
    let ghost all = tried_all(tried@);
    let mut out: Vec<Fetched> = Vec::new();
    assert(all.take(0) =~= Seq::empty());
    assert(fetched_all(out@) =~= Seq::empty());
    for i in 0..tried.len()
        invariant
            all == tried_all(tried@),
            fetched_all(out@) == brought(all.take(i as int)),
    {
        assert(all.take(i + 1).drop_last() =~= all.take(i as int));
        let ghost before = fetched_all(out@);
        if let Some(d) = &tried[i].1 {
            if d.len() > 0 {
                out.push(
                    Fetched {
                        ptr: tried[i].0.copy(),
                        data: crate::attachment::copy_bytes(d),
                    },
                );
                assert(fetched_all(out@) =~= before.push(out@.last()@));
            }
        }
    }
    assert(all.take(all.len() as int) =~= all);
    out
}

/// Each document as (filename, data uri).
pub open spec fn documents_of(fetched: Seq<FetchedV>) -> Seq<(Seq<char>, Seq<char>)> {
    Seq::new(
        fetched.len(),
        |i: int|
            (
                document_name(i, fetched[i].ptr),
                data_uri(fetched[i].ptr.mime(), base64_text(fetched[i].data)),
            ),
    )
}

/// Encodes documents as (filename, data uri).
pub fn encode_documents(fetched: &Vec<Fetched>) -> (r: Vec<(String, String)>)
    ensures
        pairs(r@) == documents_of(fetched_all(fetched@)),
{
    broadcast use lemma_pairs_push;

    let ghost all = documents_of(fetched_all(fetched@));
    let mut out: Vec<(String, String)> = Vec::new();
    assert(pairs(out@) =~= all.take(0));
    for i in 0..fetched.len()
        invariant
            all == documents_of(fetched_all(fetched@)),
            pairs(out@) == all.take(i as int),
    {
        let f = &fetched[i];
        let name = match f.ptr.name() {
            Some(n) => n,
            None => {
                let mut n = copy("document-");
                n.append(&decimal_text(i as u64 + 1));
                n.append(".pdf");
                n
            },
        };
        let mime = f.ptr.mime();
        let uri = to_data_uri(&mime, &f.data);
        out.push((name, uri));
        assert(all.take(i + 1) =~= all.take(i as int).push(all[i as int]));
    }
    assert(all.take(all.len() as int) =~= all);
    out
}

/// The attachments that the enabled modalities cover, in order.
pub open spec fn loadable(cfg: Config, atts: Seq<AttachmentV>) -> Seq<AttachmentV>
    decreases atts.len(),
{
    if atts.len() == 0 {
        Seq::empty()
    } else {
        let rest = loadable(cfg, atts.drop_last());
        if cfg.loads(atts.last().mime()) {
            rest.push(atts.last())
        } else {
            rest
        }
    }
}

/// What is to be fetched of a message's attachments, by kind.
pub struct MediaPlan {
    pub images: Vec<Attachment>,
    pub audio: Vec<Attachment>,
    pub documents: Vec<Attachment>,
}

/// Picks whichever of a message's attachments the enabled modalities cover.
pub fn media_plan(cfg: &Config, atts: &[Attachment]) -> (r: MediaPlan)
    ensures
        attachments(r.images@) == kept_of_kind(loadable(*cfg, attachments(atts@)), Kind::Image),
        attachments(r.audio@) == kept_of_kind(loadable(*cfg, attachments(atts@)), Kind::Audio),
        attachments(r.documents@) == kept_of_kind(
            loadable(*cfg, attachments(atts@)),
            Kind::Document,
        ),
{
    broadcast use lemma_attachments_push;

    let ghost all = attachments(atts@);
    let mut kept: Vec<Attachment> = Vec::new();
    assert(all.take(0) =~= Seq::empty());
    assert(attachments(kept@) =~= Seq::empty());
    for i in 0..atts.len()
        invariant
            all == attachments(atts@),
            attachments(kept@) == loadable(*cfg, all.take(i as int)),
    {
        assert(all.take(i + 1).drop_last() =~= all.take(i as int));
        let mime = atts[i].mime();
        if cfg.can_load(&mime) {
            kept.push(atts[i].copy());
        }
    }
    assert(all.take(all.len() as int) =~= all);
    MediaPlan {
        images: of_kind(&kept, Kind::Image),
        audio: of_kind(&kept, Kind::Audio),
        documents: of_kind(&kept, Kind::Document),
    }
}

proof fn lemma_loadable_kind(cfg: Config, atts: Seq<AttachmentV>, k: Kind, i: int)
    requires
        0 <= i < kept_of_kind(loadable(cfg, atts), k).len(),
    ensures
        cfg.loads(kept_of_kind(loadable(cfg, atts), k)[i].mime()),
        crate::tools::kind(kept_of_kind(loadable(cfg, atts), k)[i].mime()) == Some(k),
        atts.contains(kept_of_kind(loadable(cfg, atts), k)[i]),
    decreases atts.len(),
{
    if atts.len() > 0 {
        let rest = loadable(cfg, atts.drop_last());
        let whole = loadable(cfg, atts);
        let before = kept_of_kind(rest, k);
        if cfg.loads(atts.last().mime()) {
            assert(whole.drop_last() =~= rest);
            assert(whole.last() == atts.last());
        }
        if i < before.len() {
            lemma_loadable_kind(cfg, atts.drop_last(), k, i);
            let x = kept_of_kind(whole, k)[i];
            assert(x == before[i]);
            let j = choose|j: int| 0 <= j < atts.drop_last().len() && atts.drop_last()[j] == x;
            assert(atts[j] == x);
        } else {
            assert(kept_of_kind(whole, k)[i] == atts[atts.len() - 1]);
        }
    }
}

/// Nothing is fetched but attachments of the message that the enabled modalities
/// cover, each under its own kind.
pub proof fn law_only_enabled_media_is_fetched(
    cfg: Config,
    atts: Seq<AttachmentV>,
    k: Kind,
    a: AttachmentV,
)
    requires
        kept_of_kind(loadable(cfg, atts), k).contains(a),
    ensures
        cfg.loads(a.mime()),
        crate::tools::kind(a.mime()) == Some(k),
        atts.contains(a),
{
    let got = kept_of_kind(loadable(cfg, atts), k);
    let i = choose|i: int| 0 <= i < got.len() && got[i] == a;
    lemma_loadable_kind(cfg, atts, k, i);
}

/// Media are put together kind by kind: first all of these, then all of the others.
pub proof fn law_media_are_put_together(a: MediaV, b: MediaV)
    ensures
        a.and(b).images == a.images + b.images,
        a.and(b).audio == a.audio + b.audio,
        a.and(b).files == a.files + b.files,
        MediaV::none().and(a) == a,
        a.and(MediaV::none()) == a,
        a.is_empty() <==> a == MediaV::none(),
        a.and(b).is_empty() <==> a.is_empty() && b.is_empty(),
{
    assert(MediaV::none().and(a) =~= a);
    assert(a.and(MediaV::none()) =~= a);
    if a.is_empty() {
        assert(a =~= MediaV::none());
    }
}

/// A data uri is its type, up to the first semicolon, and what stands behind the first
/// comma, whitespace around it aside.
pub proof fn law_a_uri_has_two_parts(mime: Seq<char>, rest: Seq<char>, data: Seq<char>)
    requires
        !mime.contains(','),
        !mime.contains(';'),
        !rest.contains(','),
    ensures
        uri_parts("data:"@ + mime + ","@ + data) == Some((mime, trimmed(data))),
        uri_parts("data:"@ + mime + ";"@ + rest + ","@ + data) == Some((mime, trimmed(data))),
{
    reveal_strlit("data:");
    reveal_strlit(",");
    reveal_strlit(";");
    let m = mime.len() as int;
    let plain = "data:"@ + mime + ","@ + data;
    assert(plain.take(5) =~= "data:"@);
    let after = plain.skip(5);
    assert(after =~= mime + ","@ + data);
    assert forall|i: int| 0 <= i < m implies after[i] != ',' by {
        assert(after[i] == mime[i]);
    }
    assert(after[m] == ',');
    assert(after.contains(','));
    lemma_until(after, ',', m);
    assert(after.take(m) =~= mime);
    assert forall|i: int| 0 <= i < m implies mime[i] != ';' by {}
    lemma_until(mime, ';', m);
    assert(mime.take(m) =~= mime);
    assert(after.skip(m + 1) =~= data);

    let long = "data:"@ + mime + ";"@ + rest + ","@ + data;
    let n = m + 1 + rest.len();
    assert(long.take(5) =~= "data:"@);
    let behind = long.skip(5);
    assert(behind =~= mime + ";"@ + rest + ","@ + data);
    assert forall|i: int| 0 <= i < n implies behind[i] != ',' by {
        if i < m {
            assert(behind[i] == mime[i]);
        } else if i > m {
            assert(behind[i] == rest[i - m - 1]);
        }
    }
    assert(behind[n] == ',');
    assert(behind.contains(','));
    lemma_until(behind, ',', n);
    let meta = behind.take(n);
    assert forall|i: int| 0 <= i < m implies meta[i] != ';' by {
        assert(meta[i] == mime[i]);
    }
    assert(meta[m] == ';');
    lemma_until(meta, ';', m);
    assert(meta.take(m) =~= mime);
    assert(behind.skip(n + 1) =~= data);
}

/// What is no data uri has no parts.
pub proof fn law_other_uris_have_no_parts(uri: Seq<char>)
    ensures
        !begins(uri, "data:"@) ==> uri_parts(uri) is None,
        !uri.contains(',') ==> uri_parts(uri) is None,
{
    if !uri.contains(',') && begins(uri, "data:"@) {
        let rest = uri.skip("data:"@.len() as int);
        if rest.contains(',') {
            let i = choose|i: int| 0 <= i < rest.len() && rest[i] == ',';
            assert(uri[i + "data:"@.len()] == ',');
        }
    }
}

/// A uri carries something where it has a type and its payload stands for any bytes: then
/// it carries that type and those bytes.
pub proof fn law_what_a_uri_carries(mime: Seq<char>, bytes: Seq<u8>)
    ensures
        mime.len() > 0 && bytes.len() > 0 ==> uri_content(mime, Some(bytes)) == Some(
            (mime, bytes),
        ),
        mime.len() == 0 || bytes.len() == 0 ==> uri_content(mime, Some(bytes)) is None,
        uri_content(mime, None) is None,
{
}

/// Every download that brought something counts, in its order; one that failed or came
/// back empty does not.
pub proof fn law_all_that_came_is_kept(
    tried: Seq<(AttachmentV, Option<Seq<u8>>)>,
    a: AttachmentV,
    data: Seq<u8>,
)
    ensures
        brought(Seq::empty()).len() == 0,
        data.len() > 0 ==> brought(tried.push((a, Some(data)))) == brought(tried).push(
            FetchedV { ptr: a, data },
        ),
        data.len() == 0 ==> brought(tried.push((a, Some(data)))) == brought(tried),
        brought(tried.push((a, None))) == brought(tried),
{
    assert(tried.push((a, Some(data))).drop_last() =~= tried);
    assert(tried.push((a, None::<Seq<u8>>)).drop_last() =~= tried);
}

/// Every document is handed over, under its own name or one after its place, as a uri of
/// its type and its bytes.
pub proof fn law_all_documents_are_handed_over(fetched: Seq<FetchedV>, i: int)
    requires
        0 <= i < fetched.len(),
    ensures
        documents_of(fetched).len() == fetched.len(),
        fetched[i].ptr.file_name is Some && fetched[i].ptr.file_name->0.len() > 0 ==> documents_of(
            fetched,
        )[i].0 == fetched[i].ptr.file_name->0,
        fetched[i].ptr.file_name is None || fetched[i].ptr.file_name->0.len() == 0 ==> documents_of(
            fetched,
        )[i].0 == "document-"@ + decimal((i + 1) as nat) + ".pdf"@,
        documents_of(fetched)[i].1 == "data:"@ + fetched[i].ptr.mime() + ";base64,"@ + base64_text(
            fetched[i].data,
        ),
{
}

/// All attachments that the enabled modalities cover are fetched, in their order.
pub proof fn law_all_enabled_media_is_fetched(cfg: Config, atts: Seq<AttachmentV>, k: Kind)
    ensures
        kept_of_kind(loadable(cfg, atts), k) == atts.filter(
            |a: AttachmentV|
                crate::tools::kind(a.mime()) == Some(k) && match k {
                    Kind::Image => cfg.vision,
                    Kind::Audio => cfg.audio,
                    Kind::Document => cfg.documents,
                    Kind::Text => true,
                },
        ),
    decreases atts.len(),
{
    reveal(Seq::filter);
    if atts.len() > 0 {
        law_all_enabled_media_is_fetched(cfg, atts.drop_last(), k);
        let rest = loadable(cfg, atts.drop_last());
        if cfg.loads(atts.last().mime()) {
            assert(loadable(cfg, atts) == rest.push(atts.last()));
            assert(rest.push(atts.last()).drop_last() =~= rest);
        }
    }
}

} // verus!
