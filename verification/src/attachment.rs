//! Attachments as the bot's rules see them.
use vstd::prelude::*;

use crate::text::copy_opt;

verus! {

/// What the rules read of an attachment pointer. `handle` is the number by which
/// whoever received the message finds the pointer itself again.
pub struct Attachment {
    pub handle: u64,
    pub content_type: Option<String>,
    pub file_name: Option<String>,
    pub size: Option<u32>,
    pub digest: Option<Vec<u8>>,
}

/// The mathematical model of an attachment.
pub struct AttachmentV {
    pub handle: u64,
    pub content_type: Option<Seq<char>>,
    pub file_name: Option<Seq<char>>,
    pub size: Option<u32>,
    pub digest: Option<Seq<u8>>,
}

/// The text of an optional string.
pub open spec fn text_opt(s: Option<String>) -> Option<Seq<char>> {
    match s {
        Some(t) => Some(t@),
        None => None,
    }
}

/// The content of an optional byte vector.
pub open spec fn bytes_opt(b: Option<Vec<u8>>) -> Option<Seq<u8>> {
    match b {
        Some(v) => Some(v@),
        None => None,
    }
}

impl View for Attachment {
    type V = AttachmentV;

    open spec fn view(&self) -> AttachmentV {
        AttachmentV {
            handle: self.handle,
            content_type: text_opt(self.content_type),
            file_name: text_opt(self.file_name),
            size: self.size,
            digest: bytes_opt(self.digest),
        }
    }
}

impl AttachmentV {
    /// The content type; empty where none is given.
    pub open spec fn mime(self) -> Seq<char> {
        match self.content_type {
            Some(t) => t,
            None => Seq::empty(),
        }
    }

    /// The file name, where one is given that is not empty.
    pub open spec fn name(self) -> Option<Seq<char>> {
        match self.file_name {
            Some(n) => if n.len() > 0 {
                Some(n)
            } else {
                None
            },
            None => None,
        }
    }

    /// Both carry a digest, and it is the same one.
    pub open spec fn same_file(self, other: AttachmentV) -> bool {
        self.digest is Some && self.digest == other.digest
    }
}

/// The models of a list of attachments.
pub open spec fn attachments(v: Seq<Attachment>) -> Seq<AttachmentV> {
    Seq::new(v.len(), |i: int| v[i]@)
}

/// One attachment more is one model more.
pub broadcast proof fn lemma_attachments_push(v: Seq<Attachment>, x: Attachment)
    ensures
        #[trigger] attachments(v.push(x)) == attachments(v).push(x@),
{
    assert(attachments(v.push(x)) =~= attachments(v).push(x@));
}

/// A copy of a byte vector.
pub fn copy_bytes(b: &[u8]) -> (r: Vec<u8>)
    ensures
        r@ == b@,
{
    vstd::slice::slice_to_vec(b)
}

/// Whether two runs of bytes are equal.
pub fn same_bytes(a: &[u8], b: &[u8]) -> (r: bool)
    ensures
        r == (a@ == b@),
{
    if a.len() != b.len() {
        return false;
    }
    for i in 0..a.len()
        invariant
            a@.len() == b@.len(),
            forall|j: int| 0 <= j < i ==> a@[j] == b@[j],
    {
        if a[i] != b[i] {
            return false;
        }
    }
    assert(a@ =~= b@);
    true
}

impl Attachment {
    /// The content type; empty where none is given.
    pub fn mime(&self) -> (r: String)
        ensures
            r@ == self@.mime(),
    {
        match &self.content_type {
            Some(t) => t.clone(),
            None => String::new(),
        }
    }

    /// The file name, where one is given that is not empty.
    pub fn name(&self) -> (r: Option<String>)
        ensures
            text_opt(r) == self@.name(),
    {
        match &self.file_name {
            Some(n) => if n.as_str().is_empty() {
                None
            } else {
                Some(n.clone())
            },
            None => None,
        }
    }

    /// A copy of the attachment.
    pub fn copy(&self) -> (r: Attachment)
        ensures
            r@ == self@,
    {
        Attachment {
            handle: self.handle,
            content_type: copy_opt(&self.content_type),
            file_name: copy_opt(&self.file_name),
            size: self.size,
            digest: match &self.digest {
                Some(d) => Some(copy_bytes(d)),
                None => None,
            },
        }
    }
}

/// Copies of the attachments of a list.
pub fn copy_attachments(v: &[Attachment]) -> (r: Vec<Attachment>)
    ensures
        attachments(r@) == attachments(v@),
{
    broadcast use lemma_attachments_push;

    let mut out: Vec<Attachment> = Vec::new();
    for i in 0..v.len()
        invariant
            attachments(out@) == attachments(v@).take(i as int),
    {
        out.push(v[i].copy());
        assert(attachments(v@).take(i + 1) =~= attachments(v@).take(i as int).push(
            v@[i as int]@,
        ));
    }
    assert(attachments(v@).take(v@.len() as int) =~= attachments(v@));
    out
}

/// A file is the same as another where both carry a digest and it is the same one;
/// without a digest nothing is.
pub proof fn law_files_go_by_their_digest(a: AttachmentV, b: AttachmentV, x: Seq<u8>, y: Seq<u8>)
    ensures
        a.digest == Some(x) && b.digest == Some(y) ==> (a.same_file(b) <==> x == y),
        a.digest is None || b.digest is None ==> !a.same_file(b),
        a.content_type is Some ==> a.mime() == a.content_type->0,
        a.content_type is None ==> a.mime().len() == 0,
        a.file_name is Some && a.file_name->0.len() > 0 ==> a.name() == a.file_name,
        a.file_name is None || a.file_name->0.len() == 0 ==> a.name() is None,
{
}

} // verus!
