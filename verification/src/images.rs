//! Images for the model.
use vstd::prelude::*;

use crate::attachment::bytes_opt;
use crate::media::{
    base64_text, encode_base64, fetched_all, lemma_pairs_push, pairs, Fetched, FetchedV,
};
use crate::text::{copy, same_text};

verus! {

/// What `image::load_from_memory` and `DynamicImage::write_to` make of an
/// encoded image: the same image as png.
pub uninterp spec fn png_bytes(data: Seq<u8>) -> Option<Seq<u8>>;

/// `image::load_from_memory`, then `DynamicImage::write_to` in the png format:
/// the image as png, or nothing where it cannot be read or written. What it is
/// depends on the bytes alone.
#[verifier::external_body]
fn transcode_png(data: &[u8]) -> (r: Option<Vec<u8>>)
    ensures
        bytes_opt(r) == png_bytes(data@),
{
    let img = image::load_from_memory(data).ok()?;
    let mut png = Vec::new();
    img.write_to(&mut std::io::Cursor::new(&mut png), image::ImageFormat::Png).ok()?;
    Some(png)
}

/// The types that the model's image loader reads and that are handed on as they
/// are.
pub open spec fn handed_on(mime: Seq<char>) -> bool {
    mime == "image/jpeg"@ || mime == "image/png"@
}

/// An image as (mime, base64): as it is where its type is handed on, else what
/// it is as png.
pub open spec fn image_pair(mime: Seq<char>, data: Seq<u8>, png: Option<Seq<u8>>) -> Option<
    (Seq<char>, Seq<char>),
> {
    if handed_on(mime) {
        Some((mime, base64_text(data)))
    } else {
        match png {
            Some(p) => Some(("image/png"@, base64_text(p))),
            None => None,
        }
    }
}

/// The texts of an optional pair.
pub open spec fn pair_opt(v: Option<(String, String)>) -> Option<(Seq<char>, Seq<char>)> {
    match v {
        Some((a, b)) => Some((a@, b@)),
        None => None,
    }
}

/// A png for the model, where there is one.
pub fn encode_png(png: Option<Vec<u8>>) -> (r: Option<(String, String)>)
    ensures
        pair_opt(r) == (match png {
            Some(p) => Some(("image/png"@, base64_text(p@))),
            None => None,
        }),
{
    match png {
        Some(p) => Some((copy("image/png"), encode_base64(&p))),
        None => None,
    }
}

/// Encodes raw image bytes as a (mime, base64) pair that the model can load.
/// The image loader behind it reads jpeg and png but not webp, so anything else
/// (webp stickers, etc.) is transcoded to png.
pub fn encode_image(mime: &str, data: &[u8]) -> (r: Option<(String, String)>)
    ensures
        pair_opt(r) == image_pair(mime@, data@, png_bytes(data@)),
{
    if same_text(mime, "image/jpeg") || same_text(mime, "image/png") {
        Some((copy(mime), encode_base64(data)))
    } else {
        encode_png(transcode_png(data))
    }
}

/// The images that could be encoded, in order.
pub open spec fn images_of(fetched: Seq<FetchedV>) -> Seq<(Seq<char>, Seq<char>)>
    decreases fetched.len(),
{
    if fetched.len() == 0 {
        Seq::empty()
    } else {
        let rest = images_of(fetched.drop_last());
        let f = fetched.last();
        match image_pair(f.ptr.mime(), f.data, png_bytes(f.data)) {
            Some(p) => rest.push(p),
            None => rest,
        }
    }
}

/// Encodes image attachments, skipping any that cannot be decoded.
pub fn encode_images(fetched: &Vec<Fetched>) -> (r: Vec<(String, String)>)
    ensures
        pairs(r@) == images_of(fetched_all(fetched@)),
{
    broadcast use lemma_pairs_push;

    let ghost all = fetched_all(fetched@);
    let mut out: Vec<(String, String)> = Vec::new();
    assert(all.take(0) =~= Seq::empty());
    assert(pairs(out@) =~= Seq::empty());
    for i in 0..fetched.len()
        invariant
            all == fetched_all(fetched@),
            pairs(out@) == images_of(all.take(i as int)),
    {
        assert(all.take(i + 1).drop_last() =~= all.take(i as int));
        let mime = fetched[i].ptr.mime();
        if let Some(pair) = encode_image(&mime, &fetched[i].data) {
            out.push(pair);
        }
    }
    assert(all.take(all.len() as int) =~= all);
    out
}

/// A jpeg or a png is handed on as it is, byte for byte and under its own type; any other
/// image as the png that it was made, where it could be made one.
pub proof fn law_images_are_made_readable(mime: Seq<char>, data: Seq<u8>, png: Seq<u8>)
    ensures
        mime == "image/jpeg"@ || mime == "image/png"@ ==> image_pair(mime, data, None) == Some(
            (mime, base64_text(data)),
        ) && image_pair(mime, data, Some(png)) == Some((mime, base64_text(data))),
        mime != "image/jpeg"@ && mime != "image/png"@ ==> image_pair(mime, data, Some(png)) == Some(
            ("image/png"@, base64_text(png)),
        ) && image_pair(mime, data, None) is None,
{
}

/// Every image that can be encoded is, in its order.
pub proof fn law_all_images_are_encoded(fetched: Seq<FetchedV>, f: FetchedV)
    ensures
        images_of(Seq::empty()).len() == 0,
        f.ptr.mime() == "image/jpeg"@ || f.ptr.mime() == "image/png"@ ==> images_of(fetched.push(f))
            == images_of(fetched).push((f.ptr.mime(), base64_text(f.data))),
        f.ptr.mime() != "image/jpeg"@ && f.ptr.mime() != "image/png"@ && png_bytes(f.data) is Some
            ==> images_of(fetched.push(f)) == images_of(fetched).push(
            ("image/png"@, base64_text(png_bytes(f.data)->0)),
        ),
        f.ptr.mime() != "image/jpeg"@ && f.ptr.mime() != "image/png"@ && png_bytes(f.data) is None
            ==> images_of(fetched.push(f)) == images_of(fetched),
{
    assert(fetched.push(f).drop_last() =~= fetched);
}

} // verus!
