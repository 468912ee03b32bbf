//! Voice notes for the model: 16 kHz mono audio in clips of at most 30 seconds.
use vstd::prelude::*;
use vstd::slice::slice_subrange;

use crate::media::{base64_text, encode_base64};
use crate::text::{
    copy, decimal, decimal_text, lemma_texts_push, lossy, lossy_text, texts, trim, trimmed,
};

verus! {

pub const SAMPLE_RATE: u32 = 16_000;

pub const CHUNK_SECS: usize = 30;

/// A longer voice note is truncated rather than flooding the context: audio
/// costs about 25 tokens per second, so this caps one note at about 7.5k tokens.
pub const MAX_CHUNKS: usize = 10;

pub const MAX_SECS: usize = 300;

/// s16le, one channel
pub const BYTES_PER_SAMPLE: usize = 2;

pub const CHUNK_BYTES: usize = 960_000;

/// The bytes of a number, the least significant first.
pub open spec fn le_bytes(n: nat, width: nat) -> Seq<u8>
    decreases width,
{
    if width == 0 {
        Seq::empty()
    } else {
        seq![(n % 256) as u8] + le_bytes(n / 256, (width - 1) as nat)
    }
}

/// The characters of an ASCII text as bytes.
pub open spec fn ascii(s: Seq<char>) -> Seq<u8> {
    Seq::new(s.len(), |i: int| s[i] as u8)
}

/// The RIFF/WAVE header of `len` bytes of pcm.
pub open spec fn wav_header(len: nat) -> Seq<u8> {
    let block_align = BYTES_PER_SAMPLE as nat;
    ascii("RIFF"@) + le_bytes(36 + len, 4) + ascii("WAVEfmt "@) + le_bytes(16, 4) + le_bytes(1, 2)
        + le_bytes(1, 2) + le_bytes(SAMPLE_RATE as nat, 4) + le_bytes(
        (SAMPLE_RATE * block_align) as nat,
        4,
    ) + le_bytes(block_align, 2) + le_bytes(16, 2) + ascii("data"@) + le_bytes(len, 4)
}

/// The number that bytes stand for, the least significant first.
pub open spec fn le_value(b: Seq<u8>) -> nat
    decreases b.len(),
{
    if b.len() == 0 {
        0
    } else {
        b[0] as nat + 256 * le_value(b.skip(1))
    }
}

proof fn lemma_le_len(n: nat, width: nat)
    ensures
        le_bytes(n, width).len() == width,
    decreases width,
{
    if width > 0 {
        lemma_le_len(n / 256, (width - 1) as nat);
    }
}

proof fn lemma_le_4(n: nat)
    requires
        n <= u32::MAX,
    ensures
        le_value(le_bytes(n, 4)) == n,
        le_bytes(n, 4).len() == 4,
{
    reveal_with_fuel(le_bytes, 5);
    reveal_with_fuel(le_value, 5);
    let b = le_bytes(n, 4);
    assert(b.len() == 4);
    assert(b.skip(1).skip(1) =~= b.skip(2));
    assert(b.skip(2).skip(1) =~= b.skip(3));
    assert(b.skip(3).skip(1) =~= b.skip(4));
    assert(b[0] == n % 256);
    assert(b[1] == n / 256 % 256);
    assert(b[2] == n / 256 / 256 % 256);
    assert(b[3] == n / 256 / 256 / 256 % 256);
    assert(le_value(b.skip(4)) == 0);
    assert(le_value(b.skip(3)) == b[3]);
    assert(le_value(b.skip(2)) == b[2] + 256 * b[3]);
}

fn push_le(out: &mut Vec<u8>, n: u32, width: usize)
    ensures
        final(out)@ == old(out)@ + le_bytes(n as nat, width as nat),
{
    let ghost start = out@;
    let mut left: u32 = n;
    let mut i: usize = 0;
    assert(start + le_bytes(n as nat, width as nat) =~= out@ + le_bytes(left as nat, (width - i) as nat));
    while i < width
        invariant
            i <= width,
            start + le_bytes(n as nat, width as nat) == out@ + le_bytes(
                left as nat,
                (width - i) as nat,
            ),
        decreases width - i,
    {
        let ghost before = out@;
        out.push((left % 256) as u8);
        assert(before + le_bytes(left as nat, (width - i) as nat) =~= out@ + le_bytes(
            left as nat / 256,
            (width - i - 1) as nat,
        ));
        left = left / 256;
        i += 1;
    }
    assert(out@ + Seq::<u8>::empty() =~= out@);
}

fn push_tag(out: &mut Vec<u8>, a: u8, b: u8, c: u8, d: u8)
    ensures
        final(out)@ == old(out)@ + seq![a, b, c, d],
{
    let ghost start = out@;
    out.push(a);
    out.push(b);
    out.push(c);
    out.push(d);
    assert(out@ =~= start + seq![a, b, c, d]);
}

/// Wraps raw pcm in a 44-byte RIFF/WAVE header. The model's loader sniffs magic
/// bytes and only decodes wav, mp3 and flac, so the container has to be one of
/// those.
pub fn to_wav(pcm: &[u8]) -> (r: Vec<u8>)
    requires
        pcm@.len() <= u32::MAX - 36,
    ensures
        r@ == wav_header(pcm@.len()) + pcm@,
{
    let data_len: u32 = pcm.len() as u32;
    let mut out: Vec<u8> = Vec::new();
    proof {
        reveal_strlit("RIFF");
        reveal_strlit("WAVEfmt ");
        reveal_strlit("data");
        assert(ascii("RIFF"@) =~= seq![82u8, 73, 70, 70]);
        assert(ascii("WAVEfmt "@) =~= seq![87u8, 65, 86, 69] + seq![102u8, 109, 116, 32]);
        assert(ascii("data"@) =~= seq![100u8, 97, 116, 97]);
    }
    push_tag(&mut out, 82, 73, 70, 70);
    push_le(&mut out, 36 + data_len, 4);
    push_tag(&mut out, 87, 65, 86, 69);
    push_tag(&mut out, 102, 109, 116, 32);
    push_le(&mut out, 16, 4);
    push_le(&mut out, 1, 2);
    push_le(&mut out, 1, 2);
    push_le(&mut out, 16_000, 4);
    push_le(&mut out, 32_000, 4);
    push_le(&mut out, 2, 2);
    push_le(&mut out, 16, 2);
    push_tag(&mut out, 100, 97, 116, 97);
    push_le(&mut out, data_len, 4);
    assert(out@ =~= wav_header(pcm@.len()));
    let mut payload = vstd::slice::slice_to_vec(pcm);
    out.append(&mut payload);
    out
}

/// The header of a wav is 44 bytes long and declares the exact payload that
/// follows it.
pub proof fn law_header_declares_the_payload(pcm: Seq<u8>)
    requires
        pcm.len() <= u32::MAX - 36,
    ensures
        wav_header(pcm.len()).len() == 44,
        (wav_header(pcm.len()) + pcm).take(4) == ascii("RIFF"@),
        (wav_header(pcm.len()) + pcm).subrange(8, 12) == ascii("WAVE"@),
        le_value((wav_header(pcm.len()) + pcm).subrange(4, 8)) == 36 + pcm.len(),
        le_value((wav_header(pcm.len()) + pcm).subrange(40, 44)) == pcm.len(),
        (wav_header(pcm.len()) + pcm).skip(44) == pcm,
{
    reveal_strlit("RIFF");
    reveal_strlit("WAVE");
    reveal_strlit("WAVEfmt ");
    reveal_strlit("data");
    let n = pcm.len();
    lemma_le_4(36 + n);
    lemma_le_4(n);
    lemma_le_len(16, 4);
    lemma_le_len(1, 2);
    lemma_le_len(16, 2);
    lemma_le_len(2, 2);
    lemma_le_len(16_000, 4);
    lemma_le_len(32_000, 4);
    let h = wav_header(n);
    assert(h.len() == 44);
    let w = h + pcm;
    assert(w.take(4) =~= ascii("RIFF"@));
    assert(w.subrange(4, 8) =~= le_bytes(36 + n, 4));
    assert(w.subrange(8, 12) =~= ascii("WAVE"@));
    assert(w.subrange(40, 44) =~= le_bytes(n, 4));
    assert(w.skip(44) =~= pcm);
}

/// Consecutive runs of at most `size` elements.
pub open spec fn chunks(pcm: Seq<u8>, size: nat) -> Seq<Seq<u8>>
    decreases pcm.len(),
{
    if size == 0 || pcm.len() == 0 {
        Seq::empty()
    } else if pcm.len() <= size {
        seq![pcm]
    } else {
        seq![pcm.take(size as int)] + chunks(pcm.skip(size as int), size)
    }
}

/// One run after the other.
pub open spec fn flat(parts: Seq<Seq<u8>>) -> Seq<u8>
    decreases parts.len(),
{
    if parts.len() == 0 {
        Seq::empty()
    } else {
        parts[0] + flat(parts.skip(1))
    }
}

/// Nothing of a recording is lost or moved by cutting it into clips: each clip
/// is as long as a clip may be, but for the last, which holds the rest, and one
/// after the other they are the recording.
pub proof fn law_clips_are_the_recording(pcm: Seq<u8>, size: nat)
    requires
        size > 0,
    ensures
        flat(chunks(pcm, size)) == pcm,
        forall|i: int|
            0 <= i < chunks(pcm, size).len() ==> 0 < (#[trigger] chunks(pcm, size)[i]).len()
                <= size,
        forall|i: int|
            0 <= i < chunks(pcm, size).len() - 1 ==> (#[trigger] chunks(pcm, size)[i]).len()
                == size,
        chunks(pcm, size).len() * size < pcm.len() + size,
        pcm.len() <= chunks(pcm, size).len() * size,
    decreases pcm.len(),
{
    let all = chunks(pcm, size);
    if pcm.len() == 0 {
        assert(all.len() * size == 0) by (nonlinear_arith)
            requires
                all.len() == 0,
        ;
    } else if pcm.len() <= size {
        assert(all.skip(1) =~= Seq::empty());
        assert(flat(all.skip(1)) =~= Seq::empty());
        assert(flat(all) =~= pcm);
        assert(all.len() * size == size) by (nonlinear_arith)
            requires
                all.len() == 1,
        ;
    } else {
        let rest = chunks(pcm.skip(size as int), size);
        law_clips_are_the_recording(pcm.skip(size as int), size);
        assert(all.skip(1) =~= rest);
        assert(flat(all) =~= pcm);
        assert(all.len() * size == rest.len() * size + size) by (nonlinear_arith)
            requires
                all.len() == rest.len() + 1,
        ;
        assert forall|i: int| 0 <= i < all.len() implies 0 < (#[trigger] all[i]).len() <= size by {
            if i > 0 {
                assert(all[i] == rest[i - 1]);
            }
        }
        assert forall|i: int| 0 <= i < all.len() - 1 implies (#[trigger] all[i]).len() == size by {
            if i > 0 {
                assert(all[i] == rest[i - 1]);
            }
        }
    }
}

/// A recording no longer than what the decoder is asked for is at most ten
/// clips.
pub proof fn law_clip_count_is_capped(pcm: Seq<u8>)
    requires
        pcm.len() <= MAX_SECS * SAMPLE_RATE * BYTES_PER_SAMPLE,
    ensures
        chunks(pcm, CHUNK_BYTES as nat).len() <= MAX_CHUNKS,
{
    law_clips_are_the_recording(pcm, CHUNK_BYTES as nat);
}

/// The clips of a recording: each run of it as wav, in base64.
pub open spec fn clips_of(pcm: Seq<u8>) -> Seq<Seq<char>> {
    let parts = chunks(pcm, CHUNK_BYTES as nat);
    Seq::new(parts.len(), |i: int| base64_text(wav_header(parts[i].len()) + parts[i]))
}

/// Encodes raw pcm as one or more wav clips of at most 30 seconds. A longer
/// recording becomes several consecutive ones.
pub fn clips(pcm: &[u8]) -> (r: Vec<String>)
    ensures
        texts(r@) == clips_of(pcm@),
{
    broadcast use lemma_texts_push;

    let mut out: Vec<String> = Vec::new();
    let mut at: usize = 0;
    let ghost goal = clips_of(pcm@);
    assert(pcm@.skip(0) =~= pcm@);
    assert(texts(out@) + goal =~= goal);
    while at < pcm.len()
        invariant
            at <= pcm.len(),
            goal == texts(out@) + clips_of(pcm@.skip(at as int)),
        decreases pcm.len() - at,
    {
        let end: usize = if pcm.len() - at <= CHUNK_BYTES {
            pcm.len()
        } else {
            at + CHUNK_BYTES
        };
        let part = slice_subrange(pcm, at, end);
        let ghost rest = pcm@.skip(at as int);
        let ghost before = texts(out@);
        let clip = encode_base64(&to_wav(part));
        out.push(clip);
        proof {
            let tail = pcm@.skip(end as int);
            assert(part@ =~= rest.take(end - at));
            if rest.len() <= CHUNK_BYTES {
                assert(part@ =~= rest);
                assert(clips_of(tail) =~= Seq::empty());
            } else {
                assert(rest.skip(CHUNK_BYTES as int) =~= tail);
            }
            assert(clips_of(rest) =~= seq![clip@] + clips_of(tail));
            assert(before + clips_of(rest) =~= texts(out@) + clips_of(tail));
        }
        at = end;
    }
    assert(clips_of(pcm@.skip(at as int)) =~= Seq::empty());
    assert(texts(out@) + Seq::empty() =~= texts(out@));
    out
}

/// What the recordings come to: the clips of each that was decoded to any
/// samples, in order.
pub open spec fn decoded_clips(decoded: Seq<Option<Seq<u8>>>) -> Seq<Seq<char>>
    decreases decoded.len(),
{
    if decoded.len() == 0 {
        Seq::empty()
    } else {
        let rest = decoded_clips(decoded.drop_last());
        match decoded.last() {
            Some(pcm) => rest + clips_of(pcm),
            None => rest,
        }
    }
}

/// The models of recordings that were decoded, or not.
pub open spec fn decoded_all(v: Seq<Option<Vec<u8>>>) -> Seq<Option<Seq<u8>>> {
    Seq::new(v.len(), |i: int| crate::attachment::bytes_opt(v[i]))
}

/// Encodes each decoded recording as clips, skipping anything empty or
/// undecodable.
pub fn encode_audio(decoded: &Vec<Option<Vec<u8>>>) -> (r: Vec<String>)
    ensures
        texts(r@) == decoded_clips(decoded_all(decoded@)),
{
    let ghost all = decoded_all(decoded@);
    let mut out: Vec<String> = Vec::new();
    assert(all.take(0) =~= Seq::empty());
    assert(texts(out@) =~= Seq::empty());
    for i in 0..decoded.len()
        invariant
            all == decoded_all(decoded@),
            texts(out@) == decoded_clips(all.take(i as int)),
    {
        assert(all.take(i + 1).drop_last() =~= all.take(i as int));
        let ghost before = out@;
        if let Some(pcm) = &decoded[i] {
            let mut more = clips(pcm);
            let ghost added = more@;
            out.append(&mut more);
            assert(texts(out@) =~= texts(before) + texts(added));
        }
    }
    assert(all.take(all.len() as int) =~= all);
    out
}

/// The number of bytes from which on a recording has been cut short.
pub fn is_truncated(pcm_len: usize) -> (r: bool)
    ensures
        r == (pcm_len >= MAX_SECS * SAMPLE_RATE * BYTES_PER_SAMPLE),
{
    pcm_len >= 9_600_000
}

/// What the decoder is told: the file at `path`, played back at `tempo` where
/// one is given, cut off at the longest that is kept, as raw 16 kHz mono s16le
/// pcm.
pub open spec fn decode_args_of(path: Seq<char>, tempo: Option<Seq<char>>) -> Seq<Seq<char>> {
    seq!["-hide_banner"@, "-loglevel"@, "error"@, "-i"@, path] + (match tempo {
        Some(t) => seq!["-filter:a"@, "atempo="@ + t],
        None => Seq::empty(),
    }) + seq![
        "-t"@,
        decimal(MAX_SECS as nat),
        "-f"@,
        "s16le"@,
        "-acodec"@,
        "pcm_s16le"@,
        "-ar"@,
        decimal(SAMPLE_RATE as nat),
        "-ac"@,
        "1"@,
        "pipe:1"@,
    ]
}

/// The decoder's arguments. The length bound keeps a long recording from
/// ballooning into memory; it applies to the sped-up output, which is what is
/// cut into clips.
pub fn decode_args(path: &str, tempo: Option<String>) -> (r: Vec<String>)
    ensures
        texts(r@) == decode_args_of(path@, crate::attachment::text_opt(tempo)),
{
    let mut args: Vec<String> = Vec::new();
    args.push(copy("-hide_banner"));
    args.push(copy("-loglevel"));
    args.push(copy("error"));
    args.push(copy("-i"));
    args.push(copy(path));
    if let Some(t) = &tempo {
        args.push(copy("-filter:a"));
        let mut filter = copy("atempo=");
        filter.append(t);
        args.push(filter);
    }
    args.push(copy("-t"));
    args.push(decimal_text(300));
    args.push(copy("-f"));
    args.push(copy("s16le"));
    args.push(copy("-acodec"));
    args.push(copy("pcm_s16le"));
    args.push(copy("-ar"));
    args.push(decimal_text(16_000));
    args.push(copy("-ac"));
    args.push(copy("1"));
    args.push(copy("pipe:1"));
    assert(texts(args@) =~= decode_args_of(path@, crate::attachment::text_opt(tempo)));
    args
}

/// What a run of the decoder came to. A partial decode is still worth keeping,
/// so only a run that produced nothing counts as an error.
pub fn decoded(success: bool, stdout: Vec<u8>, stderr: &[u8]) -> (r: Result<Vec<u8>, String>)
    ensures
        match r {
            Ok(pcm) => (success || stdout@.len() > 0) && pcm == stdout,
            Err(e) => !success && stdout@.len() == 0 && e@ == "ffmpeg: "@ + trimmed(
                lossy(stderr@),
            ),
        },
{
    if !success && stdout.len() == 0 {
        let mut e = copy("ffmpeg: ");
        e.append(&trim(&lossy_text(stderr)));
        Err(e)
    } else {
        Ok(stdout)
    }
}

/// Audio is one channel of 16-bit samples, sixteen thousand of them a second; a clip holds
/// thirty seconds of it, and a recording is cut off at five minutes.
pub proof fn law_the_measures_of_audio()
    ensures
        SAMPLE_RATE == 16_000,
        BYTES_PER_SAMPLE == 2,
        CHUNK_BYTES == 30 * 16_000 * 2,
        CHUNK_SECS == 30,
        MAX_SECS == 5 * 60,
        MAX_CHUNKS * CHUNK_SECS == MAX_SECS,
{
}

proof fn lemma_le_2(n: nat)
    requires
        n <= u16::MAX,
    ensures
        le_value(le_bytes(n, 2)) == n,
        le_bytes(n, 2).len() == 2,
{
    reveal_with_fuel(le_bytes, 3);
    reveal_with_fuel(le_value, 3);
    let b = le_bytes(n, 2);
    assert(b.len() == 2);
    assert(b[0] == n % 256);
    assert(b[1] == n / 256 % 256);
    assert(b.skip(1).skip(1) =~= b.skip(2));
    assert(le_value(b.skip(2)) == 0);
    assert(le_value(b.skip(1)) == b[1]);
}

/// A wav says of its samples what they are: uncompressed, one channel, sixteen thousand a
/// second of two bytes each.
pub proof fn law_header_describes_the_samples(n: nat)
    requires
        n <= u32::MAX - 36,
    ensures
        wav_header(n).subrange(12, 16) == ascii("fmt "@),
        le_value(wav_header(n).subrange(16, 20)) == 16,
        le_value(wav_header(n).subrange(20, 22)) == 1,
        le_value(wav_header(n).subrange(22, 24)) == 1,
        le_value(wav_header(n).subrange(24, 28)) == 16_000,
        le_value(wav_header(n).subrange(28, 32)) == 32_000,
        le_value(wav_header(n).subrange(32, 34)) == 2,
        le_value(wav_header(n).subrange(34, 36)) == 16,
        wav_header(n).subrange(36, 40) == ascii("data"@),
{
    reveal_strlit("RIFF");
    reveal_strlit("WAVEfmt ");
    reveal_strlit("fmt ");
    reveal_strlit("data");
    lemma_le_4(36 + n);
    lemma_le_4(n);
    lemma_le_4(16);
    lemma_le_4(16_000);
    lemma_le_4(32_000);
    lemma_le_2(1);
    lemma_le_2(2);
    lemma_le_2(16);
    let h = wav_header(n);
    assert(h.subrange(12, 16) =~= ascii("fmt "@));
    assert(h.subrange(16, 20) =~= le_bytes(16, 4));
    assert(h.subrange(20, 22) =~= le_bytes(1, 2));
    assert(h.subrange(22, 24) =~= le_bytes(1, 2));
    assert(h.subrange(24, 28) =~= le_bytes(16_000, 4));
    assert(h.subrange(28, 32) =~= le_bytes(32_000, 4));
    assert(h.subrange(32, 34) =~= le_bytes(2, 2));
    assert(h.subrange(34, 36) =~= le_bytes(16, 2));
    assert(h.subrange(36, 40) =~= ascii("data"@));
}

/// A recording of up to thirty seconds is one clip, all of it; of a longer one the first
/// thirty seconds are a clip and the rest is cut in the same way. Each clip is a wav.
pub proof fn law_a_recording_becomes_clips(pcm: Seq<u8>)
    ensures
        pcm.len() == 0 ==> clips_of(pcm).len() == 0,
        0 < pcm.len() <= 960_000 ==> clips_of(pcm) == seq![
            base64_text(wav_header(pcm.len()) + pcm),
        ],
        pcm.len() > 960_000 ==> clips_of(pcm) == seq![
            base64_text(wav_header(960_000) + pcm.take(960_000)),
        ] + clips_of(pcm.skip(960_000)),
{
    if 0 < pcm.len() <= 960_000 {
        assert(clips_of(pcm) =~= seq![base64_text(wav_header(pcm.len()) + pcm)]);
    } else if pcm.len() > 960_000 {
        assert(clips_of(pcm) =~= seq![base64_text(wav_header(960_000) + pcm.take(960_000))]
            + clips_of(pcm.skip(960_000)));
    }
}

/// Every recording that could be decoded is heard, all its clips, in order; one that could
/// not is passed over.
pub proof fn law_all_recordings_are_heard(decoded: Seq<Option<Seq<u8>>>, pcm: Seq<u8>)
    ensures
        decoded_clips(Seq::empty()).len() == 0,
        decoded_clips(decoded.push(Some(pcm))) == decoded_clips(decoded) + clips_of(pcm),
        decoded_clips(decoded.push(None)) == decoded_clips(decoded),
{
    assert(decoded.push(Some(pcm)).drop_last() =~= decoded);
    assert(decoded.push(None).drop_last() =~= decoded);
}

/// The decoder is given the file, and asked for five minutes at most of raw audio in the
/// form that the clips are in, faster where a tempo is given.
pub proof fn law_what_the_decoder_is_asked_for(path: Seq<char>, tempo: Seq<char>)
    ensures
        ({
            let plain = decode_args_of(path, None);
            let faster = decode_args_of(path, Some(tempo));
            &&& plain.len() == 16
            &&& plain[3] == "-i"@ && plain[4] == path
            &&& plain[5] == "-t"@ && plain[6] == decimal(300)
            &&& plain[7] == "-f"@ && plain[8] == "s16le"@
            &&& plain[9] == "-acodec"@ && plain[10] == "pcm_s16le"@
            &&& plain[11] == "-ar"@ && plain[12] == decimal(16_000)
            &&& plain[13] == "-ac"@ && plain[14] == "1"@
            &&& plain[15] == "pipe:1"@
            &&& faster == plain.take(5) + seq!["-filter:a"@, "atempo="@ + tempo] + plain.skip(5)
        }),
{
    let plain = decode_args_of(path, None);
    let faster = decode_args_of(path, Some(tempo));
    assert(faster =~= plain.take(5) + seq!["-filter:a"@, "atempo="@ + tempo] + plain.skip(5));
}

} // verus!
