//! The Fomoxa wire format: every field at its declared width, in declaration
//! order, little-endian, with no tags. A `bool` is one byte, 0 or 1; a
//! string is its UTF-8 byte length as a `u32` and then the bytes; an array
//! is its element count as a `u32` and then the elements.

use vstd::prelude::*;
use vstd::utf8::*;
use crate::bytes::{get16, get32, get64, le16, le32, le64, push16, push32, push64, read16, read32, read64};
use crate::bytes::{lemma_le16_read16, lemma_le32_read32, lemma_le64_read64, lemma_read16_le16, lemma_read32_le32, lemma_read64_le64};
use crate::text::utf8_str;
use crate::messages::{Chat, ChatView, Input, Stats, Transform, TransformBatch, TransformBatchView};

verus! {

broadcast use {vstd::utf8::encode_utf8_valid_utf8, vstd::utf8::encode_utf8_decode_utf8};

/// Why a Fomoxa decoder refused its input.
#[derive(Clone, Copy, Debug, PartialEq, Eq, Structural)]
pub enum DecodeError {
    /// The input ended inside a field.
    UnexpectedEnd,
    /// A `bool` byte was neither 0 nor 1.
    InvalidBool,
    /// A string's bytes were not UTF-8.
    InvalidUtf8,
}

pub open spec fn bool_byte(b: bool) -> u8 {
    if b {
        1
    } else {
        0
    }
}

// ---------------------------------------------------------------- encodings

pub open spec fn input_bytes(m: Input) -> Seq<u8> {
    le32(m.sequence) + le32(m.move_x) + le32(m.move_z) + seq![bool_byte(m.jump)] + le32(m.look_yaw)
        + le32(m.look_pitch)
}

pub open spec fn transform_bytes(t: Transform) -> Seq<u8> {
    le32(t.entity_id) + seq![t.kind] + le32(t.color) + le32(t.position_x) + le32(t.position_y)
        + le32(t.position_z) + le32(t.yaw) + le32(t.pitch)
}

/// The transforms of `ts`, one after the other.
pub open spec fn transforms_bytes(ts: Seq<Transform>) -> Seq<u8>
    decreases ts.len(),
{
    if ts.len() == 0 {
        Seq::empty()
    } else {
        transforms_bytes(ts.drop_last()) + transform_bytes(ts.last())
    }
}

pub open spec fn batch_bytes(b: TransformBatchView) -> Seq<u8> {
    le32(b.sequence) + le32(b.transforms.len() as u32) + transforms_bytes(b.transforms)
}

pub open spec fn chat_bytes(c: ChatView) -> Seq<u8> {
    le32(c.sender_id) + le16(c.channel) + le64(c.sent_at_millis) + le32(
        encode_utf8(c.text).len() as u32,
    ) + encode_utf8(c.text)
}

pub open spec fn stats_bytes(m: Stats) -> Seq<u8> {
    le64(m.player_id) + le16(m.level) + le32(m.health) + le32(m.mana) + le32(m.gold) + le64(
        m.experience,
    ) + le32(m.kills) + le32(m.deaths)
}

// ---------------------------------------------------------------- decodings

/// The `Transform` whose encoding starts at `s[at]`.
pub open spec fn transform_at(s: Seq<u8>, at: int) -> Transform {
    Transform {
        entity_id: read32(s, at),
        kind: s[at + 4],
        color: read32(s, at + 5),
        position_x: read32(s, at + 9),
        position_y: read32(s, at + 13),
        position_z: read32(s, at + 17),
        yaw: read32(s, at + 21),
        pitch: read32(s, at + 25),
    }
}

/// What decoding an `Input` from the start of `s` gives: fields are read in
/// order, and the first one that does not fit, or is not a valid `bool`,
/// decides the error. Bytes after the message are not read.
pub open spec fn decode_input_spec(s: Seq<u8>) -> Result<Input, DecodeError> {
    if s.len() < 13 {
        Err(DecodeError::UnexpectedEnd)
    } else if s[12] > 1 {
        Err(DecodeError::InvalidBool)
    } else if s.len() < 21 {
        Err(DecodeError::UnexpectedEnd)
    } else {
        Ok(
            Input {
                sequence: read32(s, 0),
                move_x: read32(s, 4),
                move_z: read32(s, 8),
                jump: s[12] == 1,
                look_yaw: read32(s, 13),
                look_pitch: read32(s, 17),
            },
        )
    }
}

pub open spec fn decode_transform_spec(s: Seq<u8>) -> Result<Transform, DecodeError> {
    if s.len() < 29 {
        Err(DecodeError::UnexpectedEnd)
    } else {
        Ok(transform_at(s, 0))
    }
}

pub open spec fn decode_batch_spec(s: Seq<u8>) -> Result<TransformBatchView, DecodeError> {
    if s.len() < 8 || s.len() < 8 + 29 * read32(s, 4) {
        Err(DecodeError::UnexpectedEnd)
    } else {
        Ok(
            TransformBatchView {
                sequence: read32(s, 0),
                transforms: Seq::new(read32(s, 4) as nat, |i: int| transform_at(s, 8 + 29 * i)),
            },
        )
    }
}

pub open spec fn decode_chat_spec(s: Seq<u8>) -> Result<ChatView, DecodeError> {
    if s.len() < 18 || s.len() < 18 + read32(s, 14) {
        Err(DecodeError::UnexpectedEnd)
    } else if !valid_utf8(s.subrange(18, 18 + read32(s, 14))) {
        Err(DecodeError::InvalidUtf8)
    } else {
        Ok(
            ChatView {
                sender_id: read32(s, 0),
                channel: read16(s, 4),
                sent_at_millis: read64(s, 6),
                text: decode_utf8(s.subrange(18, 18 + read32(s, 14))),
            },
        )
    }
}

pub open spec fn decode_stats_spec(s: Seq<u8>) -> Result<Stats, DecodeError> {
    if s.len() < 38 {
        Err(DecodeError::UnexpectedEnd)
    } else {
        Ok(
            Stats {
                player_id: read64(s, 0),
                level: read16(s, 8),
                health: read32(s, 10),
                mana: read32(s, 14),
                gold: read32(s, 18),
                experience: read64(s, 22),
                kills: read32(s, 30),
                deaths: read32(s, 34),
            },
        )
    }
}

// ---------------------------------------------------------------- lemmas

proof fn lemma_window(s: Seq<u8>, w: Seq<u8>, at: int, a: int, b: int)
    requires
        0 <= at,
        0 <= a <= b <= w.len(),
        at + w.len() <= s.len(),
        s.subrange(at, at + w.len()) == w,
    ensures
        s.subrange(at + a, at + b) == w.subrange(a, b),
{
    assert(s.subrange(at + a, at + b) =~= s.subrange(at, at + w.len()).subrange(a, b));
}

/// A transform's encoding is 29 bytes, and it reads back as the transform.
pub proof fn lemma_transform_at(t: Transform, s: Seq<u8>, at: int)
    requires
        0 <= at,
        at + 29 <= s.len(),
        s.subrange(at, at + 29) == transform_bytes(t),
    ensures
        transform_at(s, at) == t,
{
    let w = transform_bytes(t);
    assert(w.len() == 29);
    lemma_window(s, w, at, 0, 4);
    assert(w.subrange(0, 4) =~= le32(t.entity_id));
    lemma_read32_le32(t.entity_id, s, at);
    assert(s[at + 4] == w[4]) by {
        assert(s.subrange(at, at + 29)[4] == s[at + 4]);
    }
    let fields = seq![t.color, t.position_x, t.position_y, t.position_z, t.yaw, t.pitch];
    assert forall|k: int| 0 <= k < 6 implies read32(s, at + 5 + 4 * k) == #[trigger] fields[k] by {
        lemma_window(s, w, at, 5 + 4 * k, 9 + 4 * k);
        assert(w.subrange(5 + 4 * k, 9 + 4 * k) =~= le32(fields[k]));
        lemma_read32_le32(fields[k], s, at + 5 + 4 * k);
    }
    assert(fields[0] == t.color);
    assert(fields[1] == t.position_x);
    assert(fields[2] == t.position_y);
    assert(fields[3] == t.position_z);
    assert(fields[4] == t.yaw);
    assert(fields[5] == t.pitch);
}

/// The bytes a transform was read from are its encoding.
pub proof fn lemma_transform_bytes_at(s: Seq<u8>, at: int)
    requires
        0 <= at,
        at + 29 <= s.len(),
    ensures
        transform_bytes(transform_at(s, at)) == s.subrange(at, at + 29),
{
    lemma_le32_read32(s, at);
    lemma_le32_read32(s, at + 5);
    lemma_le32_read32(s, at + 9);
    lemma_le32_read32(s, at + 13);
    lemma_le32_read32(s, at + 17);
    lemma_le32_read32(s, at + 21);
    lemma_le32_read32(s, at + 25);
    assert(transform_bytes(transform_at(s, at)) =~= s.subrange(at, at + 29));
}

/// The transforms of a sequence take 29 bytes each, and the `i`-th sits at
/// `29 * i`.
pub proof fn lemma_transforms_bytes(ts: Seq<Transform>)
    ensures
        transforms_bytes(ts).len() == 29 * ts.len(),
        forall|i: int|
            0 <= i < ts.len() ==> transforms_bytes(ts).subrange(29 * i, 29 * i + 29)
                == transform_bytes(#[trigger] ts[i]),
    decreases ts.len(),
{
    if ts.len() > 0 {
        let init = ts.drop_last();
        lemma_transforms_bytes(init);
        let whole = transforms_bytes(ts);
        assert forall|i: int| 0 <= i < ts.len() implies whole.subrange(29 * i, 29 * i + 29)
            == transform_bytes(#[trigger] ts[i]) by {
            if i < ts.len() - 1 {
                assert(init[i] == ts[i]);
                assert(whole.subrange(29 * i, 29 * i + 29) =~= transforms_bytes(init).subrange(
                    29 * i,
                    29 * i + 29,
                ));
            } else {
                assert(whole.subrange(29 * i, 29 * i + 29) =~= transform_bytes(ts.last()));
            }
        }
    }
}

/// `transforms_bytes` of a prefix one longer adds the next transform.
pub proof fn lemma_transforms_bytes_take(ts: Seq<Transform>, i: int)
    requires
        0 <= i < ts.len(),
    ensures
        transforms_bytes(ts.take(i + 1)) == transforms_bytes(ts.take(i)) + transform_bytes(ts[i]),
{
    assert(ts.take(i + 1).drop_last() =~= ts.take(i));
    assert(ts.take(i + 1).last() == ts[i]);
}

// ---------------------------------------------------------------- encoders

pub fn encode_input(m: &Input, out: &mut Vec<u8>)
    ensures
        final(out)@ == old(out)@ + input_bytes(*m),
{
    push32(out, m.sequence);
    push32(out, m.move_x);
    push32(out, m.move_z);
    out.push(if m.jump {
        1u8
    } else {
        0u8
    });
    push32(out, m.look_yaw);
    push32(out, m.look_pitch);
    assert(out@ =~= old(out)@ + input_bytes(*m));
}

pub fn encode_transform(t: &Transform, out: &mut Vec<u8>)
    ensures
        final(out)@ == old(out)@ + transform_bytes(*t),
{
    push32(out, t.entity_id);
    out.push(t.kind);
    push32(out, t.color);
    push32(out, t.position_x);
    push32(out, t.position_y);
    push32(out, t.position_z);
    push32(out, t.yaw);
    push32(out, t.pitch);
    assert(out@ =~= old(out)@ + transform_bytes(*t));
}

pub fn encode_batch(b: &TransformBatch, out: &mut Vec<u8>)
    requires
        b.transforms@.len() <= u32::MAX,
    ensures
        final(out)@ == old(out)@ + batch_bytes(b@),
{
    push32(out, b.sequence);
    push32(out, b.transforms.len() as u32);
    let ghost start = out@;
    let mut i: usize = 0;
    while i < b.transforms.len()
        invariant
            i <= b.transforms@.len(),
            out@ == start + transforms_bytes(b.transforms@.take(i as int)),
        decreases b.transforms@.len() - i,
    {
        proof {
            lemma_transforms_bytes_take(b.transforms@, i as int);
        }
        encode_transform(&b.transforms[i], out);
        i = i + 1;
    }
    assert(b.transforms@.take(i as int) =~= b.transforms@);
    assert(out@ =~= old(out)@ + batch_bytes(b@));
}

pub fn encode_chat(c: &Chat, out: &mut Vec<u8>)
    requires
        encode_utf8(c.text@).len() <= u32::MAX,
    ensures
        final(out)@ == old(out)@ + chat_bytes(c@),
{
    push32(out, c.sender_id);
    push16(out, c.channel);
    push64(out, c.sent_at_millis);
    let text = c.text.as_str().as_bytes();
    push32(out, text.len() as u32);
    let ghost start = out@;
    let mut i: usize = 0;
    while i < text.len()
        invariant
            i <= text@.len(),
            out@ == start + text@.take(i as int),
        decreases text@.len() - i,
    {
        out.push(text[i]);
        i = i + 1;
        assert(out@ =~= start + text@.take(i as int));
    }
    assert(text@.take(i as int) =~= text@);
    assert(out@ =~= old(out)@ + chat_bytes(c@));
}

pub fn encode_stats(m: &Stats, out: &mut Vec<u8>)
    ensures
        final(out)@ == old(out)@ + stats_bytes(*m),
{
    push64(out, m.player_id);
    push16(out, m.level);
    push32(out, m.health);
    push32(out, m.mana);
    push32(out, m.gold);
    push64(out, m.experience);
    push32(out, m.kills);
    push32(out, m.deaths);
    assert(out@ =~= old(out)@ + stats_bytes(*m));
}

// ---------------------------------------------------------------- decoders

pub fn decode_input(s: &[u8]) -> (r: Result<Input, DecodeError>)
    ensures
        r == decode_input_spec(s@),
{
    if s.len() < 13 {
        return Err(DecodeError::UnexpectedEnd);
    }
    if s[12] > 1 {
        return Err(DecodeError::InvalidBool);
    }
    if s.len() < 21 {
        return Err(DecodeError::UnexpectedEnd);
    }
    Ok(
        Input {
            sequence: get32(s, 0),
            move_x: get32(s, 4),
            move_z: get32(s, 8),
            jump: s[12] == 1,
            look_yaw: get32(s, 13),
            look_pitch: get32(s, 17),
        },
    )
}

/// The transform encoded at `s[at]`.
pub fn transform_from(s: &[u8], at: usize) -> (t: Transform)
    requires
        at + 29 <= s@.len(),
    ensures
        t == transform_at(s@, at as int),
{
    let len = s.len();
    assert(at + 29 <= len);
    Transform {
        entity_id: get32(s, at),
        kind: s[at + 4],
        color: get32(s, at + 5),
        position_x: get32(s, at + 9),
        position_y: get32(s, at + 13),
        position_z: get32(s, at + 17),
        yaw: get32(s, at + 21),
        pitch: get32(s, at + 25),
    }
}

pub fn decode_transform(s: &[u8]) -> (r: Result<Transform, DecodeError>)
    ensures
        r == decode_transform_spec(s@),
{
    if s.len() < 29 {
        return Err(DecodeError::UnexpectedEnd);
    }
    Ok(transform_from(s, 0))
}

pub fn decode_batch(s: &[u8]) -> (r: Result<TransformBatch, DecodeError>)
    ensures
        match r {
            Ok(b) => decode_batch_spec(s@) == Ok::<TransformBatchView, DecodeError>(b@),
            Err(e) => decode_batch_spec(s@) == Err::<TransformBatchView, DecodeError>(e),
        },
{
    if s.len() < 8 {
        return Err(DecodeError::UnexpectedEnd);
    }
    let sequence = get32(s, 0);
    let count = get32(s, 4);
    let room = (s.len() - 8) / 29;
    if count as usize > room {
        assert(s@.len() < 8 + 29 * count) by (nonlinear_arith)
            requires
                room == (s@.len() - 8) / 29,
                count > room,
                s@.len() >= 8,
        ;
        return Err(DecodeError::UnexpectedEnd);
    }
    assert(8 + 29 * count <= s@.len()) by (nonlinear_arith)
        requires
            room == (s@.len() - 8) / 29,
            count <= room,
            s@.len() >= 8,
    ;
    let len = s.len();
    let mut transforms: Vec<Transform> = Vec::new();
    let mut i: usize = 0;
    while i < count as usize
        invariant
            len == s@.len(),
            i <= count,
            8 + 29 * count <= s@.len(),
            transforms@.len() == i,
            forall|j: int| 0 <= j < i ==> transforms@[j] == transform_at(s@, 8 + 29 * j),
        decreases count - i,
    {
        transforms.push(transform_from(s, 8 + 29 * i));
        i = i + 1;
    }
    let b = TransformBatch { sequence, transforms };
    assert(b@.transforms =~= Seq::new(count as nat, |j: int| transform_at(s@, 8 + 29 * j)));
    Ok(b)
}

pub fn decode_chat(s: &[u8]) -> (r: Result<Chat, DecodeError>)
    ensures
        match r {
            Ok(c) => decode_chat_spec(s@) == Ok::<ChatView, DecodeError>(c@),
            Err(e) => decode_chat_spec(s@) == Err::<ChatView, DecodeError>(e),
        },
{
    if s.len() < 18 {
        return Err(DecodeError::UnexpectedEnd);
    }
    let n = get32(s, 14);
    if s.len() - 18 < n as usize {
        return Err(DecodeError::UnexpectedEnd);
    }
    let end = 18 + n as usize;
    let raw = &s[18..end];
    match utf8_str(raw) {
        None => Err(DecodeError::InvalidUtf8),
        Some(text) => {
            proof {
                assert(text@ == decode_utf8(raw@));
            }
            Ok(
                Chat {
                    sender_id: get32(s, 0),
                    channel: get16(s, 4),
                    sent_at_millis: get64(s, 6),
                    text: text.to_owned(),
                },
            )
        },
    }
}

pub fn decode_stats(s: &[u8]) -> (r: Result<Stats, DecodeError>)
    ensures
        r == decode_stats_spec(s@),
{
    if s.len() < 38 {
        return Err(DecodeError::UnexpectedEnd);
    }
    Ok(
        Stats {
            player_id: get64(s, 0),
            level: get16(s, 8),
            health: get32(s, 10),
            mana: get32(s, 14),
            gold: get32(s, 18),
            experience: get64(s, 22),
            kills: get32(s, 30),
            deaths: get32(s, 34),
        },
    )
}

// ---------------------------------------------------------------- round trips

/// Decoding an encoded `Input`, whatever follows it, gives the input back.
pub proof fn lemma_input_round_trip(m: Input, rest: Seq<u8>)
    ensures
        input_bytes(m).len() == 21,
        decode_input_spec(input_bytes(m) + rest) == Ok::<Input, DecodeError>(m),
{
    let w = input_bytes(m);
    let s = w + rest;
    assert(w.len() == 21);
    assert(s.subrange(0, 21) =~= w);
    lemma_window(s, w, 0, 0, 4);
    assert(w.subrange(0, 4) =~= le32(m.sequence));
    lemma_read32_le32(m.sequence, s, 0);
    lemma_window(s, w, 0, 4, 8);
    assert(w.subrange(4, 8) =~= le32(m.move_x));
    lemma_read32_le32(m.move_x, s, 4);
    lemma_window(s, w, 0, 8, 12);
    assert(w.subrange(8, 12) =~= le32(m.move_z));
    lemma_read32_le32(m.move_z, s, 8);
    lemma_window(s, w, 0, 13, 17);
    assert(w.subrange(13, 17) =~= le32(m.look_yaw));
    lemma_read32_le32(m.look_yaw, s, 13);
    lemma_window(s, w, 0, 17, 21);
    assert(w.subrange(17, 21) =~= le32(m.look_pitch));
    lemma_read32_le32(m.look_pitch, s, 17);
    assert(s[12] == bool_byte(m.jump));
}

/// A decoded `Input` encodes to exactly the bytes it was decoded from.
pub proof fn lemma_input_decoded_bytes(s: Seq<u8>)
    ensures
        decode_input_spec(s) matches Ok(m) ==> input_bytes(m) == s.take(21),
{
    if let Ok(m) = decode_input_spec(s) {
        lemma_le32_read32(s, 0);
        lemma_le32_read32(s, 4);
        lemma_le32_read32(s, 8);
        lemma_le32_read32(s, 13);
        lemma_le32_read32(s, 17);
        assert(input_bytes(m) =~= s.take(21));
    }
}

/// Decoding an encoded `Transform`, whatever follows it, gives it back.
pub proof fn lemma_transform_round_trip(t: Transform, rest: Seq<u8>)
    ensures
        transform_bytes(t).len() == 29,
        decode_transform_spec(transform_bytes(t) + rest) == Ok::<Transform, DecodeError>(t),
{
    let s = transform_bytes(t) + rest;
    assert(s.subrange(0, 29) =~= transform_bytes(t));
    lemma_transform_at(t, s, 0);
}

/// A decoded `Transform` encodes to exactly the bytes it was decoded from.
pub proof fn lemma_transform_decoded_bytes(s: Seq<u8>)
    ensures
        decode_transform_spec(s) matches Ok(t) ==> transform_bytes(t) == s.take(29),
{
    if s.len() >= 29 {
        lemma_transform_bytes_at(s, 0);
        assert(s.subrange(0, 29) =~= s.take(29));
    }
}

/// Decoding an encoded batch, whatever follows it, gives the batch back.
pub proof fn lemma_batch_round_trip(b: TransformBatchView, rest: Seq<u8>)
    requires
        b.transforms.len() <= u32::MAX,
    ensures
        batch_bytes(b).len() == 8 + 29 * b.transforms.len(),
        decode_batch_spec(batch_bytes(b) + rest) == Ok::<TransformBatchView, DecodeError>(b),
{
    let n = b.transforms.len();
    let w = batch_bytes(b);
    let s = w + rest;
    lemma_transforms_bytes(b.transforms);
    assert(w.len() == 8 + 29 * n);
    assert(s.subrange(0, w.len() as int) =~= w);
    lemma_window(s, w, 0, 0, 4);
    assert(w.subrange(0, 4) =~= le32(b.sequence));
    lemma_read32_le32(b.sequence, s, 0);
    lemma_window(s, w, 0, 4, 8);
    assert(w.subrange(4, 8) =~= le32(n as u32));
    lemma_read32_le32(n as u32, s, 4);
    let decoded = Seq::new(n, |i: int| transform_at(s, 8 + 29 * i));
    assert forall|i: int| 0 <= i < n implies #[trigger] decoded[i] == b.transforms[i] by {
        let body = transforms_bytes(b.transforms);
        assert(0 <= 29 * i && 29 * i + 29 <= 29 * n) by (nonlinear_arith)
            requires
                0 <= i < n,
        ;
        assert(w.subrange(8, w.len() as int) =~= body);
        assert(s.subrange(8 + 29 * i, 8 + 29 * i + 29) =~= body.subrange(29 * i, 29 * i + 29));
        lemma_transform_at(b.transforms[i], s, 8 + 29 * i);
    }
    assert(decoded =~= b.transforms);
}

/// A decoded batch encodes to exactly the bytes it was decoded from.
pub proof fn lemma_batch_decoded_bytes(s: Seq<u8>)
    ensures
        decode_batch_spec(s) matches Ok(b) ==> batch_bytes(b) == s.take(8 + 29 * b.transforms.len() as int),
{
    if let Ok(b) = decode_batch_spec(s) {
        let n = read32(s, 4) as int;
        lemma_transforms_bytes(b.transforms);
        let body = transforms_bytes(b.transforms);
        assert forall|k: int| 0 <= k < 29 * n implies body[k] == s[8 + k] by {
            let i = k / 29;
            assert(0 <= i < n && 29 * i <= k < 29 * i + 29) by (nonlinear_arith)
                requires
                    0 <= k < 29 * n,
                    i == k / 29,
            ;
            assert(b.transforms[i] == transform_at(s, 8 + 29 * i));
            lemma_transform_bytes_at(s, 8 + 29 * i);
            assert(body.subrange(29 * i, 29 * i + 29)[k - 29 * i] == body[k]);
            assert(s.subrange(8 + 29 * i, 8 + 29 * i + 29)[k - 29 * i] == s[8 + k]);
        }
        lemma_le32_read32(s, 0);
        lemma_le32_read32(s, 4);
        assert(batch_bytes(b) =~= s.take(8 + 29 * n));
    }
}

/// Decoding an encoded chat line, whatever follows it, gives it back.
pub proof fn lemma_chat_round_trip(c: ChatView, rest: Seq<u8>)
    requires
        encode_utf8(c.text).len() <= u32::MAX,
    ensures
        chat_bytes(c).len() == 18 + encode_utf8(c.text).len(),
        decode_chat_spec(chat_bytes(c) + rest) == Ok::<ChatView, DecodeError>(c),
{
    let t = encode_utf8(c.text);
    let n = t.len();
    let w = chat_bytes(c);
    let s = w + rest;
    assert(w.len() == 18 + n);
    assert(s.subrange(0, w.len() as int) =~= w);
    lemma_window(s, w, 0, 0, 4);
    assert(w.subrange(0, 4) =~= le32(c.sender_id));
    lemma_read32_le32(c.sender_id, s, 0);
    lemma_window(s, w, 0, 4, 6);
    assert(w.subrange(4, 6) =~= le16(c.channel));
    lemma_read16_le16(c.channel, s, 4);
    lemma_window(s, w, 0, 6, 14);
    assert(w.subrange(6, 14) =~= le64(c.sent_at_millis));
    lemma_read64_le64(c.sent_at_millis, s, 6);
    lemma_window(s, w, 0, 14, 18);
    assert(w.subrange(14, 18) =~= le32(n as u32));
    lemma_read32_le32(n as u32, s, 14);
    assert(s.subrange(18, 18 + n as int) =~= t);
}

/// A decoded chat line encodes to exactly the bytes it was decoded from.
pub proof fn lemma_chat_decoded_bytes(s: Seq<u8>)
    ensures
        decode_chat_spec(s) matches Ok(c) ==> chat_bytes(c) == s.take(18 + encode_utf8(c.text).len() as int),
{
    if let Ok(c) = decode_chat_spec(s) {
        let n = read32(s, 14) as int;
        let t = s.subrange(18, 18 + n);
        vstd::utf8::decode_utf8_encode_utf8(t);
        assert(encode_utf8(c.text) == t);
        lemma_le32_read32(s, 0);
        lemma_le16_read16(s, 4);
        lemma_le64_read64(s, 6);
        lemma_le32_read32(s, 14);
        assert(chat_bytes(c) =~= s.take(18 + n));
    }
}

/// Decoding encoded `Stats`, whatever follows them, gives them back.
pub proof fn lemma_stats_round_trip(m: Stats, rest: Seq<u8>)
    ensures
        stats_bytes(m).len() == 38,
        decode_stats_spec(stats_bytes(m) + rest) == Ok::<Stats, DecodeError>(m),
{
    let w = stats_bytes(m);
    let s = w + rest;
    assert(w.len() == 38);
    assert(s.subrange(0, 38) =~= w);
    lemma_window(s, w, 0, 0, 8);
    assert(w.subrange(0, 8) =~= le64(m.player_id));
    lemma_read64_le64(m.player_id, s, 0);
    lemma_window(s, w, 0, 8, 10);
    assert(w.subrange(8, 10) =~= le16(m.level));
    lemma_read16_le16(m.level, s, 8);
    lemma_window(s, w, 0, 10, 14);
    assert(w.subrange(10, 14) =~= le32(m.health));
    lemma_read32_le32(m.health, s, 10);
    lemma_window(s, w, 0, 14, 18);
    assert(w.subrange(14, 18) =~= le32(m.mana));
    lemma_read32_le32(m.mana, s, 14);
    lemma_window(s, w, 0, 18, 22);
    assert(w.subrange(18, 22) =~= le32(m.gold));
    lemma_read32_le32(m.gold, s, 18);
    lemma_window(s, w, 0, 22, 30);
    assert(w.subrange(22, 30) =~= le64(m.experience));
    lemma_read64_le64(m.experience, s, 22);
    lemma_window(s, w, 0, 30, 34);
    assert(w.subrange(30, 34) =~= le32(m.kills));
    lemma_read32_le32(m.kills, s, 30);
    lemma_window(s, w, 0, 34, 38);
    assert(w.subrange(34, 38) =~= le32(m.deaths));
    lemma_read32_le32(m.deaths, s, 34);
}

/// Decoded `Stats` encode to exactly the bytes they were decoded from.
pub proof fn lemma_stats_decoded_bytes(s: Seq<u8>)
    ensures
        decode_stats_spec(s) matches Ok(m) ==> stats_bytes(m) == s.take(38),
{
    if let Ok(m) = decode_stats_spec(s) {
        lemma_le64_read64(s, 0);
        lemma_le16_read16(s, 8);
        lemma_le32_read32(s, 10);
        lemma_le32_read32(s, 14);
        lemma_le32_read32(s, 18);
        lemma_le64_read64(s, 22);
        lemma_le32_read32(s, 30);
        lemma_le32_read32(s, 34);
        assert(stats_bytes(m) =~= s.take(38));
    }
}

// ---------------------------------------------------------------- layout laws

/// An input is its fields at their declared widths, in declaration order,
/// with no tags: sequence at 0, move_x at 4, move_z at 8, the jump byte (1
/// for true, 0 for false) at 12, look_yaw at 13, look_pitch at 17; 21 bytes.
pub proof fn lemma_input_layout(m: Input)
    ensures
        input_bytes(m).len() == 21,
        input_bytes(m).subrange(0, 4) == le32(m.sequence),
        input_bytes(m).subrange(4, 8) == le32(m.move_x),
        input_bytes(m).subrange(8, 12) == le32(m.move_z),
        input_bytes(m)[12] == (if m.jump {
            1u8
        } else {
            0u8
        }),
        input_bytes(m).subrange(13, 17) == le32(m.look_yaw),
        input_bytes(m).subrange(17, 21) == le32(m.look_pitch),
{
    let w = input_bytes(m);
    assert(w.subrange(0, 4) =~= le32(m.sequence));
    assert(w.subrange(4, 8) =~= le32(m.move_x));
    assert(w.subrange(8, 12) =~= le32(m.move_z));
    assert(w.subrange(13, 17) =~= le32(m.look_yaw));
    assert(w.subrange(17, 21) =~= le32(m.look_pitch));
}

/// A transform is entity_id at 0, the kind byte at 4, then color,
/// position_x, position_y, position_z, yaw and pitch, four bytes each from
/// 5 on; 29 bytes.
pub proof fn lemma_transform_layout(t: Transform)
    ensures
        transform_bytes(t).len() == 29,
        transform_bytes(t).subrange(0, 4) == le32(t.entity_id),
        transform_bytes(t)[4] == t.kind,
        transform_bytes(t).subrange(5, 9) == le32(t.color),
        transform_bytes(t).subrange(9, 13) == le32(t.position_x),
        transform_bytes(t).subrange(13, 17) == le32(t.position_y),
        transform_bytes(t).subrange(17, 21) == le32(t.position_z),
        transform_bytes(t).subrange(21, 25) == le32(t.yaw),
        transform_bytes(t).subrange(25, 29) == le32(t.pitch),
{
    let w = transform_bytes(t);
    assert(w.subrange(0, 4) =~= le32(t.entity_id));
    assert(w.subrange(5, 9) =~= le32(t.color));
    assert(w.subrange(9, 13) =~= le32(t.position_x));
    assert(w.subrange(13, 17) =~= le32(t.position_y));
    assert(w.subrange(17, 21) =~= le32(t.position_z));
    assert(w.subrange(21, 25) =~= le32(t.yaw));
    assert(w.subrange(25, 29) =~= le32(t.pitch));
}

/// A batch is its sequence at 0, its transform count at 4, then each
/// transform in order, the `i`-th at `8 + 29 i`.
pub proof fn lemma_batch_layout(b: TransformBatchView)
    ensures
        batch_bytes(b).len() == 8 + 29 * b.transforms.len(),
        batch_bytes(b).subrange(0, 4) == le32(b.sequence),
        batch_bytes(b).subrange(4, 8) == le32(b.transforms.len() as u32),
        forall|i: int|
            0 <= i < b.transforms.len() ==> batch_bytes(b).subrange(8 + 29 * i, 37 + 29 * i)
                == transform_bytes(#[trigger] b.transforms[i]),
{
    let w = batch_bytes(b);
    let ts = b.transforms;
    lemma_transforms_bytes(ts);
    assert(w.subrange(0, 4) =~= le32(b.sequence));
    assert(w.subrange(4, 8) =~= le32(ts.len() as u32));
    assert forall|i: int| 0 <= i < ts.len() implies w.subrange(8 + 29 * i, 37 + 29 * i)
        == transform_bytes(#[trigger] ts[i]) by {
        assert(w.subrange(8 + 29 * i, 37 + 29 * i) =~= transforms_bytes(ts).subrange(
            29 * i,
            29 * i + 29,
        ));
    }
}

/// A chat is sender_id at 0, channel (two bytes) at 4, sent_at_millis
/// (eight bytes) at 6, the text's UTF-8 length at 14, then the text.
pub proof fn lemma_chat_layout(c: ChatView)
    ensures
        chat_bytes(c).len() == 18 + encode_utf8(c.text).len(),
        chat_bytes(c).subrange(0, 4) == le32(c.sender_id),
        chat_bytes(c).subrange(4, 6) == le16(c.channel),
        chat_bytes(c).subrange(6, 14) == le64(c.sent_at_millis),
        chat_bytes(c).subrange(14, 18) == le32(encode_utf8(c.text).len() as u32),
        chat_bytes(c).subrange(18, 18 + encode_utf8(c.text).len() as int) == encode_utf8(c.text),
{
    let w = chat_bytes(c);
    let t = encode_utf8(c.text);
    assert(w.subrange(0, 4) =~= le32(c.sender_id));
    assert(w.subrange(4, 6) =~= le16(c.channel));
    assert(w.subrange(6, 14) =~= le64(c.sent_at_millis));
    assert(w.subrange(14, 18) =~= le32(t.len() as u32));
    assert(w.subrange(18, 18 + t.len() as int) =~= t);
}

/// Stats are player_id (eight bytes) at 0, level (two) at 8, health at 10,
/// mana at 14, gold at 18, experience (eight) at 22, kills at 30, deaths at
/// 34; 38 bytes.
pub proof fn lemma_stats_layout(m: Stats)
    ensures
        stats_bytes(m).len() == 38,
        stats_bytes(m).subrange(0, 8) == le64(m.player_id),
        stats_bytes(m).subrange(8, 10) == le16(m.level),
        stats_bytes(m).subrange(10, 14) == le32(m.health),
        stats_bytes(m).subrange(14, 18) == le32(m.mana),
        stats_bytes(m).subrange(18, 22) == le32(m.gold),
        stats_bytes(m).subrange(22, 30) == le64(m.experience),
        stats_bytes(m).subrange(30, 34) == le32(m.kills),
        stats_bytes(m).subrange(34, 38) == le32(m.deaths),
{
    let w = stats_bytes(m);
    assert(w.subrange(0, 8) =~= le64(m.player_id));
    assert(w.subrange(8, 10) =~= le16(m.level));
    assert(w.subrange(10, 14) =~= le32(m.health));
    assert(w.subrange(14, 18) =~= le32(m.mana));
    assert(w.subrange(18, 22) =~= le32(m.gold));
    assert(w.subrange(22, 30) =~= le64(m.experience));
    assert(w.subrange(30, 34) =~= le32(m.kills));
    assert(w.subrange(34, 38) =~= le32(m.deaths));
}

/// When a Fomoxa decoder succeeds, and how it fails. A message decodes
/// exactly when all its bytes are there, an input's jump byte is 0 or 1,
/// and a chat's text is valid UTF-8. An input's jump byte that is there and
/// is neither 0 nor 1 gives `InvalidBool`; a chat's text that is all there
/// and is not valid UTF-8 gives `InvalidUtf8`; otherwise bytes missing give
/// `UnexpectedEnd`. What comes after the message plays no part.
pub proof fn lemma_decode_outcomes(s: Seq<u8>)
    ensures
        decode_input_spec(s) is Ok <==> s.len() >= 21 && s[12] <= 1,
        s.len() >= 13 && s[12] > 1 ==> decode_input_spec(s) == Err::<Input, DecodeError>(
            DecodeError::InvalidBool,
        ),
        s.len() < 13 || (s.len() < 21 && s[12] <= 1) ==> decode_input_spec(s) == Err::<
            Input,
            DecodeError,
        >(DecodeError::UnexpectedEnd),
        decode_transform_spec(s) is Ok <==> s.len() >= 29,
        s.len() < 29 ==> decode_transform_spec(s) == Err::<Transform, DecodeError>(
            DecodeError::UnexpectedEnd,
        ),
        decode_stats_spec(s) is Ok <==> s.len() >= 38,
        s.len() < 38 ==> decode_stats_spec(s) == Err::<Stats, DecodeError>(
            DecodeError::UnexpectedEnd,
        ),
        decode_batch_spec(s) is Ok <==> s.len() >= 8 && s.len() >= 8 + 29 * read32(s, 4),
        decode_batch_spec(s) is Err ==> decode_batch_spec(s) == Err::<
            TransformBatchView,
            DecodeError,
        >(DecodeError::UnexpectedEnd),
        s.len() < 18 || s.len() < 18 + read32(s, 14) ==> decode_chat_spec(s) == Err::<
            ChatView,
            DecodeError,
        >(DecodeError::UnexpectedEnd),
        s.len() >= 18 && s.len() >= 18 + read32(s, 14) ==> (decode_chat_spec(s) is Ok <==> valid_utf8(
            s.subrange(18, 18 + read32(s, 14)),
        )),
        s.len() >= 18 && s.len() >= 18 + read32(s, 14) && !valid_utf8(
            s.subrange(18, 18 + read32(s, 14)),
        ) ==> decode_chat_spec(s) == Err::<ChatView, DecodeError>(DecodeError::InvalidUtf8),
{
}

} // verus!


