//! Each benchmark message with its codecs, and the choice of codec by
//! format: what is encoded, what a decoder hands back, and whether a decoded
//! value matches the sample it came from.

use vstd::prelude::*;
use vstd::utf8::*;
use crate::capnproto::TRAVERSAL_LIMIT_WORDS;
use crate::capnproto;
use crate::fomoxa;
use crate::fomoxa::DecodeError;
use crate::messages::{Chat, ChatView, Input, Stats, Transform, TransformBatch, TransformBatchView};
use crate::messages::{batch_eq, input_eq, input_same, transform_eq, transform_same};
use crate::text::str_eq;

verus! {

/// A benchmark message, with its Fomoxa and Cap'n Proto codecs.
pub trait Pair: View + Sized {
    /// The Fomoxa bytes of a value.
    spec fn fomoxa_bytes(v: Self::V) -> Seq<u8>;

    /// What decoding Fomoxa bytes gives.
    spec fn fomoxa_decoded(bytes: Seq<u8>) -> Result<Self::V, DecodeError>;

    /// The single Cap'n Proto segment that holds a value.
    spec fn capnp_segment_of(v: Self::V) -> Seq<u8>;

    /// What reading a value from a Cap'n Proto message's segments gives.
    spec fn capnp_read(segments: Seq<Seq<u8>>) -> Option<Self::V>;

    /// The value's lengths fit the Fomoxa fields that hold them.
    spec fn fomoxa_encodable(v: Self::V) -> bool;

    /// The value's lengths fit the Cap'n Proto pointers that hold them.
    spec fn capnp_encodable(v: Self::V) -> bool;

    /// Appends the Fomoxa encoding of `self`.
    fn encode_fomoxa(&self, out: &mut Vec<u8>)
        requires
            Self::fomoxa_encodable(self@),
        ensures
            final(out)@ == old(out)@ + Self::fomoxa_bytes(self@),
    ;

    /// Decodes a value from the start of `bytes`.
    fn decode_fomoxa(bytes: &[u8]) -> (r: Result<Self, DecodeError>)
        ensures
            match r {
                Ok(v) => Self::fomoxa_decoded(bytes@) == Ok::<Self::V, DecodeError>(v@),
                Err(e) => Self::fomoxa_decoded(bytes@) == Err::<Self::V, DecodeError>(e),
            },
    ;

    /// The Cap'n Proto segment that holds `self`.
    fn encode_capnp(&self) -> (r: Vec<u8>)
        requires
            Self::capnp_encodable(self@),
        ensures
            r@ == Self::capnp_segment_of(self@),
    ;

    /// The segments of the plain Cap'n Proto message of a value, as a
    /// builder lays them out whose first segment holds `SEGMENT_WORDS` words.
    spec fn capnp_segments_of(v: Self::V) -> Seq<Seq<u8>>;

    /// Appends the plain Cap'n Proto message of `self`: its segment table,
    /// then its segments.
    fn encode_capnp_frame(&self, out: &mut Vec<u8>)
        requires
            Self::capnp_encodable(self@),
        ensures
            final(out)@ == old(out)@ + capnproto::frame_of(Self::capnp_segments_of(self@)),
    ;

    /// Reads a value from a Cap'n Proto message's segments.
    fn decode_capnp(segments: &[&[u8]]) -> (r: Option<Self>)
        ensures
            match r {
                Some(v) => Self::capnp_read(capnproto::views(segments@)) == Some(v@),
                None => Self::capnp_read(capnproto::views(segments@)) is None,
            },
    ;

    /// Whether the value's lengths fit its Fomoxa fields.
    fn fits_fomoxa(&self) -> (r: bool)
        ensures
            r == Self::fomoxa_encodable(self@),
    ;

    /// Whether the value's lengths fit its Cap'n Proto pointers.
    fn fits_capnp(&self) -> (r: bool)
        ensures
            r == Self::capnp_encodable(self@),
    ;

    /// The two values hold equal fields, floats compared as `f32` values.
    spec fn equal(a: Self::V, b: Self::V) -> bool;

    /// `==` on two values: their fields are equal, floats compared as `f32`
    /// values.
    fn same(&self, other: &Self) -> (r: bool)
        ensures
            r == Self::equal(self@, other@),
    ;

    /// Decoding the Fomoxa bytes of a value, whatever follows them, gives
    /// the value back.
    proof fn lemma_fomoxa_round_trip(v: Self::V, rest: Seq<u8>)
        requires
            Self::fomoxa_encodable(v),
        ensures
            Self::fomoxa_decoded(Self::fomoxa_bytes(v) + rest) == Ok::<Self::V, DecodeError>(v),
    ;

    /// A value decoded from Fomoxa bytes encodes to the bytes it was read
    /// from: they start with its encoding.
    proof fn lemma_fomoxa_decoded_bytes(bytes: Seq<u8>)
        ensures
            Self::fomoxa_decoded(bytes) matches Ok(v) ==> Self::fomoxa_bytes(v).len() <= bytes.len()
                && bytes.take(Self::fomoxa_bytes(v).len() as int) == Self::fomoxa_bytes(v)
                && Self::fomoxa_encodable(v),
    ;

    /// The segment of a value is made of whole words, and their count fits
    /// the segment table.
    proof fn lemma_capnp_segment_words(v: Self::V)
        requires
            Self::capnp_encodable(v),
        ensures
            Self::capnp_segment_of(v).len() % 8 == 0,
            Self::capnp_segment_of(v).len() / 8 <= u32::MAX,
    ;

    /// A segment that reads alike gives the same value.
    proof fn lemma_capnp_read_alike(a: Seq<u8>, b: Seq<u8>)
        requires
            capnproto::reads_alike(a, b),
            Self::capnp_read(seq![a]) is Some,
        ensures
            Self::capnp_read(seq![b]) == Self::capnp_read(seq![a]),
    ;

    /// Reading the plain message of a value, whatever bytes follow it, gives
    /// the value back, when the message is within the reader's traversal
    /// limit.
    proof fn lemma_capnp_frame_round_trip(v: Self::V, rest: Seq<u8>)
        requires
            Self::capnp_encodable(v),
            capnproto::joined(Self::capnp_segments_of(v)).len() / 8 <= TRAVERSAL_LIMIT_WORDS,
        ensures
            capnproto::framed_segments(capnproto::frame_of(Self::capnp_segments_of(v)) + rest)
                matches Some(m) && Self::capnp_read(m) == Some(v),
    ;

    /// Reading the segment of a value gives the value back, when the
    /// segment is within the reader's traversal limit.
    proof fn lemma_capnp_round_trip(v: Self::V)
        requires
            Self::capnp_encodable(v),
            Self::capnp_segment_of(v).len() / 8 <= TRAVERSAL_LIMIT_WORDS,
        ensures
            Self::capnp_read(seq![Self::capnp_segment_of(v)]) == Some(v),
    ;
}

impl Pair for Input {
    open spec fn fomoxa_bytes(v: Input) -> Seq<u8> {
        fomoxa::input_bytes(v)
    }

    open spec fn fomoxa_decoded(bytes: Seq<u8>) -> Result<Input, DecodeError> {
        fomoxa::decode_input_spec(bytes)
    }

    open spec fn capnp_segment_of(v: Input) -> Seq<u8> {
        capnproto::input_segment(v)
    }

    open spec fn capnp_read(segments: Seq<Seq<u8>>) -> Option<Input> {
        capnproto::input_from_segments(segments)
    }

    open spec fn fomoxa_encodable(v: Input) -> bool {
        true
    }

    open spec fn capnp_encodable(v: Input) -> bool {
        true
    }

    fn encode_fomoxa(&self, out: &mut Vec<u8>) {
        fomoxa::encode_input(self, out)
    }

    fn decode_fomoxa(bytes: &[u8]) -> (r: Result<Input, DecodeError>) {
        fomoxa::decode_input(bytes)
    }

    fn encode_capnp(&self) -> (r: Vec<u8>) {
        capnproto::write_input(self)
    }

    fn decode_capnp(segments: &[&[u8]]) -> (r: Option<Input>) {
        capnproto::read_input(segments)
    }

    fn fits_fomoxa(&self) -> (r: bool) {
        true
    }

    fn fits_capnp(&self) -> (r: bool) {
        true
    }

    open spec fn equal(a: Input, b: Input) -> bool {
        input_eq(a, b)
    }

    fn same(&self, other: &Input) -> (r: bool) {
        input_same(self, other)
    }

    proof fn lemma_fomoxa_round_trip(v: Input, rest: Seq<u8>) {
        fomoxa::lemma_input_round_trip(v, rest);
    }

    proof fn lemma_fomoxa_decoded_bytes(bytes: Seq<u8>) {
        fomoxa::lemma_input_decoded_bytes(bytes);
    }

    proof fn lemma_capnp_segment_words(v: Input) {
        capnproto::lemma_input_segment(v);
    }

    open spec fn capnp_segments_of(v: Input) -> Seq<Seq<u8>> {
        seq![capnproto::input_segment(v)]
    }

    fn encode_capnp_frame(&self, out: &mut Vec<u8>) {
        let segment = capnproto::write_input(self);
        proof {
            capnproto::lemma_input_segment(*self);
        }
        capnproto::frame_plain(segment.as_slice(), out);
    }

    proof fn lemma_capnp_frame_round_trip(v: Input, rest: Seq<u8>) {
        capnproto::lemma_input_segment(v);
        capnproto::lemma_frame_of_one(capnproto::input_segment(v));
        capnproto::lemma_frame_round_trip(capnproto::input_segment(v), rest);
    }

    proof fn lemma_capnp_read_alike(a: Seq<u8>, b: Seq<u8>) {
    }

    proof fn lemma_capnp_round_trip(v: Input) {
        capnproto::lemma_input_segment(v);
    }
}

impl Pair for Transform {
    open spec fn fomoxa_bytes(v: Transform) -> Seq<u8> {
        fomoxa::transform_bytes(v)
    }

    open spec fn fomoxa_decoded(bytes: Seq<u8>) -> Result<Transform, DecodeError> {
        fomoxa::decode_transform_spec(bytes)
    }

    open spec fn capnp_segment_of(v: Transform) -> Seq<u8> {
        capnproto::transform_segment(v)
    }

    open spec fn capnp_read(segments: Seq<Seq<u8>>) -> Option<Transform> {
        capnproto::transform_from_segments(segments)
    }

    open spec fn fomoxa_encodable(v: Transform) -> bool {
        true
    }

    open spec fn capnp_encodable(v: Transform) -> bool {
        true
    }

    fn encode_fomoxa(&self, out: &mut Vec<u8>) {
        fomoxa::encode_transform(self, out)
    }

    fn decode_fomoxa(bytes: &[u8]) -> (r: Result<Transform, DecodeError>) {
        fomoxa::decode_transform(bytes)
    }

    fn encode_capnp(&self) -> (r: Vec<u8>) {
        capnproto::write_transform(self)
    }

    fn decode_capnp(segments: &[&[u8]]) -> (r: Option<Transform>) {
        capnproto::read_transform(segments)
    }

    fn fits_fomoxa(&self) -> (r: bool) {
        true
    }

    fn fits_capnp(&self) -> (r: bool) {
        true
    }

    open spec fn equal(a: Transform, b: Transform) -> bool {
        transform_eq(a, b)
    }

    fn same(&self, other: &Transform) -> (r: bool) {
        transform_same(self, other)
    }

    proof fn lemma_fomoxa_round_trip(v: Transform, rest: Seq<u8>) {
        fomoxa::lemma_transform_round_trip(v, rest);
    }

    proof fn lemma_fomoxa_decoded_bytes(bytes: Seq<u8>) {
        fomoxa::lemma_transform_decoded_bytes(bytes);
    }

    proof fn lemma_capnp_segment_words(v: Transform) {
        capnproto::lemma_transform_segment(v);
    }

    open spec fn capnp_segments_of(v: Transform) -> Seq<Seq<u8>> {
        seq![capnproto::transform_segment(v)]
    }

    fn encode_capnp_frame(&self, out: &mut Vec<u8>) {
        let segment = capnproto::write_transform(self);
        proof {
            capnproto::lemma_transform_segment(*self);
        }
        capnproto::frame_plain(segment.as_slice(), out);
    }

    proof fn lemma_capnp_frame_round_trip(v: Transform, rest: Seq<u8>) {
        capnproto::lemma_transform_segment(v);
        capnproto::lemma_frame_of_one(capnproto::transform_segment(v));
        capnproto::lemma_frame_round_trip(capnproto::transform_segment(v), rest);
    }

    proof fn lemma_capnp_read_alike(a: Seq<u8>, b: Seq<u8>) {
    }

    proof fn lemma_capnp_round_trip(v: Transform) {
        capnproto::lemma_transform_segment(v);
    }
}

impl Pair for TransformBatch {
    open spec fn fomoxa_bytes(v: TransformBatchView) -> Seq<u8> {
        fomoxa::batch_bytes(v)
    }

    open spec fn fomoxa_decoded(bytes: Seq<u8>) -> Result<TransformBatchView, DecodeError> {
        fomoxa::decode_batch_spec(bytes)
    }

    open spec fn capnp_segment_of(v: TransformBatchView) -> Seq<u8> {
        capnproto::batch_segment(v)
    }

    open spec fn capnp_read(segments: Seq<Seq<u8>>) -> Option<TransformBatchView> {
        capnproto::batch_from_segments(segments)
    }

    open spec fn fomoxa_encodable(v: TransformBatchView) -> bool {
        v.transforms.len() <= u32::MAX
    }

    open spec fn capnp_encodable(v: TransformBatchView) -> bool {
        v.transforms.len() < 0x0800_0000
    }

    fn encode_fomoxa(&self, out: &mut Vec<u8>) {
        fomoxa::encode_batch(self, out)
    }

    fn decode_fomoxa(bytes: &[u8]) -> (r: Result<TransformBatch, DecodeError>) {
        fomoxa::decode_batch(bytes)
    }

    fn encode_capnp(&self) -> (r: Vec<u8>) {
        capnproto::write_batch(self)
    }

    fn decode_capnp(segments: &[&[u8]]) -> (r: Option<TransformBatch>) {
        capnproto::read_batch(segments)
    }

    fn fits_fomoxa(&self) -> (r: bool) {
        self.transforms.len() <= 0xffff_ffff
    }

    fn fits_capnp(&self) -> (r: bool) {
        self.transforms.len() < 0x0800_0000
    }

    open spec fn equal(a: TransformBatchView, b: TransformBatchView) -> bool {
        batch_eq(a, b)
    }

    fn same(&self, other: &TransformBatch) -> (r: bool) {
        if self.sequence != other.sequence || self.transforms.len() != other.transforms.len() {
            return false;
        }
        let mut i: usize = 0;
        while i < self.transforms.len()
            invariant
                self.transforms@.len() == other.transforms@.len(),
                i <= self.transforms@.len(),
                forall|j: int|
                    0 <= j < i ==> transform_eq(#[trigger] self.transforms@[j], other.transforms@[j]),
            decreases self.transforms@.len() - i,
        {
            if !transform_same(&self.transforms[i], &other.transforms[i]) {
                return false;
            }
            i = i + 1;
        }
        true
    }

    proof fn lemma_fomoxa_round_trip(v: TransformBatchView, rest: Seq<u8>) {
        fomoxa::lemma_batch_round_trip(v, rest);
    }

    proof fn lemma_fomoxa_decoded_bytes(bytes: Seq<u8>) {
        fomoxa::lemma_batch_decoded_bytes(bytes);
        if let Ok(v) = fomoxa::decode_batch_spec(bytes) {
            fomoxa::lemma_transforms_bytes(v.transforms);
        }
    }

    proof fn lemma_capnp_segment_words(v: TransformBatchView) {
        capnproto::lemma_elements_bytes(v.transforms);
        assert(capnproto::batch_segment(v).len() == 32 + 32 * v.transforms.len());
    }

    open spec fn capnp_segments_of(v: TransformBatchView) -> Seq<Seq<u8>> {
        capnproto::batch_segments(v)
    }

    fn encode_capnp_frame(&self, out: &mut Vec<u8>) {
        capnproto::write_batch_frame(self, out);
    }

    proof fn lemma_capnp_frame_round_trip(v: TransformBatchView, rest: Seq<u8>) {
        let n = v.transforms.len();
        let s = capnproto::batch_segment(v);
        capnproto::lemma_elements_bytes(v.transforms);
        assert(s.len() == 32 + 32 * n);
        if 4 + 4 * n <= capnproto::SEGMENT_WORDS {
            capnproto::lemma_frame_of_one(s);
            capnproto::lemma_frame_round_trip(s, rest);
            capnproto::lemma_batch_segment(v);
        } else {
            let m = capnproto::split_segments(s, 16);
            capnproto::lemma_frame_of_two(m[0], m[1]);
            assert(m =~= seq![m[0], m[1]]);
            capnproto::lemma_frame_two_round_trip(m[0], m[1], rest);
            capnproto::lemma_batch_split(v);
        }
    }

    proof fn lemma_capnp_read_alike(a: Seq<u8>, b: Seq<u8>) {
    }

    proof fn lemma_capnp_round_trip(v: TransformBatchView) {
        capnproto::lemma_elements_bytes(v.transforms);
        assert(capnproto::batch_segment(v).len() == 32 + 32 * v.transforms.len());
        capnproto::lemma_batch_segment(v);
    }
}

impl Pair for Chat {
    open spec fn fomoxa_bytes(v: ChatView) -> Seq<u8> {
        fomoxa::chat_bytes(v)
    }

    open spec fn fomoxa_decoded(bytes: Seq<u8>) -> Result<ChatView, DecodeError> {
        fomoxa::decode_chat_spec(bytes)
    }

    open spec fn capnp_segment_of(v: ChatView) -> Seq<u8> {
        capnproto::chat_segment(v)
    }

    open spec fn capnp_read(segments: Seq<Seq<u8>>) -> Option<ChatView> {
        capnproto::chat_from_segments(segments)
    }

    open spec fn fomoxa_encodable(v: ChatView) -> bool {
        encode_utf8(v.text).len() <= u32::MAX
    }

    open spec fn capnp_encodable(v: ChatView) -> bool {
        encode_utf8(v.text).len() + 1 < 0x2000_0000
    }

    fn encode_fomoxa(&self, out: &mut Vec<u8>) {
        fomoxa::encode_chat(self, out)
    }

    fn decode_fomoxa(bytes: &[u8]) -> (r: Result<Chat, DecodeError>) {
        fomoxa::decode_chat(bytes)
    }

    fn encode_capnp(&self) -> (r: Vec<u8>) {
        capnproto::write_chat(self)
    }

    fn decode_capnp(segments: &[&[u8]]) -> (r: Option<Chat>) {
        capnproto::read_chat(segments)
    }

    fn fits_fomoxa(&self) -> (r: bool) {
        self.text.as_str().as_bytes().len() <= 0xffff_ffff
    }

    fn fits_capnp(&self) -> (r: bool) {
        self.text.as_str().as_bytes().len() < 0x1fff_ffff
    }

    open spec fn equal(a: ChatView, b: ChatView) -> bool {
        a == b
    }

    fn same(&self, other: &Chat) -> (r: bool) {
        self.sender_id == other.sender_id && self.channel == other.channel && self.sent_at_millis
            == other.sent_at_millis && str_eq(self.text.as_str(), other.text.as_str())
    }

    proof fn lemma_fomoxa_round_trip(v: ChatView, rest: Seq<u8>) {
        fomoxa::lemma_chat_round_trip(v, rest);
    }

    proof fn lemma_fomoxa_decoded_bytes(bytes: Seq<u8>) {
        fomoxa::lemma_chat_decoded_bytes(bytes);
        if let Ok(v) = fomoxa::decode_chat_spec(bytes) {
            let t = bytes.subrange(18, 18 + crate::bytes::read32(bytes, 14));
            vstd::utf8::decode_utf8_encode_utf8(t);
            assert(fomoxa::chat_bytes(v).len() == 18 + encode_utf8(v.text).len());
        }
    }

    proof fn lemma_capnp_segment_words(v: ChatView) {
        capnproto::lemma_segment_lengths_chat(v);
        let len = capnproto::chat_segment(v).len();
        let k = (encode_utf8(v.text).len() + 8) / 8;
        assert(len % 8 == 0 && len / 8 <= u32::MAX) by (nonlinear_arith)
            requires
                len == 32 + 8 * k,
                k <= 0x0400_0000,
        ;
    }

    open spec fn capnp_segments_of(v: ChatView) -> Seq<Seq<u8>> {
        capnproto::chat_segments(v)
    }

    fn encode_capnp_frame(&self, out: &mut Vec<u8>) {
        capnproto::write_chat_frame(self, out);
    }

    proof fn lemma_capnp_frame_round_trip(v: ChatView, rest: Seq<u8>) {
        let s = capnproto::chat_segment(v);
        capnproto::lemma_segment_lengths_chat(v);
        if 4 + (encode_utf8(v.text).len() + 8) / 8 <= capnproto::SEGMENT_WORDS {
            capnproto::lemma_frame_of_one(s);
            capnproto::lemma_frame_round_trip(s, rest);
            capnproto::lemma_chat_segment(v);
        } else {
            let m = capnproto::split_segments(s, 24);
            capnproto::lemma_frame_of_two(m[0], m[1]);
            assert(m =~= seq![m[0], m[1]]);
            capnproto::lemma_frame_two_round_trip(m[0], m[1], rest);
            capnproto::lemma_chat_split(v);
        }
    }

    proof fn lemma_capnp_read_alike(a: Seq<u8>, b: Seq<u8>) {
    }

    proof fn lemma_capnp_round_trip(v: ChatView) {
        capnproto::lemma_chat_segment(v);
    }
}

impl Pair for Stats {
    open spec fn fomoxa_bytes(v: Stats) -> Seq<u8> {
        fomoxa::stats_bytes(v)
    }

    open spec fn fomoxa_decoded(bytes: Seq<u8>) -> Result<Stats, DecodeError> {
        fomoxa::decode_stats_spec(bytes)
    }

    open spec fn capnp_segment_of(v: Stats) -> Seq<u8> {
        capnproto::stats_segment(v)
    }

    open spec fn capnp_read(segments: Seq<Seq<u8>>) -> Option<Stats> {
        capnproto::stats_from_segments(segments)
    }

    open spec fn fomoxa_encodable(v: Stats) -> bool {
        true
    }

    open spec fn capnp_encodable(v: Stats) -> bool {
        true
    }

    fn encode_fomoxa(&self, out: &mut Vec<u8>) {
        fomoxa::encode_stats(self, out)
    }

    fn decode_fomoxa(bytes: &[u8]) -> (r: Result<Stats, DecodeError>) {
        fomoxa::decode_stats(bytes)
    }

    fn encode_capnp(&self) -> (r: Vec<u8>) {
        capnproto::write_stats(self)
    }

    fn decode_capnp(segments: &[&[u8]]) -> (r: Option<Stats>) {
        capnproto::read_stats(segments)
    }

    fn fits_fomoxa(&self) -> (r: bool) {
        true
    }

    fn fits_capnp(&self) -> (r: bool) {
        true
    }

    open spec fn equal(a: Stats, b: Stats) -> bool {
        a == b
    }

    fn same(&self, other: &Stats) -> (r: bool) {
        *self == *other
    }

    proof fn lemma_fomoxa_round_trip(v: Stats, rest: Seq<u8>) {
        fomoxa::lemma_stats_round_trip(v, rest);
    }

    proof fn lemma_fomoxa_decoded_bytes(bytes: Seq<u8>) {
        fomoxa::lemma_stats_decoded_bytes(bytes);
    }

    proof fn lemma_capnp_segment_words(v: Stats) {
        capnproto::lemma_stats_segment(v);
    }

    open spec fn capnp_segments_of(v: Stats) -> Seq<Seq<u8>> {
        seq![capnproto::stats_segment(v)]
    }

    fn encode_capnp_frame(&self, out: &mut Vec<u8>) {
        let segment = capnproto::write_stats(self);
        proof {
            capnproto::lemma_stats_segment(*self);
        }
        capnproto::frame_plain(segment.as_slice(), out);
    }

    proof fn lemma_capnp_frame_round_trip(v: Stats, rest: Seq<u8>) {
        capnproto::lemma_stats_segment(v);
        capnproto::lemma_frame_of_one(capnproto::stats_segment(v));
        capnproto::lemma_frame_round_trip(capnproto::stats_segment(v), rest);
    }

    proof fn lemma_capnp_read_alike(a: Seq<u8>, b: Seq<u8>) {
    }

    proof fn lemma_capnp_round_trip(v: Stats) {
        capnproto::lemma_stats_segment(v);
    }
}

/// Which values can be encoded. Inputs, transforms and stats always can.
/// Fomoxa takes a batch whose transform count, or a chat whose text's UTF-8
/// length, fits its 4-byte length field. Cap'n Proto takes a batch whose
/// list, four words a transform, fits the 29-bit word count of a list
/// pointer, and a chat whose text with its NUL fits the 29-bit byte count;
/// so every batch of fewer than 2^27 transforms, two-segment ones
/// included, is encodable.
pub proof fn lemma_encodable(
    i: Input,
    t: Transform,
    st: Stats,
    b: TransformBatchView,
    c: ChatView,
)
    ensures
        <Input as Pair>::fomoxa_encodable(i) && <Input as Pair>::capnp_encodable(i),
        <Transform as Pair>::fomoxa_encodable(t) && <Transform as Pair>::capnp_encodable(t),
        <Stats as Pair>::fomoxa_encodable(st) && <Stats as Pair>::capnp_encodable(st),
        <TransformBatch as Pair>::fomoxa_encodable(b) <==> b.transforms.len() < 0x1_0000_0000,
        <TransformBatch as Pair>::capnp_encodable(b) <==> 4 * b.transforms.len() < 0x2000_0000,
        <Chat as Pair>::fomoxa_encodable(c) <==> encode_utf8(c.text).len() < 0x1_0000_0000,
        <Chat as Pair>::capnp_encodable(c) <==> encode_utf8(c.text).len() + 1 < 0x2000_0000,
{
}

/// What `same` compares: two values are equal only where their integer,
/// bool and text fields are equal and their float fields are equal as
/// `f32` values (transforms of a batch pairwise); and values equal in all
/// of that are equal.
pub proof fn lemma_equal_fields(
    i: (Input, Input),
    t: (Transform, Transform),
    st: (Stats, Stats),
    b: (TransformBatchView, TransformBatchView),
    c: (ChatView, ChatView),
)
    ensures
        <Input as Pair>::equal(i.0, i.1) <==> input_eq(i.0, i.1),
        <Input as Pair>::equal(i.0, i.1) ==> i.0.sequence == i.1.sequence && i.0.jump == i.1.jump,
        <Transform as Pair>::equal(t.0, t.1) <==> transform_eq(t.0, t.1),
        <Transform as Pair>::equal(t.0, t.1) ==> t.0.entity_id == t.1.entity_id && t.0.kind
            == t.1.kind && t.0.color == t.1.color,
        <TransformBatch as Pair>::equal(b.0, b.1) <==> batch_eq(b.0, b.1),
        <TransformBatch as Pair>::equal(b.0, b.1) ==> b.0.sequence == b.1.sequence
            && b.0.transforms.len() == b.1.transforms.len(),
        <Stats as Pair>::equal(st.0, st.1) <==> (st.0.player_id == st.1.player_id && st.0.level
            == st.1.level && st.0.health == st.1.health && st.0.mana == st.1.mana && st.0.gold
            == st.1.gold && st.0.experience == st.1.experience && st.0.kills == st.1.kills
            && st.0.deaths == st.1.deaths),
        <Chat as Pair>::equal(c.0, c.1) <==> (c.0.sender_id == c.1.sender_id && c.0.channel
            == c.1.channel && c.0.sent_at_millis == c.1.sent_at_millis && c.0.text == c.1.text),
{
}

} // verus!


