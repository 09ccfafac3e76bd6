//! The wire formats that are compared, and their names on the command line.

use vstd::prelude::*;
use vstd::string::StringExecFns;
use crate::capnproto::{
    canonicalize, capnp_canonical_form, capnp_is_canonical, frame_of, framed_segments, joined,
    is_canonical, read_message_from_flat_slice_no_alloc, segments_held, views, SEGMENT_WORDS, TRAVERSAL_LIMIT_WORDS,
};
use crate::fomoxa::DecodeError;
use crate::messages::{Chat, ChatView, Input, Stats, Transform, TransformBatch, TransformBatchView};
use vstd::utf8::encode_utf8;
use crate::pair::Pair;
use crate::text::str_eq;

verus! {

/// A wire format.
#[derive(Clone, Copy, Debug, PartialEq, Eq, Structural)]
pub enum Format {
    Fomoxa,
    Protobuf,
    Capnp,
    CapnpCanonical,
}

/// The name of a format, as the command line spells it.
pub open spec fn format_name(format: Format) -> Seq<char> {
    match format {
        Format::Fomoxa => "fomoxa"@,
        Format::Protobuf => "protobuf"@,
        Format::Capnp => "capnp"@,
        Format::CapnpCanonical => "capnp-canonical"@,
    }
}

/// The format whose name is `name`, if any.
pub open spec fn format_named(name: Seq<char>) -> Option<Format> {
    if name == format_name(Format::Fomoxa) {
        Some(Format::Fomoxa)
    } else if name == format_name(Format::Protobuf) {
        Some(Format::Protobuf)
    } else if name == format_name(Format::Capnp) {
        Some(Format::Capnp)
    } else if name == format_name(Format::CapnpCanonical) {
        Some(Format::CapnpCanonical)
    } else {
        None
    }
}

/// The formats in the order in which they are listed and measured.
pub open spec fn all_formats() -> Seq<Format> {
    seq![Format::Fomoxa, Format::Protobuf, Format::Capnp, Format::CapnpCanonical]
}

impl Format {
    /// Every format, in the order in which they are measured.
    pub fn all() -> (r: [Format; 4])
        ensures
            r@ == all_formats(),
    {
        let r = [Format::Fomoxa, Format::Protobuf, Format::Capnp, Format::CapnpCanonical];
        assert(r@ =~= all_formats());
        r
    }

    pub fn name(self) -> (r: &'static str)
        ensures
            r@ == format_name(self),
    {
        match self {
            Format::Fomoxa => "fomoxa",
            Format::Protobuf => "protobuf",
            Format::Capnp => "capnp",
            Format::CapnpCanonical => "capnp-canonical",
        }
    }

    /// The first format in `all()` whose name is `name`.
    pub fn parse(name: &str) -> (r: Option<Format>)
        ensures
            r == format_named(name@),
    {
        let all = Format::all();
        let mut i: usize = 0;
        while i < 4
            invariant
                all@ == all_formats(),
                i <= 4,
                forall|j: int| 0 <= j < i ==> format_name(#[trigger] all_formats()[j]) != name@,
            decreases 4 - i,
        {
            if str_eq(all[i].name(), name) {
                return Some(all[i]);
            }
            i = i + 1;
        }
        None
    }
}

/// Distinct formats have distinct names.
pub proof fn lemma_format_names_distinct(a: Format, b: Format)
    ensures
        (format_name(a) == format_name(b)) == (a == b),
{
    reveal_strlit("fomoxa");
    reveal_strlit("protobuf");
    reveal_strlit("capnp");
    reveal_strlit("capnp-canonical");
    // The four names have four different lengths.
    assert(format_name(a).len() == format_name(b).len() ==> a == b);
}

/// Parsing the name of a format gives that format back.
pub proof fn lemma_parse_name(format: Format)
    ensures
        format_named(format_name(format)) == Some(format),
{
    lemma_format_names_distinct(format, Format::Fomoxa);
    lemma_format_names_distinct(format, Format::Protobuf);
    lemma_format_names_distinct(format, Format::Capnp);
    lemma_format_names_distinct(format, Format::CapnpCanonical);
}

/// A named sample message.
pub struct Sample<M> {
    pub name: &'static str,
    pub data: &'static str,
    pub fomoxa: M,
}

impl<M> Sample<M> {
    pub fn new(name: &'static str, data: &'static str, value: M) -> (r: Sample<M>)
        ensures
            r.name == name,
            r.data == data,
            r.fomoxa == value,
    {
        Sample { name, data, fomoxa: value }
    }

    /// `name (data)`.
    pub fn label(&self) -> (r: String)
        ensures
            r@ == self.name@ + " ("@ + self.data@ + ")"@,
    {
        let mut r = self.name.to_owned();
        r.append(" (");
        r.append(self.data);
        r.append(")");
        r
    }
}

/// A value decoded in one of the formats that the library encodes.
pub enum Decoded<M> {
    Fomoxa(M),
    Capnp(M),
    CapnpCanonical(M),
}

impl<M> Decoded<M> {
    pub open spec fn format_spec(&self) -> Format {
        match self {
            Decoded::Fomoxa(_) => Format::Fomoxa,
            Decoded::Capnp(_) => Format::Capnp,
            Decoded::CapnpCanonical(_) => Format::CapnpCanonical,
        }
    }

    pub open spec fn value(&self) -> &M {
        match self {
            Decoded::Fomoxa(v) => v,
            Decoded::Capnp(v) => v,
            Decoded::CapnpCanonical(v) => v,
        }
    }
}

impl<M: Pair> Decoded<M> {
    /// The decoded value's fields equal the sample's, floats compared as
    /// `f32` values.
    pub fn matches(&self, sample: &Sample<M>) -> (r: bool)
        ensures
            r == M::equal(self.value()@, sample.fomoxa@),
    {
        match self {
            Decoded::Fomoxa(v) => v.same(&sample.fomoxa),
            Decoded::Capnp(v) => v.same(&sample.fomoxa),
            Decoded::CapnpCanonical(v) => v.same(&sample.fomoxa),
        }
    }
}

/// The bytes of a value in a format that the library encodes: `None` where
/// the `capnp` crate fails to canonicalize.
pub open spec fn encoded<M: Pair>(format: Format, v: M::V) -> Option<Seq<u8>> {
    match format {
        Format::Fomoxa => Some(M::fomoxa_bytes(v)),
        Format::Capnp => Some(frame_of(M::capnp_segments_of(v))),
        Format::CapnpCanonical => capnp_canonical_form(M::capnp_segment_of(v)),
        Format::Protobuf => None,
    }
}

/// What decoding bytes in a format that the library decodes gives.
pub open spec fn decoded<M: Pair>(format: Format, bytes: Seq<u8>) -> Option<M::V> {
    match format {
        Format::Fomoxa => match M::fomoxa_decoded(bytes) {
            Ok(v) => Some(v),
            Err(_) => None,
        },
        Format::Capnp => match framed_segments(bytes) {
            Some(segments) => M::capnp_read(segments),
            None => None,
        },
        Format::CapnpCanonical => if bytes.len() % 8 == 0 && capnp_is_canonical(bytes) == Some(
            true,
        ) {
            M::capnp_read(seq![bytes])
        } else {
            None
        },
        Format::Protobuf => None,
    }
}

/// The formats whose codecs this library holds.
pub open spec fn library_format(format: Format) -> bool {
    format != Format::Protobuf
}

/// The value's lengths fit the fields that hold them in a format that the
/// library encodes.
pub open spec fn encodable<M: Pair>(format: Format, v: M::V) -> bool {
    match format {
        Format::Fomoxa => M::fomoxa_encodable(v),
        Format::Capnp | Format::CapnpCanonical => M::capnp_encodable(v),
        Format::Protobuf => false,
    }
}

/// A Cap'n Proto reader refuses a segment over its traversal limit; a
/// Fomoxa reader has no such limit.
pub open spec fn within_reader_limit<M: Pair>(format: Format, v: M::V) -> bool {
    match format {
        Format::Fomoxa => true,
        Format::Capnp => joined(M::capnp_segments_of(v)).len() / 8 <= TRAVERSAL_LIMIT_WORDS,
        _ => M::capnp_segment_of(v).len() / 8 <= TRAVERSAL_LIMIT_WORDS,
    }
}

/// `capnp` canonicalizes the value's message into no more than
/// `SEGMENT_WORDS` words, the one segment that the encoder lends for it
/// (the canonical message must be a single segment).
pub open spec fn canonical_fits<M: Pair>(v: M::V) -> bool {
    capnp_canonical_form(M::capnp_segment_of(v)) matches Some(c) && c.len() / 8 <= SEGMENT_WORDS
}

/// Whether `capnp` canonicalizes the value's message into one segment of
/// `SEGMENT_WORDS` words.
pub fn canonical_fits_check<M: Pair>(value: &M) -> (r: bool)
    requires
        M::capnp_encodable(value@),
    ensures
        r == canonical_fits::<M>(value@),
{
    let segment = value.encode_capnp();
    proof {
        M::lemma_capnp_segment_words(value@);
    }
    match canonicalize(segment.as_slice()) {
        Some(canonical) => canonical.len() / 8 <= SEGMENT_WORDS,
        None => false,
    }
}

/// Whether the value's lengths fit the fields that hold them in a format
/// that the library encodes.
pub fn can_encode<M: Pair>(format: Format, value: &M) -> (r: bool)
    ensures
        r == encodable::<M>(format, value@),
{
    match format {
        Format::Fomoxa => value.fits_fomoxa(),
        Format::Capnp | Format::CapnpCanonical => value.fits_capnp(),
        Format::Protobuf => false,
    }
}

/// Encodes messages into output buffers that it keeps between calls: the
/// Fomoxa bytes and the framed plain Cap'n Proto message are written into
/// memory that is already there. The Cap'n Proto segment of a message is
/// built anew on each call, and a canonical message is the buffer that
/// `capnp` returns for it.
pub struct Encoder {
    fomoxa: Vec<u8>,
    capnp: Vec<u8>,
}

impl Encoder {
    /// The buffers hold nothing yet.
    pub closed spec fn is_empty(&self) -> bool {
        self.fomoxa@.len() == 0 && self.capnp@.len() == 0
    }

    pub fn new() -> (r: Encoder)
        ensures
            r.is_empty(),
    {
        Encoder { fomoxa: Vec::new(), capnp: Vec::new() }
    }

    /// Encodes a sample in a format that the library encodes. A plain Cap'n
    /// Proto message takes a second segment when it outgrows the first
    /// segment of `SEGMENT_WORDS` words; a canonical one is one segment with
    /// no segment table, in whole words, and must fit in one such segment.
    /// What is encoded decodes back to the sample, in every format, unless a
    /// Cap'n Proto reader would refuse it as over its traversal limit.
    pub fn encode<M: Pair>(&mut self, format: Format, sample: &Sample<M>) -> (r: &[u8])
        requires
            encodable::<M>(format, sample.fomoxa@),
            format == Format::CapnpCanonical ==> canonical_fits::<M>(sample.fomoxa@),
        ensures
            encoded::<M>(format, sample.fomoxa@) == Some(r@),
            format == Format::CapnpCanonical ==> r@.len() % 8 == 0,
            within_reader_limit::<M>(format, sample.fomoxa@) ==> decoded::<M>(format, r@) == Some(
                sample.fomoxa@,
            ),
    {
        match self.encode_value(format, &sample.fomoxa) {
            Some(b) => b,
            None => vstd::pervasive::unreached(),
        }
    }

    /// Encodes a sample as `encode` does, or gives `None` for a canonical
    /// message that `capnp` does not canonicalize into one segment of
    /// `SEGMENT_WORDS` words, where `encode` may not be called.
    pub fn try_encode<M: Pair>(&mut self, format: Format, sample: &Sample<M>) -> (r: Option<&[u8]>)
        requires
            encodable::<M>(format, sample.fomoxa@),
        ensures
            r is None == (format == Format::CapnpCanonical && !canonical_fits::<M>(sample.fomoxa@)),
            r matches Some(b) ==> encoded::<M>(format, sample.fomoxa@) == Some(b@),
    {
        if format == Format::CapnpCanonical && !canonical_fits_check(&sample.fomoxa) {
            return None;
        }
        Some(self.encode(format, sample))
    }

    /// Encodes a decoded value again, in the format it was decoded from; the
    /// bytes decode back to that value.
    pub fn encode_decoded<M: Pair>(&mut self, decoded: &Decoded<M>) -> (r: &[u8])
        requires
            encodable::<M>(decoded.format_spec(), decoded.value()@),
            decoded.format_spec() == Format::CapnpCanonical ==> canonical_fits::<M>(
                decoded.value()@,
            ),
        ensures
            encoded::<M>(decoded.format_spec(), decoded.value()@) == Some(r@),
            decoded.format_spec() == Format::CapnpCanonical ==> r@.len() % 8 == 0,
            within_reader_limit::<M>(decoded.format_spec(), decoded.value()@)
                ==> crate::format::decoded::<M>(decoded.format_spec(), r@) == Some(decoded.value()@),
    {
        let r = match decoded {
            Decoded::Fomoxa(v) => self.encode_value(Format::Fomoxa, v),
            Decoded::Capnp(v) => self.encode_value(Format::Capnp, v),
            Decoded::CapnpCanonical(v) => self.encode_value(Format::CapnpCanonical, v),
        };
        match r {
            Some(b) => b,
            None => vstd::pervasive::unreached(),
        }
    }

    /// Encodes a decoded value again as `encode_decoded` does, or gives
    /// `None` for a canonical message that does not fit one segment.
    pub fn try_encode_decoded<M: Pair>(&mut self, decoded: &Decoded<M>) -> (r: Option<&[u8]>)
        requires
            encodable::<M>(decoded.format_spec(), decoded.value()@),
        ensures
            r is None == (decoded.format_spec() == Format::CapnpCanonical && !canonical_fits::<M>(
                decoded.value()@,
            )),
            r matches Some(b) ==> encoded::<M>(decoded.format_spec(), decoded.value()@) == Some(b@),
    {
        if let Decoded::CapnpCanonical(v) = decoded {
            if !canonical_fits_check(v) {
                return None;
            }
        }
        Some(self.encode_decoded(decoded))
    }

    /// The echo server's step: decodes the request and encodes the decoded
    /// value again, in the same format. `None` where the request does not
    /// decode, or where its value cannot be encoded again (a length over its
    /// field, or a canonical message over one segment).
    pub fn reply<M: Pair>(&mut self, format: Format, request: &[u8]) -> (r: Option<&[u8]>)
        requires
            library_format(format),
            format == Format::CapnpCanonical && request@.len() % 8 == 0 ==> request@.len() / 8
                <= u32::MAX,
        ensures
            r is Some == (decoded::<M>(format, request@) matches Some(v) && encodable::<M>(
                format,
                v,
            ) && (format == Format::CapnpCanonical ==> canonical_fits::<M>(v))),
            r matches Some(b) ==> (decoded::<M>(format, request@) matches Some(v) && encoded::<M>(
                format,
                v,
            ) == Some(b@)),
    {
        let d = match decode::<M>(format, request) {
            Some(d) => d,
            None => return None,
        };
        let fits = match &d {
            Decoded::Fomoxa(v) => can_encode(Format::Fomoxa, v),
            Decoded::Capnp(v) => can_encode(Format::Capnp, v),
            Decoded::CapnpCanonical(v) => can_encode(Format::CapnpCanonical, v),
        };
        if !fits {
            return None;
        }
        self.try_encode_decoded(&d)
    }

    fn encode_value<M: Pair>(&mut self, format: Format, value: &M) -> (r: Option<&[u8]>)
        requires
            encodable::<M>(format, value@),
        ensures
            r is Some == encoded::<M>(format, value@) is Some,
            r matches Some(b) ==> encoded::<M>(format, value@) == Some(b@),
            r matches Some(b) ==> (format == Format::CapnpCanonical ==> b@.len() % 8 == 0),
            r matches Some(b) ==> (within_reader_limit::<M>(format, value@) ==> decoded::<M>(
                format,
                b@,
            ) == Some(value@)),
    {
        match format {
            Format::Fomoxa => {
                self.fomoxa.clear();
                value.encode_fomoxa(&mut self.fomoxa);
                assert(self.fomoxa@ =~= M::fomoxa_bytes(value@));
                proof {
                    lemma_round_trip::<M>(format, value@, Seq::empty());
                    assert(self.fomoxa@ + Seq::<u8>::empty() =~= self.fomoxa@);
                }
                Some(self.fomoxa.as_slice())
            },
            Format::Capnp => {
                self.capnp.clear();
                value.encode_capnp_frame(&mut self.capnp);
                assert(self.capnp@ =~= frame_of(M::capnp_segments_of(value@)));
                proof {
                    if within_reader_limit::<M>(format, value@) {
                        lemma_round_trip::<M>(format, value@, Seq::empty());
                        assert(self.capnp@ + Seq::<u8>::empty() =~= self.capnp@);
                    }
                }
                Some(self.capnp.as_slice())
            },
            Format::CapnpCanonical => {
                let segment = value.encode_capnp();
                proof {
                    M::lemma_capnp_segment_words(value@);
                }
                match canonicalize(segment.as_slice()) {
                    Some(canonical) => {
                        proof {
                            if within_reader_limit::<M>(format, value@) {
                                M::lemma_capnp_round_trip(value@);
                                M::lemma_capnp_read_alike(segment@, canonical@);
                            }
                        }
                        self.capnp = canonical;
                        Some(self.capnp.as_slice())
                    },
                    None => None,
                }
            },
            Format::Protobuf => None,
        }
    }
}

impl Default for Encoder {
    fn default() -> (r: Encoder)
        ensures
            r.is_empty(),
    {
        Encoder::new()
    }
}

/// Decodes bytes in a format that the library decodes. A canonical message
/// is accepted only if it is whole words that `capnp` finds canonical; the
/// `capnp` reader panics on a segment of 2^32 words or more, so such input
/// is left out.
pub fn decode<M: Pair>(format: Format, bytes: &[u8]) -> (r: Option<Decoded<M>>)
    requires
        library_format(format),
        format == Format::CapnpCanonical && bytes@.len() % 8 == 0 ==> bytes@.len() / 8 <= u32::MAX,
    ensures
        r is Some == decoded::<M>(format, bytes@) is Some,
        r matches Some(d) ==> d.format_spec() == format && decoded::<M>(format, bytes@) == Some(
            d.value()@,
        ),
{
    match format {
        Format::Fomoxa => match M::decode_fomoxa(bytes) {
            Ok(v) => Some(Decoded::Fomoxa(v)),
            Err(_) => None,
        },
        Format::Capnp => match read_message_from_flat_slice_no_alloc(bytes) {
            Some(held) => {
                let segments = segments_held(&held);
                match M::decode_capnp(segments.as_slice()) {
                    Some(v) => Some(Decoded::Capnp(v)),
                    None => None,
                }
            },
            None => None,
        },
        Format::CapnpCanonical => {
            if bytes.len() % 8 != 0 {
                return None;
            }
            match is_canonical(bytes) {
                Some(true) => match M::decode_capnp(
                    {
                        let mut segments: Vec<&[u8]> = Vec::new();
                        segments.push(bytes);
                        assert(views(segments@) =~= seq![bytes@]);
                        segments
                    }.as_slice(),
                ) {
                    Some(v) => Some(Decoded::CapnpCanonical(v)),
                    None => None,
                },
                _ => None,
            }
        },
        Format::Protobuf => None,
    }
}

/// Decoding what was encoded in Fomoxa or plain Cap'n Proto, whatever bytes
/// follow it, gives the value back. (A Cap'n Proto segment over the reader's
/// traversal limit is refused, so such values are left out. For canonical
/// Cap'n Proto, whose bytes `capnp` computes, the round trip is what
/// `Encoder::encode` ensures of the bytes it returns.)
pub proof fn lemma_round_trip<M: Pair>(format: Format, v: M::V, rest: Seq<u8>)
    requires
        format == Format::Fomoxa || format == Format::Capnp,
        encodable::<M>(format, v),
        within_reader_limit::<M>(format, v),
    ensures
        encoded::<M>(format, v) matches Some(b) && decoded::<M>(format, b + rest) == Some(v),
{
    if format == Format::Fomoxa {
        M::lemma_fomoxa_round_trip(v, rest);
    } else {
        M::lemma_capnp_frame_round_trip(v, rest);
    }
}

/// Encoding a value decoded from the bytes that encode `v` gives back those
/// bytes: the echo server's reply equals the client's request, in every
/// format that the library encodes. For canonical Cap'n Proto the request's
/// round trip is the one that `Encoder::encode` ensures of the bytes it
/// returns, as `capnp` computes them.
pub proof fn lemma_echo<M: Pair>(format: Format, v: M::V)
    requires
        library_format(format),
        encodable::<M>(format, v),
        within_reader_limit::<M>(format, v),
        format == Format::CapnpCanonical ==> (encoded::<M>(format, v) matches Some(b)
            ==> decoded::<M>(format, b) == Some(v)),
    ensures
        encoded::<M>(format, v) matches Some(b) ==> decoded::<M>(format, b) matches Some(w)
            && encoded::<M>(format, w) == Some(b),
        format != Format::CapnpCanonical ==> encoded::<M>(format, v) is Some,
{
    if format != Format::CapnpCanonical {
        lemma_round_trip::<M>(format, v, Seq::empty());
        let b = encoded::<M>(format, v).unwrap();
        assert(b + Seq::<u8>::empty() =~= b);
    }
}

/// The echo server answers the plain Cap'n Proto message of every batch
/// whose list fits a list pointer (fewer than 2^27 transforms), in one
/// segment or two, that a reader reads within its traversal limit: the
/// request decodes to the batch, the batch can be encoded again, and
/// encoding it gives the request back, so `Encoder::reply` gives `Some`.
pub proof fn lemma_batch_reply(b: TransformBatchView)
    requires
        b.transforms.len() < 0x0800_0000,
        within_reader_limit::<TransformBatch>(Format::Capnp, b),
    ensures
        encodable::<TransformBatch>(Format::Capnp, b),
        encoded::<TransformBatch>(Format::Capnp, b) matches Some(x) && decoded::<TransformBatch>(
            Format::Capnp,
            x,
        ) == Some(b),
{
    lemma_echo::<TransformBatch>(Format::Capnp, b);
    lemma_round_trip::<TransformBatch>(Format::Capnp, b, Seq::empty());
    let x = encoded::<TransformBatch>(Format::Capnp, b).unwrap();
    assert(x + Seq::<u8>::empty() =~= x);
}

/// A canonical-mode decoder accepts only whole words that `capnp` finds
/// canonical.
pub proof fn lemma_canonical_checked<M: Pair>(bytes: Seq<u8>)
    ensures
        decoded::<M>(Format::CapnpCanonical, bytes) is Some ==> bytes.len() % 8 == 0
            && capnp_is_canonical(bytes) == Some(true),
{
}

/// A Fomoxa decoder reads no byte after the message: what decodes from
/// `bytes` decodes the same, whatever follows.
pub proof fn lemma_fomoxa_ignores_what_follows<M: Pair>(bytes: Seq<u8>, rest: Seq<u8>)
    ensures
        M::fomoxa_decoded(bytes) matches Ok(v) ==> M::fomoxa_decoded(bytes + rest) == Ok::<
            M::V,
            DecodeError,
        >(v),
{
    M::lemma_fomoxa_decoded_bytes(bytes);
    if let Ok(v) = M::fomoxa_decoded(bytes) {
        let n = M::fomoxa_bytes(v).len() as int;
        M::lemma_fomoxa_round_trip(v, bytes.skip(n) + rest);
        assert(bytes + rest =~= M::fomoxa_bytes(v) + (bytes.skip(n) + rest));
    }
}

/// Fomoxa writes every field at its declared width, with no tags, and a
/// 4-byte length before a string or an array, so a message's size depends on
/// its shape alone: 21 bytes for an input, 29 for a transform, 8 + 29 n for a
/// batch of n transforms, 18 + the text's UTF-8 length for a chat, and 38
/// for stats.
pub proof fn lemma_fomoxa_sizes(
    i: Input,
    t: Transform,
    b: TransformBatchView,
    c: ChatView,
    st: Stats,
)
    requires
        <TransformBatch as Pair>::fomoxa_encodable(b),
        <Chat as Pair>::fomoxa_encodable(c),
    ensures
        encoded::<Input>(Format::Fomoxa, i) matches Some(x) && x.len() == 21,
        encoded::<Transform>(Format::Fomoxa, t) matches Some(x) && x.len() == 29,
        encoded::<TransformBatch>(Format::Fomoxa, b) matches Some(x) && x.len() == 8 + 29
            * b.transforms.len(),
        encoded::<Chat>(Format::Fomoxa, c) matches Some(x) && x.len() == 18 + encode_utf8(
            c.text,
        ).len(),
        encoded::<Stats>(Format::Fomoxa, st) matches Some(x) && x.len() == 38,
{
    crate::fomoxa::lemma_input_round_trip(i, Seq::empty());
    crate::fomoxa::lemma_transform_round_trip(t, Seq::empty());
    crate::fomoxa::lemma_batch_round_trip(b, Seq::empty());
    crate::fomoxa::lemma_chat_round_trip(c, Seq::empty());
    crate::fomoxa::lemma_stats_round_trip(st, Seq::empty());
}

/// A plain Cap'n Proto message is an 8-byte segment table and one segment of
/// whole words, and zero fields take their space like any other, so its
/// size depends on its shape alone: 40 bytes for an input, 48 for a
/// transform, 40 + 32 n for a batch of n transforms, 40 + 8 ((l + 8) / 8)
/// for a chat whose text is l UTF-8 bytes (its NUL and padding included),
/// and 56 for stats. A batch or chat that outgrows the builder's first
/// segment of `SEGMENT_WORDS` words takes a second one, which adds 16 bytes:
/// the longer segment table and a far pointer.
#[verifier::spinoff_prover]
pub proof fn lemma_capnp_sizes(
    i: Input,
    t: Transform,
    b: TransformBatchView,
    c: ChatView,
    st: Stats,
)
    requires
        <TransformBatch as Pair>::capnp_encodable(b),
        <Chat as Pair>::capnp_encodable(c),
    ensures
        encoded::<Input>(Format::Capnp, i) matches Some(x) && x.len() == 40,
        encoded::<Transform>(Format::Capnp, t) matches Some(x) && x.len() == 48,
        encoded::<TransformBatch>(Format::Capnp, b) matches Some(x) && x.len() == (if 4 + 4
            * b.transforms.len() <= SEGMENT_WORDS {
            40 + 32 * b.transforms.len()
        } else {
            56 + 32 * b.transforms.len()
        }),
        encoded::<Chat>(Format::Capnp, c) matches Some(x) && x.len() == (if 4 + (encode_utf8(
            c.text,
        ).len() + 8) / 8 <= SEGMENT_WORDS {
            40 + 8 * ((encode_utf8(c.text).len() + 8) / 8)
        } else {
            56 + 8 * ((encode_utf8(c.text).len() + 8) / 8)
        }),
        encoded::<Stats>(Format::Capnp, st) matches Some(x) && x.len() == 56,
{
    crate::capnproto::lemma_segment_lengths(i, t, b, c, st);
    crate::capnproto::lemma_frame_of_one(crate::capnproto::input_segment(i));
    crate::capnproto::lemma_frame_of_one(crate::capnproto::transform_segment(t));
    crate::capnproto::lemma_frame_of_one(crate::capnproto::stats_segment(st));
    lemma_split_frame_size(crate::capnproto::batch_segment(b), 16);
    lemma_split_frame_size(crate::capnproto::chat_segment(c), 24);
}

/// The serialization of a segment, whole or split in two with a far pointer
/// added, is 8 or 24 bytes longer than the segment itself.
#[verifier::spinoff_prover]
proof fn lemma_split_frame_size(s: Seq<u8>, at: int)
    requires
        8 <= at <= s.len(),
    ensures
        crate::capnproto::frame_of(seq![s]).len() == 8 + s.len(),
        crate::capnproto::frame_of(crate::capnproto::split_segments(s, at)).len() == 24 + s.len(),
{
    crate::capnproto::lemma_frame_of_one(s);
    let m = crate::capnproto::split_segments(s, at);
    crate::capnproto::lemma_frame_of_two(m[0], m[1]);
    assert(m =~= seq![m[0], m[1]]);
}

} // verus!
