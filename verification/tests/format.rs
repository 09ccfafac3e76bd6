use std::f32::consts::PI;

use fomoxa_codec_bench::capnproto::SEGMENT_WORDS;
use fomoxa_codec_bench::format::{decode, Encoder, Format, Sample};
use fomoxa_codec_bench::messages::{Chat, Input, Stats, Transform, TransformBatch};
use fomoxa_codec_bench::pair::Pair;
use fomoxa_codec_bench::samples::{wanted, Rng};

const TYPICAL: &str = "typical";
const SPARSE: &str = "sparse";
const CHAT_TEXT: &str = "gg, regroup at the north gate in 30 seconds and bring the healer";
const LIBRARY_FORMATS: [Format; 3] = [Format::Fomoxa, Format::Capnp, Format::CapnpCanonical];

fn unit(rng: &mut Rng) -> f32 {
    rng.next_u32() as f32 / u32::MAX as f32
}

fn range(rng: &mut Rng, low: f32, high: f32) -> f32 {
    low + (high - low) * unit(rng)
}

fn typical_input(rng: &mut Rng) -> Input {
    let heading = range(rng, -PI, PI);
    Input {
        sequence: rng.sequence_number(),
        move_x: heading.cos().to_bits(),
        move_z: heading.sin().to_bits(),
        jump: rng.next_u32() % 4 == 0,
        look_yaw: heading.to_bits(),
        look_pitch: range(rng, -0.5, 0.5).to_bits(),
    }
}

fn typical_transform(rng: &mut Rng, entity_id: u32) -> Transform {
    Transform {
        entity_id,
        kind: (rng.next_u32() % 8) as u8,
        color: rng.next_u32() | 0xFF,
        position_x: range(rng, -500.0, 500.0).to_bits(),
        position_y: range(rng, 0.0, 20.0).to_bits(),
        position_z: range(rng, -500.0, 500.0).to_bits(),
        yaw: range(rng, -PI, PI).to_bits(),
        pitch: range(rng, -1.5, 1.5).to_bits(),
    }
}

fn sparse_transform(rng: &mut Rng, entity_id: u32) -> Transform {
    Transform {
        entity_id,
        kind: 0,
        color: 0,
        position_x: range(rng, -500.0, 500.0).to_bits(),
        position_y: 0.0f32.to_bits(),
        position_z: range(rng, -500.0, 500.0).to_bits(),
        yaw: range(rng, -PI, PI).to_bits(),
        pitch: 0.0f32.to_bits(),
    }
}

fn batch(rng: &mut Rng, count: u32, transform: fn(&mut Rng, u32) -> Transform) -> TransformBatch {
    TransformBatch {
        sequence: rng.sequence_number(),
        transforms: (1..=count).map(|entity_id| transform(rng, entity_id)).collect(),
    }
}

trait Visitor {
    fn visit<M: Pair>(&mut self, sample: &Sample<M>);
}

fn visit_all(visitor: &mut impl Visitor, filter: Option<&str>) {
    let mut rng = Rng::new(0x5EED_F0E0_A11C_E5ED);
    let input = typical_input(&mut rng);
    if wanted(filter, "input") {
        visitor.visit(&Sample::new("input", TYPICAL, input));
        visitor.visit(&Sample::new("input", SPARSE, Input { sequence: 42, ..Input::default() }));
    }
    let transform = typical_transform(&mut rng, 4_242);
    if wanted(filter, "transform") {
        visitor.visit(&Sample::new("transform", TYPICAL, transform));
    }
    for (name, count) in [("batch-10", 10), ("batch-100", 100), ("batch-1000", 1000)] {
        let typical = batch(&mut rng, count, typical_transform);
        let sparse = batch(&mut rng, count, sparse_transform);
        if wanted(filter, name) {
            visitor.visit(&Sample::new(name, TYPICAL, typical));
            visitor.visit(&Sample::new(name, SPARSE, sparse));
        }
    }
    if wanted(filter, "chat") {
        visitor.visit(&Sample::new(
            "chat",
            TYPICAL,
            Chat { sender_id: 73_411, channel: 3, sent_at_millis: 1_789_632_000_123, text: CHAT_TEXT.to_owned() },
        ));
    }
    if wanted(filter, "stats") {
        visitor.visit(&Sample::new(
            "stats",
            TYPICAL,
            Stats {
                player_id: 123_456_789,
                level: 42,
                health: 950,
                mana: 300,
                gold: 12_345,
                experience: 1_234_567,
                kills: 17,
                deaths: 5,
            },
        ));
    }
}

struct RoundTrip {
    visited: usize,
}

impl Visitor for RoundTrip {
    fn visit<M: Pair>(&mut self, sample: &Sample<M>) {
        let mut encoder = Encoder::default();
        for format in LIBRARY_FORMATS {
            let bytes = encoder.encode(format, sample).to_vec();
            let decoded = decode::<M>(format, &bytes).expect("every sample decodes");
            assert!(decoded.matches(sample), "{} {}", format.name(), sample.label());
            assert_eq!(encoder.encode_decoded(&decoded), &bytes[..]);
        }
        self.visited += 1;
    }
}

struct EncodedBy {
    format: Format,
    shared: Encoder,
    encoded: Vec<(String, Vec<u8>)>,
}

impl Visitor for EncodedBy {
    fn visit<M: Pair>(&mut self, sample: &Sample<M>) {
        let fresh = Encoder::default().encode(self.format, sample).to_vec();
        let reused = self.shared.encode(self.format, sample).to_vec();
        assert_eq!(reused, fresh, "reused {} encoder differs on {}", self.format.name(), sample.label());
        self.encoded.push((sample.label(), fresh));
    }
}

fn encoded_by(format: Format) -> Vec<(String, Vec<u8>)> {
    let mut encoded_by = EncodedBy { format, shared: Encoder::default(), encoded: Vec::new() };
    visit_all(&mut encoded_by, None);
    encoded_by.encoded
}

fn sizes(format: Format) -> Vec<(String, usize)> {
    encoded_by(format).into_iter().map(|(label, bytes)| (label, bytes.len())).collect()
}

fn labelled(expected: [(&str, usize); 11]) -> Vec<(String, usize)> {
    expected.into_iter().map(|(label, size)| (label.to_owned(), size)).collect()
}

#[test]
fn every_sample_round_trips_in_every_format() {
    let mut round_trip = RoundTrip { visited: 0 };
    visit_all(&mut round_trip, None);
    assert_eq!(round_trip.visited, 11);
}

#[test]
fn a_filter_selects_exact_message_names() {
    let mut round_trip = RoundTrip { visited: 0 };
    visit_all(&mut round_trip, Some("batch-10,stats"));
    assert_eq!(round_trip.visited, 3);
}

#[test]
fn format_names_parse() {
    assert_eq!(Format::parse("fomoxa"), Some(Format::Fomoxa));
    assert_eq!(Format::parse("protobuf"), Some(Format::Protobuf));
    assert_eq!(Format::parse("capnp"), Some(Format::Capnp));
    assert_eq!(Format::parse("capnp-canonical"), Some(Format::CapnpCanonical));
    assert_eq!(Format::parse("json"), None);
}

#[test]
fn reused_capnp_encoders_match_fresh_ones_after_larger_messages() {
    assert_eq!(encoded_by(Format::Capnp).len(), 11);
    assert_eq!(encoded_by(Format::CapnpCanonical).len(), 11);
}

#[test]
fn every_capnp_sample_is_a_single_segment_within_the_reused_one() {
    for (label, bytes) in encoded_by(Format::Capnp) {
        let extra_segments = u32::from_le_bytes(bytes[0..4].try_into().unwrap());
        let segment_words = u32::from_le_bytes(bytes[4..8].try_into().unwrap()) as usize;
        assert_eq!(extra_segments, 0, "{label}");
        assert!(segment_words <= SEGMENT_WORDS, "{label}");
        assert_eq!(bytes.len(), 8 + segment_words * 8, "{label}");
    }
}

#[test]
fn capnp_sizes_follow_the_word_layout() {
    let expected = labelled([
        ("input (typical)", 40),
        ("input (sparse)", 40),
        ("transform (typical)", 48),
        ("batch-10 (typical)", 360),
        ("batch-10 (sparse)", 360),
        ("batch-100 (typical)", 3_240),
        ("batch-100 (sparse)", 3_240),
        ("batch-1000 (typical)", 32_040),
        ("batch-1000 (sparse)", 32_040),
        ("chat (typical)", 112),
        ("stats (typical)", 56),
    ]);
    assert_eq!(sizes(Format::Capnp), expected);
}

#[test]
fn canonical_capnp_drops_the_segment_table_and_trailing_zero_words() {
    let expected = labelled([
        ("input (typical)", 32),
        ("input (sparse)", 16),
        ("transform (typical)", 40),
        ("batch-10 (typical)", 352),
        ("batch-10 (sparse)", 352),
        ("batch-100 (typical)", 3_232),
        ("batch-100 (sparse)", 3_232),
        ("batch-1000 (typical)", 32_032),
        ("batch-1000 (sparse)", 32_032),
        ("chat (typical)", 104),
        ("stats (typical)", 48),
    ]);
    assert_eq!(sizes(Format::CapnpCanonical), expected);
}

#[test]
fn canonical_capnp_matches_the_library_canonicalization() {
    for ((label, plain), (_, canonical)) in encoded_by(Format::Capnp).into_iter().zip(encoded_by(Format::CapnpCanonical)) {
        let message =
            capnp::serialize::read_message_from_flat_slice(&mut &plain[..], capnp::message::ReaderOptions::new())
                .unwrap();
        let reference = message.canonicalize().unwrap();
        assert_eq!(capnp::Word::words_to_bytes(&reference), &canonical[..], "{label}");
    }
}

#[test]
fn a_non_canonical_segment_is_rejected_in_canonical_mode() {
    let sample = Sample::new("input", SPARSE, Input { sequence: 42, ..Input::default() });
    let mut encoder = Encoder::default();
    let plain_segment = encoder.encode(Format::Capnp, &sample)[8..].to_vec();
    let canonical = encoder.encode(Format::CapnpCanonical, &sample).to_vec();
    assert_ne!(plain_segment, canonical);
    assert!(decode::<Input>(Format::CapnpCanonical, &canonical).is_some());
    assert!(decode::<Input>(Format::CapnpCanonical, &plain_segment).is_none());

    let mut trailing_word = canonical.clone();
    trailing_word.extend_from_slice(&[0; 8]);
    assert!(decode::<Input>(Format::CapnpCanonical, &trailing_word).is_none());
}

#[test]
fn a_truncated_capnp_message_is_rejected() {
    let sample = Sample::new("transform", TYPICAL, Transform::default());
    let mut encoder = Encoder::default();
    for format in [Format::Capnp, Format::CapnpCanonical] {
        let bytes = encoder.encode(format, &sample).to_vec();
        for length in [0, 4, bytes.len() - 1] {
            assert!(decode::<Transform>(format, &bytes[..length]).is_none(), "{} {length} bytes", format.name());
        }
    }
    let batch = Sample::new(
        "batch-10",
        TYPICAL,
        TransformBatch { sequence: 1, transforms: vec![Transform { entity_id: 1, ..Transform::default() }; 10] },
    );
    for format in [Format::Capnp, Format::CapnpCanonical] {
        let bytes = encoder.encode(format, &batch).to_vec();
        assert!(decode::<TransformBatch>(format, &bytes[..bytes.len() - 8]).is_none(), "{}", format.name());
    }
}
