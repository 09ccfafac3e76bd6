use fomoxa_codec_bench::fomoxa::{
    decode_batch, decode_chat, decode_input, decode_stats, decode_transform, encode_batch, encode_chat,
    encode_input, encode_stats, encode_transform, DecodeError,
};
use fomoxa_codec_bench::format::{can_encode, canonical_fits_check, decode, Decoded, Encoder, Format, Sample};
use fomoxa_codec_bench::messages::{Chat, Input, Stats, Transform, TransformBatch};
use fomoxa_codec_bench::samples::{wanted, Rng};
use fomoxa_codec_bench::tcp::{frame, frame_payload_len, Mode};

fn input() -> Input {
    Input {
        sequence: 0x0102_0304,
        move_x: 1.0f32.to_bits(),
        move_z: (-2.5f32).to_bits(),
        jump: true,
        look_yaw: 0.25f32.to_bits(),
        look_pitch: 0,
    }
}

#[test]
fn fomoxa_input_is_its_fields_in_order_little_endian() {
    let mut out = vec![0xAA];
    encode_input(&input(), &mut out);
    assert_eq!(
        out,
        vec![
            0xAA, 0x04, 0x03, 0x02, 0x01, 0x00, 0x00, 0x80, 0x3F, 0x00, 0x00, 0x20, 0xC0, 0x01, 0x00, 0x00, 0x80,
            0x3E, 0x00, 0x00, 0x00, 0x00,
        ]
    );
    assert_eq!(decode_input(&out[1..]), Ok(input()));
}

#[test]
fn fomoxa_sizes_are_fixed_by_the_fields() {
    let mut out = Vec::new();
    encode_transform(&Transform::default(), &mut out);
    assert_eq!(out.len(), 29);
    out.clear();
    encode_stats(&Stats::default(), &mut out);
    assert_eq!(out.len(), 38);
    out.clear();
    encode_batch(&TransformBatch { sequence: 7, transforms: vec![Transform::default(); 10] }, &mut out);
    assert_eq!(out.len(), 298);
    out.clear();
    let chat = Chat { sender_id: 1, channel: 2, sent_at_millis: 3, text: "héllo".to_owned() };
    encode_chat(&chat, &mut out);
    assert_eq!(out.len(), 18 + 6);
    assert_eq!(&out[14..18], &[6, 0, 0, 0]);
}

#[test]
fn fomoxa_decoders_ignore_what_follows_and_report_errors() {
    let mut out = Vec::new();
    encode_input(&input(), &mut out);
    out.extend_from_slice(&[9, 9, 9]);
    assert_eq!(decode_input(&out), Ok(input()));
    assert_eq!(decode_input(&out[..20]), Err(DecodeError::UnexpectedEnd));
    assert_eq!(decode_input(&out[..12]), Err(DecodeError::UnexpectedEnd));
    let mut bad_bool = out.clone();
    bad_bool[12] = 2;
    assert_eq!(decode_input(&bad_bool), Err(DecodeError::InvalidBool));
    assert_eq!(decode_transform(&[0; 28]), Err(DecodeError::UnexpectedEnd));
    assert_eq!(decode_stats(&[0; 37]), Err(DecodeError::UnexpectedEnd));
    assert!(decode_stats(&[0; 38]).is_ok());
}

#[test]
fn fomoxa_batch_and_chat_round_trip() {
    let batch = TransformBatch {
        sequence: 99,
        transforms: (1..=3).map(|id| Transform { entity_id: id, kind: id as u8, ..Transform::default() }).collect(),
    };
    let mut out = Vec::new();
    encode_batch(&batch, &mut out);
    let back = decode_batch(&out).unwrap();
    assert_eq!(back.sequence, 99);
    assert_eq!(back.transforms, batch.transforms);
    assert!(decode_batch(&out[..out.len() - 1]).is_err());

    let chat = Chat { sender_id: 73_411, channel: 3, sent_at_millis: 1_789_632_000_123, text: "gg ✓".to_owned() };
    out.clear();
    encode_chat(&chat, &mut out);
    let back = decode_chat(&out).unwrap();
    assert_eq!((back.sender_id, back.channel, back.sent_at_millis), (73_411, 3, 1_789_632_000_123));
    assert_eq!(back.text, "gg ✓");
}

#[test]
fn fomoxa_chat_refuses_invalid_utf8() {
    let mut out = Vec::new();
    encode_chat(&Chat { sender_id: 1, channel: 1, sent_at_millis: 1, text: "ab".to_owned() }, &mut out);
    out[18] = 0xFF;
    assert_eq!(decode_chat(&out).unwrap_err(), DecodeError::InvalidUtf8);
    assert_eq!(decode_chat(&out[..19]).unwrap_err(), DecodeError::UnexpectedEnd);
}

#[test]
fn capnp_input_lays_fields_in_words() {
    let mut encoder = Encoder::default();
    let bytes = encoder.encode(Format::Capnp, &Sample::new("input", "t", input())).to_vec();
    assert_eq!(bytes.len(), 40);
    assert_eq!(&bytes[0..8], &[0, 0, 0, 0, 4, 0, 0, 0]);
    assert_eq!(&bytes[8..16], &[0, 0, 0, 0, 3, 0, 0, 0]);
    assert_eq!(&bytes[16..24], &[0x04, 0x03, 0x02, 0x01, 0x00, 0x00, 0x80, 0x3F]);
    assert_eq!(&bytes[24..32], &[0x00, 0x00, 0x20, 0xC0, 0x01, 0x00, 0x00, 0x00]);
    match decode::<Input>(Format::Capnp, &bytes) {
        Some(decoded) => assert!(decoded.matches(&Sample::new("input", "t", input()))),
        None => panic!("the input decodes"),
    }
}

#[test]
fn capnp_chat_text_round_trips_and_invalid_text_is_refused() {
    let mut encoder = Encoder::default();
    let chat = Chat { sender_id: 5, channel: 6, sent_at_millis: 7, text: String::new() };
    let bytes = encoder.encode(Format::Capnp, &Sample::new("chat", "t", chat)).to_vec();
    assert_eq!(bytes.len(), 8 + 40);
    assert!(decode::<Chat>(Format::Capnp, &bytes).is_some());
    let chat = Chat { sender_id: 5, channel: 6, sent_at_millis: 7, text: "abc".to_owned() };
    let mut bytes = encoder.encode(Format::Capnp, &Sample::new("chat", "t", chat)).to_vec();
    bytes[8 + 32] = 0xFF;
    assert!(decode::<Chat>(Format::Capnp, &bytes).is_none());
}

#[test]
fn frames_carry_the_payload_length() {
    let mut out = vec![1, 2, 3];
    frame(&[7, 8, 9, 10, 11], &mut out);
    assert_eq!(out, vec![5, 0, 0, 0, 7, 8, 9, 10, 11]);
    assert_eq!(frame_payload_len(&out[..4]), 5);
    frame(&[], &mut out);
    assert_eq!(out, vec![0, 0, 0, 0]);
    assert_eq!(frame_payload_len(&[0, 1, 0, 0]), 256);
}

#[test]
fn mode_names_parse() {
    for mode in Mode::all() {
        assert_eq!(Mode::parse(mode.name()), Some(mode));
    }
    assert_eq!(Mode::parse("buffered"), Some(Mode::Buffered));
    assert_eq!(Mode::parse("stream"), None);
    for format in Format::all() {
        assert_eq!(Format::parse(format.name()), Some(format));
    }
}

#[test]
fn rng_is_xorshift_and_never_zero() {
    let mut zero = Rng::new(0);
    let mut one = Rng::new(1);
    assert_eq!(zero.next_u32(), one.next_u32());
    let mut rng = Rng::new(0x5EED_F0E0_A11C_E5ED);
    let mut state: u64 = 0x5EED_F0E0_A11C_E5ED;
    for _ in 0..1000 {
        state ^= state << 13;
        state ^= state >> 7;
        state ^= state << 17;
        assert_ne!(state, 0);
        assert_eq!(rng.next_u32(), (state >> 32) as u32);
    }
}

#[test]
fn filters_match_whole_names() {
    assert!(wanted(None, "chat"));
    assert!(wanted(Some("batch-10,stats"), "stats"));
    assert!(wanted(Some("batch-10,stats"), "batch-10"));
    assert!(!wanted(Some("batch-10,stats"), "batch-100"));
    assert!(!wanted(Some("batch-100"), "batch-10"));
    assert!(wanted(Some(",chat,"), "chat"));
    assert!(wanted(Some("a,,b"), ""));
    assert!(!wanted(Some("a,b"), ""));
}

#[test]
fn small_messages_fit_every_library_format() {
    let batch = TransformBatch { sequence: 1, transforms: vec![Transform::default(); 3] };
    let chat = Chat { sender_id: 1, channel: 2, sent_at_millis: 3, text: "hi".to_owned() };
    for format in [Format::Fomoxa, Format::Capnp, Format::CapnpCanonical] {
        assert!(can_encode(format, &batch), "{}", format.name());
        assert!(can_encode(format, &chat), "{}", format.name());
    }
    assert!(!can_encode(Format::Protobuf, &batch));
}

#[test]
fn floats_match_as_f32_values() {
    let mut encoder = Encoder::default();
    let with_nan = Sample::new("input", "t", Input { look_yaw: f32::NAN.to_bits(), ..input() });
    for format in [Format::Fomoxa, Format::Capnp, Format::CapnpCanonical] {
        let bytes = encoder.encode(format, &with_nan).to_vec();
        let decoded = decode::<Input>(format, &bytes).expect("a NaN decodes");
        assert!(!decoded.matches(&with_nan), "{}", format.name());
    }
    let zero = Sample::new("input", "t", Input { move_x: 0.0f32.to_bits(), ..input() });
    let negative_zero = Sample::new("input", "t", Input { move_x: (-0.0f32).to_bits(), ..input() });
    let bytes = encoder.encode(Format::Capnp, &negative_zero).to_vec();
    assert!(decode::<Input>(Format::Capnp, &bytes).unwrap().matches(&zero));
    let other = Sample::new("input", "t", Input { move_x: 1.5f32.to_bits(), ..input() });
    assert!(!decode::<Input>(Format::Capnp, &bytes).unwrap().matches(&other));
}

/// A plain one-segment frame of a batch (sequence 7) whose list pointer has
/// element size `elements` and `count` elements, followed by `body`.
fn batch_frame(elements: u32, count: u32, body: &[u8]) -> Vec<u8> {
    let words = 3 + body.len() / 8;
    let mut frame = Vec::new();
    frame.extend_from_slice(&0u32.to_le_bytes());
    frame.extend_from_slice(&(words as u32).to_le_bytes());
    frame.extend_from_slice(&[0, 0, 0, 0, 1, 0, 1, 0]);
    frame.extend_from_slice(&[7, 0, 0, 0, 0, 0, 0, 0]);
    frame.extend_from_slice(&1u32.to_le_bytes());
    frame.extend_from_slice(&(elements | (count << 3)).to_le_bytes());
    frame.extend_from_slice(body);
    frame
}

fn decoded_batch(frame: &[u8]) -> Option<TransformBatch> {
    match decode::<TransformBatch>(Format::Capnp, frame)? {
        Decoded::Capnp(batch) => Some(batch),
        _ => panic!("a Cap'n Proto frame decodes as Cap'n Proto"),
    }
}

#[test]
fn a_struct_list_may_be_sent_as_a_list_of_words_or_bytes() {
    let eight = batch_frame(5, 2, &[0x44, 0x33, 0x22, 0x11, 9, 0, 0, 0, 5, 0, 0, 0, 0xff, 1, 2, 3]);
    let batch = decoded_batch(&eight).expect("a list of double words reads as transforms");
    assert_eq!(batch.sequence, 7);
    assert_eq!(batch.transforms.len(), 2);
    assert_eq!(batch.transforms[0], Transform { entity_id: 0x1122_3344, kind: 9, ..Transform::default() });
    assert_eq!(batch.transforms[1], Transform { entity_id: 5, kind: 0xff, ..Transform::default() });

    let four = batch_frame(4, 3, &[1, 0, 0, 0, 2, 0, 0, 0, 3, 0, 0, 0, 0, 0, 0, 0]);
    let batch = decoded_batch(&four).expect("a list of words reads as transforms");
    let ids: Vec<u32> = batch.transforms.iter().map(|t| t.entity_id).collect();
    assert_eq!(ids, vec![1, 2, 3]);
    assert!(batch.transforms.iter().all(|t| t.kind == 0));

    let bytes = batch_frame(2, 3, &[1, 2, 3, 0, 0, 0, 0, 0]);
    let batch = decoded_batch(&bytes).expect("a list of bytes reads as transforms");
    assert_eq!(batch.transforms, vec![Transform::default(); 3]);

    assert!(decoded_batch(&batch_frame(1, 3, &[0; 8])).is_none(), "a bit list is refused");
    assert!(decoded_batch(&batch_frame(5, 3, &[0; 16])).is_none(), "the list overruns the segment");
}

/// A serialized message of the given segments, each a whole number of words.
fn frame_of_segments(segments: &[Vec<u8>]) -> Vec<u8> {
    let mut frame = Vec::new();
    frame.extend_from_slice(&(segments.len() as u32 - 1).to_le_bytes());
    for segment in segments {
        frame.extend_from_slice(&(segment.len() as u32 / 8).to_le_bytes());
    }
    if segments.len() % 2 == 0 {
        frame.extend_from_slice(&[0; 4]);
    }
    for segment in segments {
        frame.extend_from_slice(segment);
    }
    frame
}

fn word(lo: u32, hi: u32) -> Vec<u8> {
    let mut w = lo.to_le_bytes().to_vec();
    w.extend_from_slice(&hi.to_le_bytes());
    w
}

fn input_data() -> Vec<u8> {
    let mut data = word(0x0102_0304, 1.0f32.to_bits());
    data.extend(word((-2.5f32).to_bits(), 1));
    data.extend(word(0.25f32.to_bits(), 0));
    data
}

fn decoded_input(frame: &[u8]) -> Option<Input> {
    match decode::<Input>(Format::Capnp, frame)? {
        Decoded::Capnp(input) => Some(input),
        _ => panic!("a Cap'n Proto frame decodes as Cap'n Proto"),
    }
}

#[test]
fn messages_of_several_segments_and_far_pointers_are_read() {
    // The root struct lies wholly in the first of two segments.
    let mut first = word(0, 3);
    first.extend(input_data());
    let two = frame_of_segments(&[first, word(7, 7)]);
    assert_eq!(decoded_input(&two), Some(input()));

    // The root pointer is a far pointer to a landing pad in the second segment.
    let mut second = word(0, 3);
    second.extend(input_data());
    let far = frame_of_segments(&[word(2, 1), second]);
    assert_eq!(decoded_input(&far), Some(input()));

    // A double landing pad: a far pointer to the struct's words in the third
    // segment, then a tag that gives its sizes.
    let mut pad = word(2, 2);
    pad.extend(word(0, 3));
    let double = frame_of_segments(&[word(6, 1), pad, input_data()]);
    assert_eq!(decoded_input(&double), Some(input()));

    // A far pointer to a segment that is not there, or past its end.
    assert_eq!(decoded_input(&frame_of_segments(&[word(2, 2), word(0, 0)])), None);
    assert_eq!(decoded_input(&frame_of_segments(&[word(2 | (1 << 3), 1), word(0, 3)])), None);

    // A batch whose list lies in a second segment, behind a far pointer.
    let mut root = word(0, 1 | (1 << 16));
    root.extend(word(7, 0));
    root.extend(word(2, 1));
    let mut list = word(1, 7 | (8 << 3));
    list.extend(word(2 << 2, 4));
    for id in [11u32, 12] {
        list.extend(word(id, 3));
        list.extend([0; 24]);
    }
    let batch = decoded_batch(&frame_of_segments(&[root, list])).expect("the batch is read");
    assert_eq!(batch.sequence, 7);
    let ids: Vec<(u32, u8)> = batch.transforms.iter().map(|t| (t.entity_id, t.kind)).collect();
    assert_eq!(ids, vec![(11, 3), (12, 3)]);
}

fn numbered_batch(count: u32) -> TransformBatch {
    let transforms = (1..=count)
        .map(|id| Transform {
            entity_id: id,
            kind: 1,
            color: 2,
            position_x: 3,
            position_y: 4,
            position_z: 5,
            yaw: 6,
            pitch: 7,
        })
        .collect();
    TransformBatch { sequence: 9, transforms }
}

#[test]
fn a_batch_that_outgrows_the_first_segment_takes_a_second_one() {
    let mut encoder = Encoder::default();
    let fits = Sample::new("batch", "t", numbered_batch(2047));
    let bytes = encoder.encode(Format::Capnp, &fits).to_vec();
    assert_eq!(bytes.len(), 40 + 32 * 2047);
    assert_eq!(&bytes[0..8], &[0, 0, 0, 0, 0x00, 0x20, 0, 0]);

    let spills = Sample::new("batch", "t", numbered_batch(3000));
    let bytes = encoder.encode(Format::Capnp, &spills).to_vec();
    assert_eq!(bytes.len(), 56 + 32 * 3000);
    let table: Vec<u32> = bytes[0..16].chunks(4).map(|c| u32::from_le_bytes(c.try_into().unwrap())).collect();
    assert_eq!(table, vec![1, 3, 2 + 4 * 3000, 0]);
    match decode::<TransformBatch>(Format::Capnp, &bytes) {
        Some(decoded) => assert!(decoded.matches(&spills)),
        None => panic!("a two-segment batch decodes"),
    }

    // The capnp crate reads the two segments and the far pointer alike.
    let message =
        capnp::serialize::read_message_from_flat_slice(&mut &bytes[..], capnp::message::ReaderOptions::new())
            .expect("capnp reads the message");
    let canonical = message.canonicalize().expect("capnp canonicalizes the message");
    assert_eq!(canonical.len(), 4 + 4 * 3000);

    // Its canonical form does not fit one segment of the encoder.
    assert!(!canonical_fits_check(&spills.fomoxa));
    assert!(encoder.try_encode(Format::CapnpCanonical, &spills).is_none());
    assert!(canonical_fits_check(&fits.fomoxa));
    assert!(encoder.try_encode(Format::CapnpCanonical, &fits).is_some());
}

#[test]
fn long_chat_text_takes_a_second_segment() {
    let text = "x".repeat(70_000);
    let chat = Sample::new("chat", "t", Chat { sender_id: 1, channel: 2, sent_at_millis: 3, text });
    let mut encoder = Encoder::default();
    let bytes = encoder.encode(Format::Capnp, &chat).to_vec();
    let text_words = (70_000 + 8) / 8;
    assert_eq!(bytes.len(), 56 + 8 * text_words);
    match decode::<Chat>(Format::Capnp, &bytes) {
        Some(decoded) => assert!(decoded.matches(&chat)),
        None => panic!("a two-segment chat decodes"),
    }
}

#[test]
fn reading_is_charged_to_the_traversal_limit() {
    // A batch whose list holds `count` empty structs: each is charged as one
    // word read, after the root pointer, the root struct and the list's tag.
    let empty_structs = |count: u32| {
        let mut segment = word(0, 1 | (1 << 16));
        segment.extend(word(7, 0));
        segment.extend(word(1, 7));
        segment.extend(word(count << 2, 0));
        frame_of_segments(&[segment])
    };
    let batch = decoded_batch(&empty_structs(10)).expect("a few empty structs are read");
    assert_eq!(batch.transforms, vec![Transform::default(); 10]);
    assert!(decoded_batch(&empty_structs(8_388_605)).is_none());
}

#[test]
fn the_echo_step_gives_each_request_back() {
    let sample = Sample::new("input", "t", input());
    for format in [Format::Fomoxa, Format::Capnp, Format::CapnpCanonical] {
        let mut client = Encoder::default();
        let request = client.encode(format, &sample).to_vec();
        let mut server = Encoder::default();
        assert_eq!(server.reply::<Input>(format, &request), Some(&request[..]), "{format:?}");
    }
    let mut server = Encoder::default();
    assert_eq!(server.reply::<Input>(Format::Fomoxa, &[1, 2, 3]), None);
    assert_eq!(server.reply::<Input>(Format::Capnp, &[0, 0, 0, 0]), None);
    assert_eq!(server.reply::<Input>(Format::CapnpCanonical, &[0; 12]), None);
}

#[test]
fn segment_tables_are_checked_before_reading() {
    let mut root = word(0, 3);
    root.extend(input_data());

    // Bytes after the message are not read; three segments need no padding.
    let mut trailing = frame_of_segments(&[root.clone()]);
    trailing.extend([0xff; 5]);
    assert_eq!(decoded_input(&trailing), Some(input()));
    let three = frame_of_segments(&[root.clone(), word(1, 1), word(2, 2)]);
    assert_eq!(three.len(), 16 + 32 + 16);
    assert_eq!(decoded_input(&three), Some(input()));

    // A table of 512 segments, a segment cut short, a table cut short.
    let mut many = 511u32.to_le_bytes().to_vec();
    many.extend(vec![0; 4 * 512 + 4]);
    assert_eq!(decoded_input(&many), None);
    let full = frame_of_segments(&[root]);
    assert_eq!(decoded_input(&full[..full.len() - 1]), None);
    assert_eq!(decoded_input(&full[..6]), None);
}

#[test]
fn sequence_numbers_are_seven_digits_from_the_next_draw() {
    let mut a = Rng::new(7);
    let mut b = Rng::new(7);
    for _ in 0..100 {
        let n = a.sequence_number();
        assert_eq!(n, 1_000_000 + b.next_u32() % 1_000_000);
        assert!((1_000_000..2_000_000).contains(&n));
    }
}
