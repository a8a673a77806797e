use hackdose_sml_parser::domain::{
    AnyValue, GetOpenResponseBody, Scale, SmlListEntry, SmlMessageEnvelope, SmlMessages,
    GetListResponseBody,
};
use hackdose_sml_parser::message_stream::feed_chunk;
use hackdose_sml_parser::obis::Obis;
use hackdose_sml_parser::transport::SMLMessageBuilder;

fn open_frame() -> Vec<u8> {
    vec![
        0x1B, 0x1B, 0x1B, 0x1B, 0x01, 0x01, 0x01, 0x01, 0x76, 0x05, 0x03, 0x2B, 0x18, 0x0F, 0x62,
        0x00, 0x62, 0x00, 0x72, 0x63, 0x01, 0x01, 0x76, 0x01, 0x01, 0x05, 0x04, 0x03, 0x02, 0x01,
        0x0B, 0x01, 0x02, 0x03, 0x04, 0x05, 0x06, 0x07, 0x08, 0x09, 0x0A, 0x01, 0x01, 0x63, 0x49,
        0x00, 0x00, 0x1B, 0x1B, 0x1B, 0x1B, 0x1A, 0x00, 0x70, 0xB2,
    ]
}

fn close_frame() -> Vec<u8> {
    vec![
        0x1B, 0x1B, 0x1B, 0x1B, 0x01, 0x01, 0x01, 0x01, 0x76, 0x05, 0x03, 0x2B, 0x18, 0x11, 0x62,
        0x00, 0x62, 0x00, 0x72, 0x63, 0x02, 0x01, 0x71, 0x01, 0x63, 0xFA, 0x36, 0x00, 0x1B, 0x1B,
        0x1B, 0x1B, 0x1A, 0x00, 0x70, 0xB2,
    ]
}

fn open_messages() -> SmlMessages {
    SmlMessages {
        messages: vec![SmlMessageEnvelope::GetOpenResponse(GetOpenResponseBody {
            server_id: vec![0x01, 0x02, 0x03, 0x04, 0x05, 0x06, 0x07, 0x08, 0x09, 0x0A],
            req_file_id: vec![0x04, 0x03, 0x02, 0x01],
        })],
    }
}

fn close_messages() -> SmlMessages {
    SmlMessages { messages: vec![SmlMessageEnvelope::GetCloseResponse] }
}

fn feed_in_chunks(bytes: &[u8], size: usize) -> Vec<SmlMessages> {
    let mut builder = SMLMessageBuilder::Empty;
    let mut out = Vec::new();
    for chunk in bytes.chunks(size) {
        out.extend(feed_chunk(&mut builder, chunk));
    }
    out
}

#[test]
fn open_response_round_trip() {
    assert_eq!(feed_in_chunks(&open_frame(), 512), vec![open_messages()]);
}

#[test]
fn close_response_frame() {
    assert_eq!(feed_in_chunks(&close_frame(), 512), vec![close_messages()]);
}

#[test]
fn list_response_two_entries() {
    let body = vec![
        0x76, 0x05, 0x01, 0xD3, 0xD7, 0xBB, 0x62, 0x00, 0x62, 0x00, 0x72, 0x63, 0x07, 0x01, 0x77,
        0x01, 0x0B, 0x01, 0x02, 0x03, 0x04, 0x05, 0x06, 0x07, 0x08, 0x09, 0x0A, 0x07, 0x01, 0x00,
        0x62, 0x0A, 0xFF, 0xFF, 0x72, 0x62, 0x01, 0x65, 0x01, 0x8A, 0x4D, 0x15, 0x72, 0x77, 0x07,
        0x81, 0x81, 0xC7, 0x82, 0x03, 0xFF, 0x01, 0x01, 0x01, 0x01, 0x04, 0x49, 0x53, 0x4B, 0x01,
        0x77, 0x07, 0x01, 0x00, 0x01, 0x08, 0x00, 0xFF, 0x65, 0x00, 0x00, 0x01, 0x82, 0x01, 0x62,
        0x1E, 0x52, 0xFF, 0x59, 0x00, 0x00, 0x00, 0x00, 0x00, 0x00, 0x00, 0x00, 0x01, 0x01, 0x01,
        0x63, 0xC6, 0x12, 0x00,
    ];
    let mut frame = vec![0x1B, 0x1B, 0x1B, 0x1B, 0x01, 0x01, 0x01, 0x01];
    frame.extend_from_slice(&body);
    frame.extend_from_slice(&[0x1B, 0x1B, 0x1B, 0x1B, 0x1A, 0x01, 0x02, 0x03]);
    let expected = SmlMessages {
        messages: vec![SmlMessageEnvelope::GetListResponse(GetListResponseBody {
            server_id: vec![1, 2, 3, 4, 5, 6, 7, 8, 9, 10],
            list_name: vec![0x01, 0x00, 0x62, 0x0A, 0xFF, 0xFF],
            value_list: vec![
                SmlListEntry {
                    object_name: vec![0x81, 0x81, 0xC7, 0x82, 0x03, 0xFF],
                    status: None,
                    value_time: vec![],
                    unit: None,
                    scaler: None,
                    value: AnyValue::String(b"ISK".to_vec()),
                },
                SmlListEntry {
                    object_name: Obis::PositiveActiveEnergy.obis_number(),
                    status: Some(386),
                    value_time: vec![],
                    unit: Some(30),
                    scaler: Some(-1),
                    value: AnyValue::Signed(0),
                },
            ],
        })],
    };
    assert_eq!(feed_in_chunks(&frame, 512), vec![expected]);
}

#[test]
fn byte_at_a_time_gives_same_output() {
    let whole = feed_in_chunks(&open_frame(), 512);
    assert_eq!(feed_in_chunks(&open_frame(), 1), whole);
    for size in 2..open_frame().len() {
        assert_eq!(feed_in_chunks(&open_frame(), size), whole);
    }
}

#[test]
fn leading_noise_is_ignored() {
    let mut bytes = vec![0x7B, 0xFF, 0x00];
    bytes.extend(open_frame());
    assert_eq!(feed_in_chunks(&bytes, 512), feed_in_chunks(&open_frame(), 512));
    assert_eq!(feed_in_chunks(&bytes, 512), vec![open_messages()]);
}

#[test]
fn two_concatenated_frames() {
    let mut bytes = open_frame();
    bytes.extend(close_frame());
    assert_eq!(feed_in_chunks(&bytes, 512), vec![open_messages(), close_messages()]);
    assert_eq!(feed_in_chunks(&bytes, 3), vec![open_messages(), close_messages()]);
}

#[test]
fn noise_between_frames_is_ignored() {
    let mut bytes = open_frame();
    bytes.extend([0x00, 0x42, 0x1A, 0x01, 0x01]);
    bytes.extend(close_frame());
    assert_eq!(feed_in_chunks(&bytes, 7), vec![open_messages(), close_messages()]);
}

#[test]
fn unparsable_frame_is_dropped() {
    let mut bytes = vec![0x1B, 0x1B, 0x1B, 0x1B, 0x01, 0x01, 0x01, 0x01, 0x42, 0x1B, 0x1B, 0x1B,
        0x1B, 0x1A, 0x00, 0x00, 0x00];
    bytes.extend(close_frame());
    let mut builder = SMLMessageBuilder::Empty;
    assert_eq!(feed_chunk(&mut builder, &bytes), vec![close_messages()]);
    assert_eq!(builder, SMLMessageBuilder::Empty);
}

#[test]
fn start_completed_across_chunks() {
    let mut builder = SMLMessageBuilder::Empty;
    assert!(feed_chunk(&mut builder, &[0x00, 0x1B, 0x1B, 0x1B]).is_empty());
    assert_eq!(builder, SMLMessageBuilder::IncompleteStartSignature(3));
    assert!(feed_chunk(&mut builder, &[0x1B, 0x01, 0x01]).is_empty());
    assert_eq!(builder, SMLMessageBuilder::IncompleteStartSignature(6));
    assert!(feed_chunk(&mut builder, &[0x01]).is_empty());
    assert_eq!(builder, SMLMessageBuilder::IncompleteStartSignature(7));
    assert!(feed_chunk(&mut builder, &[0x01]).is_empty());
    assert_eq!(builder, SMLMessageBuilder::Recording(vec![]));
}

#[test]
fn broken_start_restarts_match() {
    let mut builder = SMLMessageBuilder::Empty;
    builder.record(&[0x1B, 0x1B]);
    builder.record(&[0x77, 0x1B]);
    assert_eq!(builder, SMLMessageBuilder::IncompleteStartSignature(1));
    builder.record(&[0x1B, 0x1B, 0x1B, 0x1B]);
    assert_eq!(builder, SMLMessageBuilder::IncompleteStartSignature(4));
}

#[test]
fn complete_builder_ignores_input() {
    let mut builder = SMLMessageBuilder::Complete { data: vec![1], rest: vec![2] };
    builder.record(&[0x1B, 0x1B]);
    assert_eq!(builder, SMLMessageBuilder::Complete { data: vec![1], rest: vec![2] });
}

#[test]
fn scale_examples() {
    assert_eq!(AnyValue::Unsigned(100).scale(-2), AnyValue::Unsigned(1));
    assert_eq!(AnyValue::Signed(-250).scale(-1), AnyValue::Signed(-25));
    assert_eq!(AnyValue::String(vec![1, 2]).scale(3), AnyValue::String(vec![1, 2]));
    assert_eq!(AnyValue::String(vec![1, 2]).scale(-3), AnyValue::String(vec![1, 2]));
    assert_eq!(AnyValue::Unsigned(7).scale(3), AnyValue::Unsigned(7000));
    assert_eq!(AnyValue::Signed(-7).scale(2), AnyValue::Signed(-700));
    assert_eq!(AnyValue::Signed(-259).scale(-1), AnyValue::Signed(-25));
    assert_eq!(AnyValue::Unsigned(123).scale(0), AnyValue::Unsigned(123));
    assert_eq!(AnyValue::Unsigned(5).scale(-100), AnyValue::Unsigned(0));
    assert_eq!(AnyValue::Unsigned(u64::MAX).scale(1), AnyValue::Unsigned(u64::MAX));
    assert_eq!(AnyValue::Signed(i64::MIN).scale(1), AnyValue::Signed(i64::MIN));
    assert_eq!(AnyValue::Signed(i64::MAX).scale(2), AnyValue::Signed(i64::MAX));
    assert_eq!(AnyValue::Signed(i64::MIN).scale(-1), AnyValue::Signed(i64::MIN / 10));
}

#[test]
fn obis_numbers() {
    assert_eq!(Obis::SumActiveInstantaneousPower.obis_number(), vec![1, 0, 16, 7, 0, 255]);
    assert_eq!(Obis::PositiveActiveEnergy.obis_number(), vec![1, 0, 1, 8, 0, 255]);
    assert_eq!(Obis::PositiveActiveEnergyTarif1.obis_number(), vec![1, 0, 1, 8, 1, 255]);
    assert_eq!(Obis::NegativeActiveEnergyTotal.obis_number(), vec![1, 0, 2, 8, 0, 255]);
}
