use hackdose_sml_parser::transport::SMLMessageBuilder;

#[test]
fn extends_if_start_of_sequence_is_found() {
    let buf = vec![0x1b];
    let mut rec = SMLMessageBuilder::Empty;

    rec.record(&buf);
    assert_eq!(rec, SMLMessageBuilder::IncompleteStartSignature(1));
}

#[test]
fn extends_if_start_of_sequence_is_found_anywhere() {
    let buf = vec![0xbb, 0x1b];
    let mut rec = SMLMessageBuilder::Empty;

    rec.record(&buf);
    assert_eq!(rec, SMLMessageBuilder::IncompleteStartSignature(1));
}

#[test]
fn extends_more_if_bigger_portion_of_sequence_is_found() {
    let buf = vec![0x1b, 0x1b];
    let mut rec = SMLMessageBuilder::Empty;

    rec.record(&buf);
    assert_eq!(rec, SMLMessageBuilder::IncompleteStartSignature(2));
}

#[test]
fn extends_more_if_even_bigger_portion_of_sequence_is_found() {
    let buf = vec![0x1b, 0x1b, 0x1b];
    let mut rec = SMLMessageBuilder::Empty;

    rec.record(&buf);
    assert_eq!(rec, SMLMessageBuilder::IncompleteStartSignature(3));
}

// incomplete occurences must be at the end

#[test]
fn incomplete_occurences_must_be_at_the_end() {
    let buf = vec![0x1b, 0x1b, 0x1b, 0x77];
    let mut rec = SMLMessageBuilder::Empty;

    rec.record(&buf);
    assert_eq!(rec, SMLMessageBuilder::Empty);
}

#[test]
fn finds_complete_sequence() {
    let buf = &[0x1b, 0x1b, 0x1b, 0x1b, 0x01, 0x01, 0x01, 0x01];

    let mut rec = SMLMessageBuilder::Empty;

    rec.record(buf);
    assert_eq!(rec, SMLMessageBuilder::Recording(vec![]));
}

#[test]
fn extends_existing_start_sequence() {
    let buf = &[0x1b, 0x1b];

    let mut rec = SMLMessageBuilder::Empty;

    rec.record(buf);
    rec.record(buf);
    assert_eq!(rec, SMLMessageBuilder::IncompleteStartSignature(4));
}

#[test]
fn returns_into_empty_if_start_signature_is_not_continued() {
    let buf = &[0x1b, 0x1b];

    let mut rec = SMLMessageBuilder::Empty;

    rec.record(buf);

    let buf = &[0x1b, 0x1a];

    rec.record(buf);
    assert_eq!(rec, SMLMessageBuilder::Empty);
}

#[test]
fn leaves_unchanged_if_empty_buffer_is_recorded() {
    let buf = &[0x1b, 0x1b];

    let mut rec = SMLMessageBuilder::Empty;

    rec.record(buf);

    let buf: &[u8] = &[];

    rec.record(buf);
    assert_eq!(rec, SMLMessageBuilder::IncompleteStartSignature(2));
}

#[test]
fn finds_complete_sequence_in_two_parts() {
    let buf = &[0x1b, 0x1b, 0x1b, 0x1b];
    let buf2 = &[0x01, 0x01, 0x01, 0x01];

    let mut rec = SMLMessageBuilder::Empty;

    rec.record(buf);
    rec.record(buf2);
    assert_eq!(rec, SMLMessageBuilder::Recording(vec![]));
}

#[test]
fn puts_buffer_into_recorder() {
    let buf = &[0x1b, 0x1b, 0x1b, 0x1b, 0x01, 0x01, 0x01, 0x01, 0x42, 0x43];

    let mut rec = SMLMessageBuilder::Empty;

    rec.record(buf);
    assert_eq!(rec, SMLMessageBuilder::Recording(vec![0x42, 0x43]));
}

#[test]
fn extends_buffer_when_recording() {
    let buf = &[0x42, 0x43];

    let mut rec = SMLMessageBuilder::Recording(vec![]);

    rec.record(buf);
    assert_eq!(rec, SMLMessageBuilder::Recording(vec![0x42, 0x43]));
}

#[test]
fn extends_recording_buffer() {
    let buf = &[0x44, 0x45];

    let mut rec = SMLMessageBuilder::Recording(vec![0x42, 0x43]);

    rec.record(buf);
    assert_eq!(
        rec,
        SMLMessageBuilder::Recording(vec![0x42, 0x43, 0x44, 0x45])
    );
}

#[test]
fn puts_into_ended_state() {
    let buf = &[0x1b, 0x1b, 0x1b, 0x1b, 0x1a, 0x00, 0x01, 0x02, 0x03];

    let mut rec = SMLMessageBuilder::Recording(vec![0x42, 0x43]);

    rec.record(buf);
    assert_eq!(
        rec,
        SMLMessageBuilder::Complete {
            data: vec![0x42, 0x43],
            rest: vec![0x03]
        }
    );
}

#[test]
fn keeps_rest() {
    let buf = &[0x1b, 0x1b, 0x1b, 0x1b, 0x1a, 0x00, 0x01, 0x02, 0x03];

    let mut rec = SMLMessageBuilder::Recording(vec![0x42, 0x43]);

    rec.record(buf);
    assert_eq!(
        rec,
        SMLMessageBuilder::Complete {
            data: vec![0x42, 0x43],
            rest: vec![0x03]
        }
    );
}

#[test]
fn accepts_end_signature_in_two_parts() {
    let buf = &[0x1b, 0x1b, 0x1b, 0x1b];

    let mut rec = SMLMessageBuilder::Recording(vec![0x42, 0x43]);

    rec.record(buf);
    let buf = &[0x1a, 0x00, 0x01, 0x02, 0x03];
    rec.record(buf);

    assert_eq!(
        rec,
        SMLMessageBuilder::Complete {
            data: vec![0x42, 0x43],
            rest: vec![0x03]
        }
    );
}

#[test]
fn perform_recording_and_finishing_in_one_step() {
    let buf = &[
        0x1b, 0x1b, 0x1b, 0x1b, 0x01, 0x01, 0x01, 0x01, 0x42, 0x43, 0x1b, 0x1b, 0x1b, 0x1b,
        0x1a, 0x00, 0x01, 0x02,
    ];

    let mut rec = SMLMessageBuilder::Empty;

    rec.record(buf);

    assert_eq!(
        rec,
        SMLMessageBuilder::Complete {
            data: vec![0x42, 0x43],
            rest: vec![]
        }
    );
}

#[test]
fn ignores_data_between_end_and_start() {
    let buf = &[
        0x7b, 0x1b, 0x1b, 0x1b, 0x1b, 0x01, 0x01, 0x01, 0x01, 0x42, 0x43, 0x1b, 0x1b, 0x1b,
        0x1b, 0x1a, 0x00, 0x01, 0x02,
    ];

    let mut rec = SMLMessageBuilder::Empty;

    rec.record(buf);

    assert_eq!(
        rec,
        SMLMessageBuilder::Complete {
            data: vec![0x42, 0x43],
            rest: vec![]
        }
    );
}

#[test]
fn takes_first_of_two_messages() {
    let buf = &[
        0x1b, 0x1b, 0x1b, 0x1b, 0x01, 0x01, 0x01, 0x01, 0x42, 0x43, 0x1b, 0x1b, 0x1b, 0x1b,
        0x1a, 0x00, 0x01, 0x02, 0x1b, 0x1b, 0x1b, 0x1b, 0x01, 0x01, 0x01, 0x01, 0x43, 0x1b,
        0x1b, 0x1b, 0x1b, 0x1a, 0x00, 0x02, 0x01,
    ];

    let mut rec = SMLMessageBuilder::Empty;

    rec.record(buf);

    assert_eq!(
        rec,
        SMLMessageBuilder::Complete {
            data: vec![0x42, 0x43],
            rest: vec![
                0x1b, 0x1b, 0x1b, 0x1b, 0x01, 0x01, 0x01, 0x01, 0x43, 0x1b, 0x1b, 0x1b, 0x1b,
                0x1a, 0x00, 0x02, 0x01
            ]
        }
    );
}
