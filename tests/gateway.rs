use std::time::Duration;

use dq_gateway::{
    calculate_crc, decode_frame, encode_packet, retry_delay_ms, AVLData, AVLPacket, GPSElement,
    GateError, IOElement, IOElement16, IOElement8, IOElement8Extended, Parser,
    ProcessingPipeline, ProtocolAction, ProtocolEvent, ProtocolState, StateMachine,
    SMALLEST_AVL_SIZE,
};

fn create_mock_avl_packet(data_count: u8) -> AVLPacket {
    let mut avl_data = Vec::with_capacity(data_count as usize);
    for i in 0..data_count {
        let gps = GPSElement {
            longitude: 25_00000,
            latitude: 54_00000,
            altitude: 100,
            angle: 90,
            satellites: 8,
            speed: 50,
        };
        let io = IOElement::Codec8(IOElement8 {
            event_io_id: 1,
            n_total_io: 1,
            n1_of_one_byte: 1,
            one_byte_ios: vec![(1, i)],
            n2_of_two_bytes: 0,
            two_byte_ios: vec![],
            n4_of_four_bytes: 0,
            four_byte_ios: vec![],
            n8_of_eight_bytes: 0,
            eight_byte_ios: vec![],
        });
        avl_data.push(AVLData {
            timestamp: 1644238347000 + (i as u64 * 1000),
            priority: 1,
            gps,
            io,
        });
    }
    AVLPacket {
        preamble: 0x00000000,
        data_length: 0,
        codec_id: 0x08,
        number_of_data1: data_count,
        avl_data,
        number_of_data2: data_count,
        crc16: 0,
    }
}

/// The packet with its length and checksum fields set as its frame carries them.
fn with_frame_fields(mut packet: AVLPacket, frame: &[u8]) -> AVLPacket {
    let n = frame.len();
    packet.data_length = (n - 12) as u32;
    packet.crc16 = calculate_crc(&frame[8..n - 4]);
    packet
}

fn parse_all(bytes: &[u8]) -> Result<Option<AVLPacket>, GateError> {
    let mut parser = Parser::new();
    parser.parse_stream(bytes)
}

fn ready_machine(timeout_ms: u64) -> StateMachine {
    let mut sm = StateMachine::new(timeout_ms);
    sm.handle_event(ProtocolEvent::Connect, 0);
    sm.handle_event(
        ProtocolEvent::Authenticate("123456789".to_string(), "".to_string()),
        0,
    );
    sm.handle_event(ProtocolEvent::AuthSuccess, 0);
    sm
}

fn packet_with_crc(crc: u32) -> AVLPacket {
    let mut p = create_mock_avl_packet(1);
    p.crc16 = crc;
    p
}

#[test]
fn test_full_connection_flow() {
    let mut state_machine = StateMachine::new(5000);
    let mut pipeline = ProcessingPipeline::new(10);

    let result = state_machine.handle_event(ProtocolEvent::Connect, 0);
    assert_eq!(result.state, ProtocolState::Connected);

    let result = state_machine.handle_event(
        ProtocolEvent::Authenticate("123456789".to_string(), "".to_string()),
        0,
    );
    assert_eq!(result.state, ProtocolState::Authenticating);

    let result = state_machine.handle_event(ProtocolEvent::AuthSuccess, 0);
    assert_eq!(result.state, ProtocolState::Ready);

    let test_packet = create_mock_avl_packet(2);
    assert!(pipeline.process_incoming(test_packet.clone(), None).is_ok());

    let (incoming, outgoing) = pipeline.queue_stats();
    assert!(incoming > 0 || outgoing > 0, "Packet should be queued");
}

#[test]
fn test_packet_serialization_and_parsing() {
    let original_packet = create_mock_avl_packet(2);
    let serialized_data = encode_packet(&original_packet);

    let mut parser = Parser::new();
    let parsed_result = parser.parse_stream(&serialized_data);
    assert!(parsed_result.is_ok());

    let parsed_packet = parsed_result.unwrap().unwrap();
    assert_eq!(parsed_packet.codec_id, original_packet.codec_id);
    assert_eq!(parsed_packet.number_of_data1, original_packet.number_of_data1);
    assert_eq!(parsed_packet.number_of_data2, original_packet.number_of_data2);
    assert_eq!(parsed_packet.avl_data.len(), original_packet.avl_data.len());

    for (original_data, parsed_data) in original_packet
        .avl_data
        .iter()
        .zip(parsed_packet.avl_data.iter())
    {
        assert_eq!(parsed_data.timestamp, original_data.timestamp);
        assert_eq!(parsed_data.priority, original_data.priority);
        assert_eq!(parsed_data.gps.longitude, original_data.gps.longitude);
        assert_eq!(parsed_data.gps.latitude, original_data.gps.latitude);
        assert_eq!(parsed_data.gps.altitude, original_data.gps.altitude);
        assert_eq!(parsed_data.gps.angle, original_data.gps.angle);
        assert_eq!(parsed_data.gps.satellites, original_data.gps.satellites);
        assert_eq!(parsed_data.gps.speed, original_data.gps.speed);
        match (&original_data.io, &parsed_data.io) {
            (IOElement::Codec8(original_io), IOElement::Codec8(parsed_io)) => {
                assert_eq!(parsed_io.event_io_id, original_io.event_io_id);
                assert_eq!(parsed_io.n_total_io, original_io.n_total_io);
                assert_eq!(parsed_io.n1_of_one_byte, original_io.n1_of_one_byte);
                assert_eq!(parsed_io.one_byte_ios, original_io.one_byte_ios);
                assert_eq!(parsed_io.n2_of_two_bytes, original_io.n2_of_two_bytes);
                assert_eq!(parsed_io.two_byte_ios, original_io.two_byte_ios);
                assert_eq!(parsed_io.n4_of_four_bytes, original_io.n4_of_four_bytes);
                assert_eq!(parsed_io.four_byte_ios, original_io.four_byte_ios);
                assert_eq!(parsed_io.n8_of_eight_bytes, original_io.n8_of_eight_bytes);
                assert_eq!(parsed_io.eight_byte_ios, original_io.eight_byte_ios);
            }
            _ => panic!("Unexpected IO element type in parsed packet"),
        }
    }
}

#[test]
fn test_error_handling() {
    let mut state_machine = StateMachine::new(1000);

    // A timeout fails the session; with nothing pending it asks for nothing.
    let result = state_machine.handle_event(ProtocolEvent::Timeout, 0);
    assert_eq!(result.state, ProtocolState::Error);
    assert!(result.actions.is_empty());

    let result = state_machine.handle_event(ProtocolEvent::InvalidPacket, 0);
    assert_eq!(result.state, ProtocolState::Error);
    assert!(result
        .actions
        .iter()
        .any(|action| matches!(action, ProtocolAction::DisconnectClient)));

    let result = state_machine.handle_event(ProtocolEvent::ConnectionLost, 0);
    assert_eq!(result.state, ProtocolState::Disconnected);
    assert!(result
        .actions
        .iter()
        .any(|action| matches!(action, ProtocolAction::ResetConnection)));
}

#[test]
fn test_pipeline_processing() {
    let mut pipeline = ProcessingPipeline::new(2);

    let mut packet1 = create_mock_avl_packet(1);
    packet1.avl_data[0].priority = 1;
    let mut packet2 = create_mock_avl_packet(1);
    packet2.avl_data[0].priority = 8;

    pipeline.process_incoming(packet1.clone(), None).unwrap();
    pipeline.process_incoming(packet2.clone(), None).unwrap();

    let (incoming, outgoing) = pipeline.queue_stats();
    assert_eq!(incoming + outgoing, 2, "Both packets should be queued");

    let processed = pipeline.flush().unwrap();
    assert_eq!(processed.len(), 2, "All packets should be processed");
    assert_eq!(processed[0].avl_data[0].priority, 8);
    assert_eq!(processed[1].avl_data[0].priority, 1);
}

#[test]
fn test_extended_codec_handling() {
    let mut packet = create_mock_avl_packet(1);
    packet.codec_id = 0x8E;
    packet.avl_data[0].io = IOElement::Codec8Extended(IOElement8Extended {
        event_io_id: 0x1234,
        n_total_io: 1,
        n1_of_one_byte: 1,
        one_byte_ios: vec![(0x5678, 42)],
        n2_of_two_bytes: 0,
        two_byte_ios: vec![],
        n4_of_four_bytes: 0,
        four_byte_ios: vec![],
        n8_of_eight_bytes: 0,
        eight_byte_ios: vec![],
        nx_of_var_bytes: 1,
        var_byte_ios: vec![(0x9ABC, 3, vec![1, 2, 3])],
    });
    let serialized_data = encode_packet(&packet);

    let parsed_result = parse_all(&serialized_data);
    assert!(parsed_result.is_ok());
    let parsed_packet = parsed_result.unwrap().unwrap();
    assert_eq!(parsed_packet.codec_id, 0x8E);
    if let IOElement::Codec8Extended(io) = &parsed_packet.avl_data[0].io {
        assert_eq!(io.event_io_id, 0x1234);
        assert_eq!(io.n_total_io, 1);
        assert_eq!(io.one_byte_ios, vec![(0x5678, 42)]);
        assert_eq!(io.var_byte_ios, vec![(0x9ABC, 3, vec![1, 2, 3])]);
    } else {
        panic!("Expected Codec8Extended IO element");
    }
}

#[test]
fn test_codec_edge_cases() {
    let mut empty_io_packet = create_mock_avl_packet(1);
    empty_io_packet.avl_data[0].io = IOElement::Codec8(IOElement8 {
        event_io_id: 0,
        n_total_io: 0,
        n1_of_one_byte: 0,
        one_byte_ios: vec![],
        n2_of_two_bytes: 0,
        two_byte_ios: vec![],
        n4_of_four_bytes: 0,
        four_byte_ios: vec![],
        n8_of_eight_bytes: 0,
        eight_byte_ios: vec![],
    });
    let result = parse_all(&encode_packet(&empty_io_packet));
    assert!(result.is_ok());

    let mut max_io_packet = create_mock_avl_packet(1);
    max_io_packet.avl_data[0].io = IOElement::Codec8(IOElement8 {
        event_io_id: 0xFF,
        n_total_io: 0xFF,
        n1_of_one_byte: 0xFF,
        one_byte_ios: (0..0xFF).map(|i| (i as u8, i as u8)).collect(),
        n2_of_two_bytes: 0,
        two_byte_ios: vec![],
        n4_of_four_bytes: 0,
        four_byte_ios: vec![],
        n8_of_eight_bytes: 0,
        eight_byte_ios: vec![],
    });
    let result = parse_all(&encode_packet(&max_io_packet));
    assert!(result.is_ok());

    let mut invalid_codec_packet = create_mock_avl_packet(1);
    invalid_codec_packet.codec_id = 0xFF;
    let result = parse_all(&encode_packet(&invalid_codec_packet));
    assert!(result.is_err());

    let mut boundary_timestamp_packet = create_mock_avl_packet(1);
    boundary_timestamp_packet.avl_data[0].timestamp = 0;
    let result = parse_all(&encode_packet(&boundary_timestamp_packet));
    assert!(result.is_err());
}

#[test]
fn test_packet_size_limits() {
    let min_packet = create_mock_avl_packet(1);
    let min_serialized = encode_packet(&min_packet);
    assert!(
        min_serialized.len() >= SMALLEST_AVL_SIZE,
        "Minimum packet size should be at least {} bytes, got {}",
        SMALLEST_AVL_SIZE,
        min_serialized.len()
    );
    assert!(parse_all(&min_serialized).is_ok());

    let max_packet = create_mock_avl_packet(255);
    let max_serialized = encode_packet(&max_packet);
    let result = parse_all(&max_serialized);
    assert!(result.is_ok());
    assert_eq!(result.unwrap().unwrap().avl_data.len(), 255);
}

#[test]
fn round_trip_standard_equal_in_every_field() {
    let packet = create_mock_avl_packet(3);
    let frame = encode_packet(&packet);
    let expected = with_frame_fields(packet, &frame);
    let decoded = parse_all(&frame).unwrap().unwrap();
    assert_eq!(decoded, expected);
}

#[test]
fn round_trip_extended_equal_in_every_field() {
    let mut packet = create_mock_avl_packet(2);
    packet.codec_id = 0x8E;
    for (k, record) in packet.avl_data.iter_mut().enumerate() {
        record.io = IOElement::Codec8Extended(IOElement8Extended {
            event_io_id: 7,
            n_total_io: 5,
            n1_of_one_byte: 1,
            one_byte_ios: vec![(300, 9)],
            n2_of_two_bytes: 1,
            two_byte_ios: vec![(301, 0xBEEF)],
            n4_of_four_bytes: 1,
            four_byte_ios: vec![(302, 0xDEAD_BEEF)],
            n8_of_eight_bytes: 1,
            eight_byte_ios: vec![(303, 0x0102_0304_0506_0708)],
            nx_of_var_bytes: 2,
            var_byte_ios: vec![(304, 0, vec![]), (305, 2, vec![k as u8, 0xFF])],
        });
    }
    packet.avl_data[1].gps.longitude = -17_999_999;
    packet.avl_data[1].gps.altitude = -5;
    let frame = encode_packet(&packet);
    let expected = with_frame_fields(packet, &frame);
    let decoded = parse_all(&frame).unwrap().unwrap();
    assert_eq!(decoded, expected);
}

#[test]
fn frame_layout_is_big_endian_with_checksum_over_payload() {
    let packet = create_mock_avl_packet(1);
    let frame = encode_packet(&packet);
    assert_eq!(frame.len(), 47);
    assert_eq!(&frame[0..4], &[0, 0, 0, 0]);
    assert_eq!(&frame[4..8], &[0, 0, 0, 35]);
    assert_eq!(frame[8], 0x08);
    assert_eq!(frame[9], 1);
    assert_eq!(&frame[10..18], &1644238347000u64.to_be_bytes());
    assert_eq!(frame[18], 1);
    assert_eq!(&frame[19..23], &25_00000i32.to_be_bytes());
    assert_eq!(&frame[23..27], &54_00000i32.to_be_bytes());
    assert_eq!(&frame[34..39], &[1, 1, 1, 1, 0]);
    assert_eq!(frame[42], 1);
    let crc = calculate_crc(&frame[8..43]);
    assert_eq!(&frame[43..47], &crc.to_be_bytes());
}

#[test]
fn crc16_check_value() {
    assert_eq!(calculate_crc(b"123456789"), 0x4B37);
    assert_eq!(calculate_crc(&[]), 0xFFFF);
}

#[test]
fn fragmented_one_byte_at_a_time() {
    let packet = create_mock_avl_packet(2);
    let frame = encode_packet(&packet);
    let whole = parse_all(&frame).unwrap().unwrap();
    let mut parser = Parser::new();
    for (k, b) in frame.iter().enumerate() {
        let r = parser.parse_stream(&[*b]).unwrap();
        if k + 1 < frame.len() {
            assert!(r.is_none());
        } else {
            assert_eq!(r.unwrap(), whole);
        }
    }
}

#[test]
fn fragmented_in_uneven_chunks() {
    let packet = create_mock_avl_packet(4);
    let frame = encode_packet(&packet);
    let whole = parse_all(&frame).unwrap().unwrap();
    for size in [2usize, 3, 7, 50] {
        let mut parser = Parser::new();
        let mut got = None;
        for chunk in frame.chunks(size) {
            if let Some(p) = parser.parse_stream(chunk).unwrap() {
                got = Some(p);
            }
        }
        assert_eq!(got.unwrap(), whole);
    }
}

#[test]
fn two_frames_in_one_read_come_out_one_per_call() {
    let first = create_mock_avl_packet(1);
    let mut second = create_mock_avl_packet(2);
    second.avl_data[0].timestamp = 42;
    let mut bytes = encode_packet(&first);
    let second_frame = encode_packet(&second);
    bytes.extend_from_slice(&second_frame);

    let mut parser = Parser::new();
    let a = parser.parse_stream(&bytes).unwrap().unwrap();
    assert_eq!(a.avl_data.len(), 1);
    let b = parser.parse_stream(&[]).unwrap().unwrap();
    assert_eq!(b.avl_data.len(), 2);
    assert_eq!(b.avl_data[0].timestamp, 42);
    assert!(parser.parse_stream(&[]).unwrap().is_none());
}

#[test]
fn any_single_bit_flip_in_payload_is_rejected() {
    let packet = create_mock_avl_packet(1);
    let frame = encode_packet(&packet);
    let n = frame.len();
    for i in 8..n - 4 {
        for bit in 0..8 {
            let mut bad = frame.clone();
            bad[i] ^= 1u8 << bit;
            assert_eq!(parse_all(&bad), Err(GateError::MalformedFrame));
        }
    }
}

#[test]
fn checksum_mismatch_is_rejected() {
    let packet = create_mock_avl_packet(1);
    let mut frame = encode_packet(&packet);
    let n = frame.len();
    frame[n - 1] ^= 0x01;
    assert_eq!(parse_all(&frame), Err(GateError::MalformedFrame));
    let mut frame = encode_packet(&packet);
    frame[n - 4] = 0x01;
    assert_eq!(parse_all(&frame), Err(GateError::MalformedFrame));
}

fn frame_with_gps(longitude: i32, latitude: i32) -> Vec<u8> {
    let mut packet = create_mock_avl_packet(1);
    packet.avl_data[0].gps.longitude = longitude;
    packet.avl_data[0].gps.latitude = latitude;
    encode_packet(&packet)
}

#[test]
fn longitude_limits_inclusive() {
    assert!(parse_all(&frame_with_gps(180_00000, 0)).unwrap().is_some());
    assert!(parse_all(&frame_with_gps(-180_00000, 0)).unwrap().is_some());
    assert_eq!(
        parse_all(&frame_with_gps(180_00001, 0)),
        Err(GateError::MalformedFrame)
    );
    assert_eq!(
        parse_all(&frame_with_gps(-180_00001, 0)),
        Err(GateError::MalformedFrame)
    );
}

#[test]
fn latitude_limits_inclusive() {
    assert!(parse_all(&frame_with_gps(0, 90_00000)).unwrap().is_some());
    assert!(parse_all(&frame_with_gps(0, -90_00000)).unwrap().is_some());
    assert_eq!(
        parse_all(&frame_with_gps(0, 90_00001)),
        Err(GateError::MalformedFrame)
    );
    assert_eq!(
        parse_all(&frame_with_gps(0, -90_00001)),
        Err(GateError::MalformedFrame)
    );
}

#[test]
fn unsupported_record_set_identifiers_are_rejected() {
    for codec in [0xFFu8, 0x10, 0x0C, 0x00] {
        let mut packet = create_mock_avl_packet(1);
        packet.codec_id = codec;
        assert_eq!(
            parse_all(&encode_packet(&packet)),
            Err(GateError::MalformedFrame)
        );
        let mut empty = create_mock_avl_packet(0);
        empty.codec_id = codec;
        assert_eq!(
            parse_all(&encode_packet(&empty)),
            Err(GateError::MalformedFrame)
        );
    }
}

#[test]
fn third_shape_encodes_but_does_not_decode() {
    let mut packet = create_mock_avl_packet(1);
    packet.codec_id = 0x10;
    packet.avl_data[0].io = IOElement::Codec16(IOElement16 {
        event_io_id: 0x0102,
        generation_type: 3,
        n_total_io: 1,
        n1_of_one_byte: 1,
        one_byte_ios: vec![(0x0304, 5)],
        n2_of_two_bytes: 0,
        two_byte_ios: vec![],
        n4_of_four_bytes: 0,
        four_byte_ios: vec![],
        n8_of_eight_bytes: 0,
        eight_byte_ios: vec![],
    });
    let frame = encode_packet(&packet);
    // 8 header + 1 + 1 + 24 record head + (2 + 1 + 1 + 1 + 3 + 1 + 1 + 1) IO + 1 + 4
    assert_eq!(frame.len(), 8 + 1 + 1 + 24 + 11 + 1 + 4);
    assert_eq!(&frame[34..36], &[0x01, 0x02]);
    assert_eq!(parse_all(&frame), Err(GateError::MalformedFrame));
}

#[test]
fn zero_records_standard_frame_decodes() {
    let packet = create_mock_avl_packet(0);
    let frame = encode_packet(&packet);
    assert_eq!(frame.len(), 15);
    let decoded = parse_all(&frame).unwrap().unwrap();
    assert_eq!(decoded, with_frame_fields(packet, &frame));
}

#[test]
fn bad_preamble_is_rejected_and_buffer_discarded() {
    let mut parser = Parser::new();
    assert!(parser.parse_stream(&[0, 0]).unwrap().is_none());
    assert_eq!(
        parser.parse_stream(&[0, 1, 0, 0]),
        Err(GateError::MalformedFrame)
    );
    let frame = encode_packet(&create_mock_avl_packet(1));
    assert!(parser.parse_stream(&frame).unwrap().is_some());
}

#[test]
fn malformed_frame_drops_following_bytes_too() {
    let mut bad = create_mock_avl_packet(1);
    bad.avl_data[0].timestamp = 0;
    let mut bytes = encode_packet(&bad);
    bytes.extend_from_slice(&encode_packet(&create_mock_avl_packet(1)));
    let mut parser = Parser::new();
    assert_eq!(parser.parse_stream(&bytes), Err(GateError::MalformedFrame));
    assert!(parser.parse_stream(&[]).unwrap().is_none());
}

#[test]
fn record_count_mismatch_is_rejected() {
    let mut packet = create_mock_avl_packet(1);
    packet.number_of_data2 = 2;
    assert_eq!(
        parse_all(&encode_packet(&packet)),
        Err(GateError::MalformedFrame)
    );
}

#[test]
fn declared_length_longer_than_contents_is_rejected() {
    let packet = create_mock_avl_packet(1);
    let frame = encode_packet(&packet);
    let n = frame.len();
    // One extra payload byte before the trailing count, with the length and checksum fixed up.
    let mut payload = frame[8..n - 4].to_vec();
    payload.insert(payload.len() - 1, 0);
    let mut bytes = vec![0, 0, 0, 0];
    bytes.extend_from_slice(&(payload.len() as u32).to_be_bytes());
    bytes.extend_from_slice(&payload);
    bytes.extend_from_slice(&calculate_crc(&payload).to_be_bytes());
    assert_eq!(parse_all(&bytes), Err(GateError::MalformedFrame));
}

#[test]
fn variable_length_value_past_payload_is_rejected() {
    let mut packet = create_mock_avl_packet(1);
    packet.codec_id = 0x8E;
    packet.avl_data[0].io = IOElement::Codec8Extended(IOElement8Extended {
        event_io_id: 1,
        n_total_io: 1,
        n1_of_one_byte: 0,
        one_byte_ios: vec![],
        n2_of_two_bytes: 0,
        two_byte_ios: vec![],
        n4_of_four_bytes: 0,
        four_byte_ios: vec![],
        n8_of_eight_bytes: 0,
        eight_byte_ios: vec![],
        nx_of_var_bytes: 1,
        var_byte_ios: vec![(9, 200, vec![1, 2, 3])],
    });
    assert_eq!(
        parse_all(&encode_packet(&packet)),
        Err(GateError::MalformedFrame)
    );
}

#[test]
fn incomplete_frame_waits_for_more() {
    let frame = encode_packet(&create_mock_avl_packet(1));
    assert_eq!(decode_frame(&frame[..3]), Ok(None));
    assert_eq!(decode_frame(&frame[..8]), Ok(None));
    assert_eq!(decode_frame(&frame[..46]), Ok(None));
    let (p, span) = decode_frame(&frame).unwrap().unwrap();
    assert_eq!(span, 47);
    assert_eq!(p.avl_data.len(), 1);
}

#[test]
fn in_order_packet_advances_and_out_of_order_requests_earliest_missing() {
    let mut sm = ready_machine(1000);
    let r = sm.handle_event(ProtocolEvent::PacketReceived(packet_with_crc(1)), 10);
    assert_eq!(r.state, ProtocolState::Ready);
    assert_eq!(r.actions, vec![ProtocolAction::SendAcknowledgement(1)]);

    let r = sm.handle_event(ProtocolEvent::PacketReceived(packet_with_crc(5)), 20);
    assert_eq!(
        r.actions,
        vec![
            ProtocolAction::SendAcknowledgement(5),
            ProtocolAction::RequestRetransmission(2)
        ]
    );
    assert_eq!(sm.pending_count(), 2);

    // A repeated identifier is not tracked twice.
    sm.handle_event(ProtocolEvent::PacketReceived(packet_with_crc(5)), 30);
    assert_eq!(sm.pending_count(), 2);

    let r = sm.handle_event(ProtocolEvent::AcknowledgementReceived(5), 40);
    assert_eq!(r.state, ProtocolState::Ready);
    assert!(r.actions.is_empty());
    assert_eq!(sm.pending_count(), 1);
}

#[test]
fn timeout_retransmits_expired_entry_once() {
    let mut sm = ready_machine(100);
    sm.handle_event(ProtocolEvent::PacketReceived(packet_with_crc(1)), 0);
    sm.handle_event(ProtocolEvent::PacketReceived(packet_with_crc(2)), 50);

    let r = sm.handle_event(ProtocolEvent::Timeout, 101);
    assert_eq!(r.state, ProtocolState::Error);
    assert_eq!(r.actions, vec![ProtocolAction::RequestRetransmission(1)]);
    assert_eq!(sm.pending_count(), 1);

    let r = sm.handle_event(ProtocolEvent::Timeout, 151);
    assert_eq!(r.state, ProtocolState::Error);
    assert_eq!(r.actions, vec![ProtocolAction::RequestRetransmission(2)]);

    let r = sm.handle_event(ProtocolEvent::Timeout, 10_000);
    assert!(r.actions.is_empty());
}

#[test]
fn timeout_exactly_at_limit_keeps_entry() {
    let mut sm = ready_machine(100);
    sm.handle_event(ProtocolEvent::PacketReceived(packet_with_crc(1)), 0);
    let r = sm.handle_event(ProtocolEvent::Timeout, 100);
    assert!(r.actions.is_empty());
    assert_eq!(sm.pending_count(), 1);
}

#[test]
fn error_state_rejects_everything_but_connection_loss() {
    let events = vec![
        ProtocolEvent::Connect,
        ProtocolEvent::Disconnect,
        ProtocolEvent::AuthSuccess,
        ProtocolEvent::AuthFailure,
        ProtocolEvent::PacketSent(3),
        ProtocolEvent::AcknowledgementReceived(3),
        ProtocolEvent::PacketReceived(packet_with_crc(1)),
        ProtocolEvent::Authenticate("a".to_string(), "b".to_string()),
        ProtocolEvent::InvalidPacket,
        ProtocolEvent::ProtocolError("x".to_string()),
    ];
    for e in events {
        let mut sm = StateMachine::new(10);
        sm.handle_event(ProtocolEvent::InvalidPacket, 0);
        assert_eq!(sm.state(), ProtocolState::Error);
        let r = sm.handle_event(e, 1);
        assert_eq!(r.state, ProtocolState::Error);
        assert_eq!(r.actions, vec![ProtocolAction::DisconnectClient]);
    }
    let mut sm = StateMachine::new(10);
    sm.handle_event(ProtocolEvent::InvalidPacket, 0);
    let r = sm.handle_event(ProtocolEvent::ConnectionLost, 1);
    assert_eq!(r.state, ProtocolState::Disconnected);
    assert_eq!(r.actions, vec![ProtocolAction::ResetConnection]);
}

#[test]
fn unexpected_event_fails_session() {
    let mut sm = StateMachine::new(10);
    let r = sm.handle_event(ProtocolEvent::AuthSuccess, 0);
    assert_eq!(r.state, ProtocolState::Error);
    assert_eq!(r.actions, vec![ProtocolAction::DisconnectClient]);
}

fn packet_with_priority(priority: u8, tag: u64) -> AVLPacket {
    let mut p = create_mock_avl_packet(1);
    p.avl_data[0].priority = priority;
    p.avl_data[0].timestamp = tag;
    p
}

fn tags(packets: &[AVLPacket]) -> Vec<u64> {
    packets.iter().map(|p| p.avl_data[0].timestamp).collect()
}

#[test]
fn middle_band_inserts_before_first_lower_priority_keeping_arrival_order() {
    let mut pipeline = ProcessingPipeline::new(100);
    pipeline.process_incoming(packet_with_priority(2, 1), None).unwrap();
    pipeline.process_incoming(packet_with_priority(5, 2), None).unwrap();
    pipeline.process_incoming(packet_with_priority(5, 3), None).unwrap();
    pipeline.process_incoming(packet_with_priority(6, 4), None).unwrap();
    pipeline.process_incoming(packet_with_priority(9, 5), None).unwrap();
    pipeline.process_incoming(packet_with_priority(0, 6), None).unwrap();
    assert_eq!(pipeline.queue_stats(), (6, 0));
    let out = pipeline.flush().unwrap();
    assert_eq!(tags(&out), vec![5, 4, 2, 3, 1, 6]);
    assert_eq!(pipeline.queue_stats(), (0, 0));
}

#[test]
fn batches_move_oldest_entries_and_flush_puts_incoming_first() {
    let mut pipeline = ProcessingPipeline::new(2);
    pipeline.process_incoming(packet_with_priority(1, 1), None).unwrap();
    assert_eq!(pipeline.queue_stats(), (1, 0));
    pipeline.process_incoming(packet_with_priority(1, 2), None).unwrap();
    assert_eq!(pipeline.queue_stats(), (0, 2));
    pipeline.process_incoming(packet_with_priority(1, 3), None).unwrap();
    assert_eq!(pipeline.queue_stats(), (1, 2));
    let out = pipeline.flush().unwrap();
    assert_eq!(tags(&out), vec![3, 1, 2]);
}

#[test]
fn spent_call_budget_releases_a_batch() {
    let mut pipeline = ProcessingPipeline::new(10);
    pipeline
        .process_incoming(packet_with_priority(1, 1), Some(Duration::ZERO))
        .unwrap();
    assert_eq!(pipeline.queue_stats(), (0, 1));
    pipeline
        .process_incoming(packet_with_priority(1, 2), Some(Duration::from_secs(3600)))
        .unwrap();
    assert_eq!(pipeline.queue_stats(), (1, 1));
}

#[test]
fn submit_with_decided_budget() {
    let mut pipeline = ProcessingPipeline::new(3);
    pipeline.submit(packet_with_priority(1, 1), false);
    pipeline.submit(packet_with_priority(1, 2), false);
    assert_eq!(pipeline.queue_stats(), (2, 0));
    pipeline.submit(packet_with_priority(9, 3), true);
    assert_eq!(pipeline.queue_stats(), (0, 3));
    assert_eq!(tags(&pipeline.flush().unwrap()), vec![3, 1, 2]);
}

#[test]
fn packet_without_records_queues_as_lowest_band() {
    let mut pipeline = ProcessingPipeline::new(10);
    pipeline.process_incoming(packet_with_priority(9, 1), None).unwrap();
    pipeline.process_incoming(create_mock_avl_packet(0), None).unwrap();
    let out = pipeline.flush().unwrap();
    assert_eq!(out[0].avl_data[0].timestamp, 1);
    assert!(out[1].avl_data.is_empty());
}

#[test]
fn reconnect_backoff_grows_then_gives_up() {
    assert_eq!(retry_delay_ms(0), Some(100));
    assert_eq!(retry_delay_ms(1), Some(200));
    assert_eq!(retry_delay_ms(2), Some(300));
    assert_eq!(retry_delay_ms(3), None);
    assert_eq!(retry_delay_ms(u32::MAX), None);
}

#[test]
fn priorities_one_one_eight_with_batch_of_two() {
    let mut pipeline = ProcessingPipeline::new(2);
    pipeline.process_incoming(packet_with_priority(1, 1), None).unwrap();
    pipeline.process_incoming(packet_with_priority(1, 2), None).unwrap();
    assert_eq!(pipeline.queue_stats(), (0, 2));
    pipeline.process_incoming(packet_with_priority(8, 3), None).unwrap();
    assert_eq!(pipeline.queue_stats(), (1, 2));
    let out = pipeline.flush().unwrap();
    let priorities: Vec<u8> = out.iter().map(|p| p.avl_data[0].priority).collect();
    assert_eq!(priorities, vec![8, 1, 1]);
    assert_eq!(tags(&out), vec![3, 1, 2]);
}

#[test]
fn authentication_records_identity() {
    let mut sm = StateMachine::new(10);
    assert!(sm.identity().is_none());
    sm.handle_event(ProtocolEvent::Connect, 0);
    sm.handle_event(
        ProtocolEvent::Authenticate("356307042441013".to_string(), "secret".to_string()),
        0,
    );
    assert_eq!(sm.identity().unwrap(), "356307042441013");
    assert_eq!(sm.state(), ProtocolState::Authenticating);
}

#[test]
fn timeout_in_error_state_still_sweeps() {
    let mut sm = ready_machine(10);
    sm.handle_event(ProtocolEvent::PacketReceived(packet_with_crc(1)), 0);
    sm.handle_event(ProtocolEvent::InvalidPacket, 1);
    assert_eq!(sm.state(), ProtocolState::Error);
    let r = sm.handle_event(ProtocolEvent::Timeout, 50);
    assert_eq!(r.state, ProtocolState::Error);
    assert_eq!(r.actions, vec![ProtocolAction::RequestRetransmission(1)]);
}
