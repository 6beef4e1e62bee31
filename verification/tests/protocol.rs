use vsp::json::JsonValue;
use vsp::message::VSPMessage;
use vsp::protocol::{VSPProtocol, VSPProtocolFactory};

fn s(v: &str) -> String {
    v.to_string()
}

fn frame_of(m: &mut VSPMessage) -> Vec<u8> {
    let proto = VSPProtocol::new();
    proto.send_message(m).expect("small message must frame")
}

fn msg(id: &str, n: i64) -> VSPMessage {
    VSPMessage::new(
        s(id),
        s("echo"),
        s("/ping"),
        vec![(s("n"), JsonValue::Int(n))],
        false,
    )
}

#[test]
fn frame_has_big_endian_length_prefix() {
    let mut m = msg("a", 1);
    let payload = m.to_bytes();
    let frame = frame_of(&mut m);
    assert_eq!(frame.len(), payload.len() + 4);
    let n = payload.len() as u32;
    assert_eq!(frame[0], (n >> 24) as u8);
    assert_eq!(frame[1], (n >> 16) as u8);
    assert_eq!(frame[2], (n >> 8) as u8);
    assert_eq!(frame[3], n as u8);
    assert_eq!(&frame[4..], &payload[..]);
}

#[test]
fn two_frames_in_one_chunk_yield_two_messages() {
    let mut m1 = msg("first", 1);
    let mut m2 = msg("second", 2);
    let mut chunk = frame_of(&mut m1);
    chunk.extend_from_slice(&frame_of(&mut m2));
    let mut proto = VSPProtocol::new();
    let msgs = proto.data_received(chunk);
    assert_eq!(msgs.len(), 2);
    assert_eq!(msgs[0].request_id(), "first");
    assert_eq!(msgs[1].request_id(), "second");
    assert_eq!(proto.get_buffer_info().0, 0);
    assert_eq!(proto.dropped_count(), 0);
}

#[test]
fn split_frame_yields_message_only_after_second_chunk() {
    let mut m = msg("split", 3);
    let frame = frame_of(&mut m);
    for cut in [1usize, 2, 3, 4, 5, frame.len() / 2, frame.len() - 1] {
        let mut proto = VSPProtocol::new();
        let first = proto.data_received(frame[..cut].to_vec());
        assert_eq!(first.len(), 0, "no message before the frame completes");
        assert_eq!(proto.get_buffer_info().0, cut);
        let second = proto.data_received(frame[cut..].to_vec());
        assert_eq!(second.len(), 1, "exactly one message after completion");
        assert_eq!(second[0].request_id(), "split");
        assert_eq!(proto.get_buffer_info().0, 0);
    }
}

#[test]
fn corrupt_frame_between_two_valid_ones_is_dropped() {
    let mut m1 = msg("ok-1", 1);
    let mut m2 = msg("ok-2", 2);
    let corrupt_payload = b"this is not json {".to_vec();
    let mut corrupt = (corrupt_payload.len() as u32).to_be_bytes().to_vec();
    corrupt.extend_from_slice(&corrupt_payload);

    let mut chunk = frame_of(&mut m1);
    chunk.extend_from_slice(&corrupt);
    chunk.extend_from_slice(&frame_of(&mut m2));

    let mut proto = VSPProtocol::new();
    let msgs = proto.data_received(chunk);
    assert_eq!(msgs.len(), 2, "the corrupt frame must not stall the stream");
    assert_eq!(msgs[0].request_id(), "ok-1");
    assert_eq!(msgs[1].request_id(), "ok-2");
    assert_eq!(proto.dropped_count(), 1, "the drop is recorded");
    assert_eq!(proto.get_buffer_info().0, 0);
}

#[test]
fn connection_lifecycle_keeps_buffer() {
    let mut proto = VSPProtocol::new();
    assert!(!proto.is_connected());
    proto.connection_made();
    assert!(proto.is_connected());
    proto.data_received(vec![0, 0]);
    assert_eq!(proto.get_buffer_info(), (2, None));
    proto.connection_lost(Some(s("peer went away")));
    assert!(!proto.is_connected());
    assert_eq!(proto.get_buffer_info().0, 2, "partial frames survive connection loss");
    proto.clear_buffer();
    assert_eq!(proto.get_buffer_info(), (0, None));
}

#[test]
fn buffer_info_reports_expected_length() {
    let mut proto = VSPProtocol::new();
    proto.data_received(vec![0, 0, 1, 2, 9]);
    let (len, expected) = proto.get_buffer_info();
    assert_eq!(len, 5);
    assert_eq!(expected, Some(0x0102 + 4 - 4));
}

#[test]
fn handle_message_echoes_requests_only() {
    let proto = VSPProtocol::new();
    let req = msg("r-1", 5);
    let resp = proto.handle_message(&req).expect("requests get an echo response");
    assert_eq!(resp.request_id(), "r-1");
    assert_eq!(resp.service(), "echo");
    assert!(resp.is_response());
    assert_eq!(resp.get_body().len(), 0);
    assert!(proto.handle_message(&resp).is_none(), "responses are not answered");
}

#[test]
fn factory_defaults_and_config() {
    let f = VSPProtocolFactory::new(None, None);
    assert_eq!(f.get_config(), (1048576, 30));
    let f2 = VSPProtocolFactory::new(Some(2048), Some(5));
    assert_eq!(f2.get_config(), (2048, 5));
    let p = f2.create_protocol();
    assert!(!p.is_connected());
}
