use eolib::data::encode_number;
use proxy::bridge::{Action, Bridge, Event, Phase};
use proxy::codec::FrameDecoder;

fn header(n: i32) -> [u8; 2] {
    let b = encode_number(n).unwrap();
    [b[0], b[1]]
}

fn frame(body: &[u8]) -> Vec<u8> {
    let mut f = header(body.len() as i32).to_vec();
    f.extend_from_slice(body);
    f
}

fn drain(b: &mut Bridge) -> Vec<Vec<u8>> {
    let mut out = Vec::new();
    while b.has_outbound() {
        match b.step(Event::ClientReady) {
            Action::ToClient(p) => out.push(p),
            other => panic!("unexpected action {:?}", other),
        }
    }
    out
}

#[test]
fn round_trip() {
    let mut b = Bridge::new();
    assert_eq!(b.step(Event::ClientBinary(vec![0x01, 0x02])), Action::ToBackend(vec![0x01, 0x02]));
    let mut reply = header(3).to_vec();
    assert_eq!(reply, vec![4, 254]);
    reply.extend_from_slice(&[0xAA, 0xBB, 0xCC]);
    assert_eq!(b.step(Event::BackendData(reply)), Action::Nothing);
    assert!(b.has_outbound());
    assert_eq!(b.step(Event::ClientReady), Action::ToClient(vec![0xAA, 0xBB, 0xCC]));
    assert!(!b.has_outbound());
    assert_eq!(b.step(Event::ClientReady), Action::Nothing);
    assert_eq!(b.phase(), Phase::Open);
}

#[test]
fn client_messages_reach_backend_in_order() {
    let mut b = Bridge::new();
    let msgs = vec![vec![1u8, 2, 3], vec![], vec![9u8], vec![7u8, 7]];
    let mut sent = Vec::new();
    for m in &msgs {
        match b.step(Event::ClientBinary(m.clone())) {
            Action::ToBackend(bytes) => sent.extend_from_slice(&bytes),
            other => panic!("unexpected action {:?}", other),
        }
    }
    assert_eq!(sent, vec![1, 2, 3, 9, 7, 7]);
    assert!(!b.has_outbound());
}

#[test]
fn non_binary_client_message_is_ignored() {
    let mut b = Bridge::new();
    assert_eq!(b.step(Event::ClientOther), Action::Nothing);
    assert_eq!(b.phase(), Phase::Open);
}

#[test]
fn packets_split_across_reads_are_reassembled() {
    let mut stream = frame(&[10, 11, 12]);
    stream.extend(frame(&[20]));
    stream.extend(frame(&[30, 31]));
    let mut b = Bridge::new();
    for byte in &stream {
        assert_eq!(b.step(Event::BackendData(vec![*byte])), Action::Nothing);
    }
    assert_eq!(drain(&mut b), vec![vec![10, 11, 12], vec![20], vec![30, 31]]);
    assert!(!b.is_closed());
}

#[test]
fn several_packets_in_one_read() {
    let mut stream = frame(&[1]);
    stream.extend(frame(&[2, 2]));
    let mut d = FrameDecoder::new();
    assert_eq!(d.feed(&stream), vec![vec![1], vec![2, 2]]);
    assert_eq!(d.pending_len(), 0);
}

#[test]
fn two_digit_length() {
    let body: Vec<u8> = (0..300u32).map(|i| i as u8).collect();
    let f = frame(&body);
    assert_eq!(&f[..2], &[48, 2]);
    let mut d = FrameDecoder::new();
    assert_eq!(d.feed(&f[..150]), Vec::<Vec<u8>>::new());
    assert_eq!(d.pending_len(), 150);
    assert_eq!(d.feed(&f[150..]), vec![body]);
    assert_eq!(d.pending_len(), 0);
}

#[test]
fn zero_length_packet_gives_no_message() {
    let mut stream = header(0).to_vec();
    stream.extend([254, 254]);
    stream.extend(frame(&[5, 6]));
    let mut b = Bridge::new();
    b.step(Event::BackendData(stream));
    assert_eq!(drain(&mut b), vec![vec![5, 6]]);
}

#[test]
fn backend_close_after_complete_packets() {
    let mut stream = frame(&[1, 2]);
    stream.extend(frame(&[3]));
    let partial = frame(&[4, 5, 6]);
    stream.extend_from_slice(&partial[..3]);
    let mut b = Bridge::new();
    b.step(Event::BackendData(stream));
    assert_eq!(b.step(Event::BackendData(Vec::new())), Action::Nothing);
    assert_eq!(b.phase(), Phase::Draining);
    assert!(!b.reads_backend());
    assert_eq!(b.step(Event::ClientBinary(vec![1])), Action::Nothing);
    assert_eq!(drain(&mut b), vec![vec![1, 2], vec![3]]);
    assert!(b.is_closed());
}

#[test]
fn backend_close_with_nothing_queued_closes() {
    let mut b = Bridge::new();
    b.step(Event::BackendData(vec![4]));
    assert_eq!(b.step(Event::BackendData(Vec::new())), Action::Nothing);
    assert!(b.is_closed());
}

#[test]
fn backend_read_error_ends_stream() {
    let mut b = Bridge::new();
    b.step(Event::BackendData(frame(&[8])));
    b.step(Event::BackendFailed);
    assert_eq!(b.phase(), Phase::Draining);
    assert_eq!(drain(&mut b), vec![vec![8]]);
    assert!(b.is_closed());
}

#[test]
fn negative_length_desynchronises() {
    let mut stream = frame(&[1]);
    stream.extend([0, 0, 1, 2, 3]);
    let mut d = FrameDecoder::new();
    assert_eq!(d.feed(&stream), vec![vec![1]]);
    assert!(d.is_desynced());
    let mut b = Bridge::new();
    b.step(Event::BackendData(stream));
    assert_eq!(b.phase(), Phase::Draining);
    assert_eq!(drain(&mut b), vec![vec![1]]);
    assert!(b.is_closed());
}

#[test]
fn client_close_ends_bridge() {
    let mut b = Bridge::new();
    b.step(Event::BackendData(frame(&[1, 2])));
    assert_eq!(b.step(Event::ClientClosed), Action::Nothing);
    assert!(b.is_closed());
    assert_eq!(b.step(Event::ClientBinary(vec![1])), Action::Nothing);
    assert_eq!(b.step(Event::ClientReady), Action::Nothing);
    assert_eq!(b.step(Event::BackendData(frame(&[3]))), Action::Nothing);
    assert!(b.is_closed());
}

#[test]
fn write_failure_ends_bridge() {
    let mut b = Bridge::new();
    assert_eq!(b.step(Event::WriteFailed), Action::Nothing);
    assert!(b.is_closed());
}

#[test]
fn connect_disconnect_cycles_all_close() {
    for i in 0..100u8 {
        let mut b = Bridge::new();
        b.step(Event::BackendData(vec![5, 254, i]));
        b.step(Event::ClientClosed);
        assert!(b.is_closed());
    }
}

#[test]
fn two_bridges_do_not_cross_talk() {
    let mut a = Bridge::new();
    let mut b = Bridge::new();
    assert_eq!(a.step(Event::ClientBinary(vec![0xA])), Action::ToBackend(vec![0xA]));
    assert_eq!(b.step(Event::ClientBinary(vec![0xB])), Action::ToBackend(vec![0xB]));
    a.step(Event::BackendData(frame(&[0xA1])));
    b.step(Event::BackendData(frame(&[0xB1, 0xB2])));
    assert_eq!(drain(&mut b), vec![vec![0xB1, 0xB2]]);
    assert_eq!(drain(&mut a), vec![vec![0xA1]]);
    b.step(Event::ClientClosed);
    assert!(b.is_closed());
    assert!(!a.is_closed());
}
