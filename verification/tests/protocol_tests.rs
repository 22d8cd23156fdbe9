use popemodem::bytes::encode_u8;
use popemodem::datalink::frame::FrameType;
use popemodem::error::Error;
use popemodem::modem::protocol::Protocol;
use popemodem::modem::reception::{FrameReceiver, Reception};
use popemodem::receiver::{check_syn, SyncEvent, SyncReceiver};
use popemodem::recorder::{Recorder, Recording, RecordingReceiver};
use popemodem::transmitter::{add_syn, encode};
use popemodem::{ModulationMethod, Status, USFD};

#[test]
fn protocol_layout() {
    let p = Protocol::new("hi", 10, 255, 0, FrameType::Data);
    assert_eq!(p.physical().length, 84);
    assert_eq!(p.datalink().fcs(), 0x96e5e7d8);
    let bits = p.to_bytes();
    assert_eq!(bits.len(), 52 + 84);
    assert_eq!(&bits[8..16], &USFD);
}

#[test]
fn protocol_from_bytes_reads_after_header() {
    assert!(matches!(Protocol::from_bytes(&[0; 67]), Err(Error::InvalidFrameLength)));
    let mut bytes = vec![0, 0, 0, 1];
    bytes.extend(vec![0; 32]);
    let d = popemodem::datalink::frame::Datalink::new(FrameType::Data, 1, 2, 3, vec![1]);
    bytes.extend(d.to_bytes());
    let p = Protocol::from_bytes(&bytes).unwrap();
    assert_eq!(p.datalink().source_address, 2);
    assert_eq!(p.physical().length, 0);
    let q = Protocol::from(bytes.clone());
    assert_eq!(q.datalink().destination_address, 1);
    let signed: Vec<i8> = bytes.iter().map(|b| *b as i8).collect();
    let r = Protocol::from_signed(signed);
    assert_eq!(r.datalink().sequence_number, 3);
}

#[test]
fn protocol_reads_back_sent_frame() {
    let p = Protocol::new("ab", 0, 0, 0, FrameType::Data);
    let sent = p.to_bytes();
    let q = Protocol::from_bytes(&sent[16..]).unwrap();
    assert_eq!(q.to_bytes(), sent);
    assert_eq!(q.to_bytes().len(), 52 + 84);
    assert!(q.physical().detect_checksum);
    assert!(q.datalink().detect_checksum());
    let r = Protocol::from(sent[16..].to_vec());
    assert_eq!(r.to_bytes(), sent);
}

#[test]
fn receiver_reads_sent_frame() {
    let p = Protocol::new("hi", 10, 255, 7, FrameType::Data);
    let mut rx = FrameReceiver::new();
    let mut last = None;
    let mut headers = 0;
    for b in p.to_bytes() {
        let bit = b as i8;
        assert!(!rx.faults_on(bit));
        match rx.step(bit) {
            Reception::Idle | Reception::SfdReceived => {}
            Reception::HeaderReceived(h) => {
                headers += 1;
                assert_eq!(h.length, 84);
                assert!(h.detect_checksum);
            }
            other => last = Some(other),
        }
    }
    assert_eq!(headers, 1);
    match last {
        Some(Reception::FrameReceived { datalink, checksum_ok }) => {
            assert!(checksum_ok);
            assert_eq!(datalink.source_address, 10);
            assert_eq!(datalink.destination_address, 255);
            assert_eq!(datalink.sequence_number, 7);
            assert_eq!(datalink.data, encode_u8("hi"));
        }
        _ => panic!("no frame"),
    }
    assert_eq!(rx.status(), Status::RESET);
    assert!(matches!(rx.step(0), Reception::Idle));
    assert_eq!(rx.status(), Status::LISTENING);
}

#[test]
fn receiver_forwards_only_data_frames() {
    for (t, forwarded) in [
        (FrameType::Data, true),
        (FrameType::Acknowledgement, false),
        (FrameType::Beacon, false),
        (FrameType::Command, false),
    ] {
        let p = Protocol::new("ok", 1, 2, 3, t);
        let mut rx = FrameReceiver::new();
        let mut count = 0;
        for b in p.to_bytes() {
            let r = rx.step(b as i8);
            if let Some(d) = r.forwarded() {
                assert_eq!(d.source_address, 1);
                count += 1;
            }
        }
        assert_eq!(count, if forwarded { 1 } else { 0 });
    }
    assert!(Reception::Idle.forwarded().is_none());
}

#[test]
fn receiver_aborts_on_unrecognised_tone() {
    let p = Protocol::new("hi", 10, 255, 7, FrameType::Data);
    let bits = p.to_bytes();
    let mut rx = FrameReceiver::new();
    for b in &bits[0..20] {
        rx.step(*b as i8);
    }
    assert_eq!(rx.status(), Status::RECEIVING);
    assert!(matches!(rx.step(-1), Reception::Aborted(_)));
    assert_eq!(rx.status(), Status::RESET);
}

#[test]
fn receiver_faults_on_unknown_modulation() {
    let mut rx = FrameReceiver::new();
    for b in [1, 0, 1, 0, 1, 0, 1, 0, 0, 0, 0, 1, 0, 1, 1, 0] {
        rx.step(b);
    }
    for _ in 0..35 {
        assert!(!rx.faults_on(1));
        rx.step(1);
    }
    assert!(rx.faults_on(1));
}

#[test]
fn recorder_reads_sent_frame() {
    let p = Protocol::new("ok", 3, 4, 5, FrameType::Data);
    let mut rx = RecordingReceiver::new();
    let mut got = None;
    for b in p.to_bytes() {
        assert!(!rx.faults_on(b as i8));
        if let Recording::FrameRead { datalink, checksum_ok } = rx.step(b as i8) {
            got = Some((datalink, checksum_ok));
        }
    }
    let (d, ok) = got.unwrap();
    assert!(ok);
    assert_eq!(d.data, encode_u8("ok"));
}

#[test]
fn recorder_settings() {
    let mut r = Recorder::new(44100, 441, 1);
    assert_eq!(r.device_name(), None);
    r.device("mic");
    assert_eq!(r.device_name(), Some("mic"));
    assert_eq!(r.samplerate(), 44100);
    assert_eq!(r.latency(), 441);
    assert_eq!(r.channels(), 1);
    r.start();
}

#[test]
fn transmitter_encoding() {
    let bits = encode("a");
    assert_eq!(bits.len(), 8 + 16 + 8);
    assert_eq!(&bits[0..8], &USFD);
    assert_eq!(&bits[24..32], &USFD);
    assert_eq!(add_syn(vec![1]), vec![0, 0, 0, 1, 0, 1, 1, 0, 1, 0, 0, 0, 1, 0, 1, 1, 0]);
}

#[test]
fn sync_receiver_reads_transmitted_text() {
    let mut rx = SyncReceiver::new();
    let mut msg = None;
    let bits = encode("hello");
    let last = bits.len() - 1;
    for (k, b) in bits.into_iter().enumerate() {
        let sym = [b as i8];
        assert!(!rx.faults_on(&sym, ModulationMethod::BFSK));
        match rx.step(&sym, ModulationMethod::BFSK) {
            SyncEvent::Message(m) => {
                assert_eq!(k, last);
                msg = Some(m)
            }
            _ => {}
        }
    }
    assert_eq!(msg.unwrap().into_iter().collect::<String>(), "hello");
    assert_eq!(rx.status(), Status::ANSWER);
    assert!(matches!(rx.step(&[0], ModulationMethod::BFSK), SyncEvent::Answer));
    assert_eq!(rx.status(), Status::LISTENING);
}

#[test]
fn sync_receiver_qfsk_window() {
    let mut rx = SyncReceiver::new();
    for pair in [[0i8, 0i8], [1, 0], [1, 0], [0, 1]] {
        rx.step(&pair, ModulationMethod::QFSK);
    }
    assert_eq!(rx.status(), Status::RECEIVING);
}

#[test]
fn check_syn_cases() {
    assert!(check_syn(&[0, 0, 0, 1, 0, 1, 1, 0]));
    assert!(!check_syn(&[0, 0, 0, 1, 0, 1, 1, 1]));
    assert!(check_syn(&[0, 0, 0, 1, 0, 1, 1, 0, 5]));
}
