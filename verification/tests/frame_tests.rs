use popemodem::bytes::{encode_u8, u16_to_bytes};
use popemodem::datalink::enums::FrameType;
use popemodem::datalink::frame::{frame_checksum, Datalink};
use popemodem::error::Error;
use popemodem::physical::frame::{header_checksum, ModulationType, Physical};
use popemodem::{PREAMBLE, USFD};

#[test]
fn test_frame_type() {
    let frame_type = FrameType::from(vec![0, 0, 0, 0].as_slice());
    assert!(frame_type.is_data());
}

#[test]
fn frame_type_bits() {
    for t in [FrameType::Data, FrameType::Acknowledgement, FrameType::Beacon, FrameType::Command] {
        assert_eq!(FrameType::from(t.to_bytes().as_slice()), t);
        assert!(FrameType::is_valid_bits(t.to_bytes().as_slice()));
    }
    assert!(FrameType::Command.is_command());
    assert!(FrameType::Beacon.is_beacon());
    assert!(FrameType::Acknowledgement.is_acknowledgement());
    assert!(!FrameType::Data.is_command());
    assert!(!FrameType::is_valid_bits(&[0, 1, 0, 0]));
    assert!(!FrameType::is_valid_bits(&[0, 0, 0]));
}

#[test]
fn test_checksum() {
    let checksum = header_checksum(b"123456789");
    println!("{:b}", checksum);
    assert_eq!(checksum, 0x906e);
}

#[test]
fn test_build_header() {
    let frame = Physical::new(100, ModulationType::BfskNoErrorCorrection).to_bytes();
    let mut frame_start = false;
    let mut data: Vec<u8> = vec![];

    for bit in frame.chunks(8) {
        if !frame_start && bit == USFD {
            println!("Found SFD");
            frame_start = true;
            continue;
        }
        if frame_start {
            data.extend(bit);
        }
    }
    println!("{:?}", data);
    let header = Physical::from_bytes(&data[0..36].try_into().unwrap()).unwrap();
    assert_eq!(header.length, 100);
    assert!(header.detect_checksum);
    assert_eq!(header.mod_type, ModulationType::BfskNoErrorCorrection);
}

#[test]
fn physical_header_layout() {
    let frame = Physical::new(100, ModulationType::BfskNoErrorCorrection).to_bytes();
    assert_eq!(&frame[0..8], &PREAMBLE);
    assert_eq!(&frame[8..16], &USFD);
    assert_eq!(&frame[16..20], &[0, 0, 0, 1]);
    assert_eq!(&frame[20..36], &u16_to_bytes(100));
    assert_eq!(&frame[36..52], &u16_to_bytes(0xf5c3));
}

#[test]
fn physical_bad_checksum_detected() {
    let frame = Physical::new(100, ModulationType::BfskNoErrorCorrection).to_bytes();
    let mut body: [u8; 36] = frame[16..52].try_into().unwrap();
    body[40 - 16] ^= 1;
    let header = Physical::from_bytes(&body).unwrap();
    assert!(!header.detect_checksum);
}

#[test]
fn physical_describe() {
    let header = Physical::new(100, ModulationType::BfskNoErrorCorrection);
    assert_eq!(
        header.describe(),
        "Modulation type: BFSK no error correction\nPhysical Header Length: 100\nCecksum detected: true\n"
    );
    assert_eq!(ModulationType::BfskNoErrorCorrection.name(), "BFSK no error correction");
}

#[test]
fn datalink_checksum_and_roundtrip() {
    let d = Datalink::new(FrameType::Data, 255, 10, 0, encode_u8("hi"));
    assert_eq!(d.fcs(), 0x96e5e7d8);
    assert!(d.detect_checksum());
    let bits = d.to_bytes();
    assert_eq!(bits.len(), 68 + 16);
    let back = Datalink::from_bytes(&bits).unwrap();
    assert_eq!(back.destination_address, 255);
    assert_eq!(back.source_address, 10);
    assert_eq!(back.sequence_number, 0);
    assert_eq!(back.data, encode_u8("hi"));
    assert_eq!(back.fcs(), 0x96e5e7d8);
    assert!(back.frame_type().is_data());
    assert!(back.detect_checksum());
}

#[test]
fn datalink_errors() {
    assert!(matches!(Datalink::from_bytes(&[0; 51]), Err(Error::InvalidFrameLength)));
    let d = Datalink::from_parts(FrameType::Beacon, 1, 2, 3, vec![1, 0], 7);
    assert!(!d.detect_checksum());
    assert_eq!(d.to_bytes_with_fcs(7).len(), 70);
    assert!(d.fcs_matches(7));
}

#[test]
fn error_messages() {
    assert_eq!(Error::InvalidFrameLength.message(), "Invalid frame length");
    assert_eq!(Error::FCSValidationFailed.message(), "Frame check sequence validation failed");
}

#[test]
fn frame_detects_one_changed_data_value() {
    let d = Datalink::new(FrameType::Data, 3, 4, 5, encode_u8("ok"));
    assert!(d.detect_checksum());
    let mut bits = d.to_bytes();
    bits[36 + 5] ^= 1;
    let changed = Datalink::from_bytes(&bits).unwrap();
    assert_eq!(changed.fcs(), d.fcs());
    assert!(!changed.detect_checksum());
}

#[test]
fn header_detects_one_changed_length_value() {
    let p = Physical::new(100, ModulationType::BfskNoErrorCorrection);
    let sent = p.to_bytes();
    let mut header = [0u8; 36];
    header.copy_from_slice(&sent[16..52]);
    assert!(Physical::from_bytes(&header).unwrap().detect_checksum);
    header[4 + 3] ^= 1;
    let read = Physical::from_bytes(&header).unwrap();
    assert_eq!(read.length, 100 ^ 8);
    assert!(!read.detect_checksum);
}


#[test]
fn crc_check_values() {
    assert_eq!(header_checksum(b"123456789"), 0x906e);
    assert_eq!(frame_checksum(b"123456789"), 0x0376_e6e7);
    let d = Datalink::new(FrameType::Data, 255, 10, 0, encode_u8("hi"));
    let mut body = d.to_bytes();
    body.truncate(body.len() - 32);
    assert_eq!(frame_checksum(&body), d.fcs());
}
