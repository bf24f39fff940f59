use loranav::crc::crc16_xmodem;
use loranav::packet::msg_type::{NAV_DATA, PING};
use loranav::packet::{decode, DecodeError, Packet, CRC_LEN, HEADER_LEN};
use loranav::{Message, MsgType, TimeOfDay, MAX_PAYLOAD_LEN};

fn sample_message() -> Message {
    let mut message = [0u8; MAX_PAYLOAD_LEN];
    for (i, b) in message.iter_mut().enumerate() {
        *b = (i * 7 + 3) as u8;
    }
    Message {
        source: [1, 2, 3, 4, 5, 6],
        destination: [0xA0, 0xA1, 0xA2, 0xA3, 0xA4, 0xA5],
        msg_type: MsgType::Ping,
        message_len: MAX_PAYLOAD_LEN as u8,
        message,
        time_stamp: TimeOfDay::midnight(),
    }
}

fn small_packet() -> Packet {
    let mut payload = [0u8; MAX_PAYLOAD_LEN];
    payload[0] = 0x10;
    payload[1] = 0x20;
    payload[2] = 0x30;
    payload[3] = 0xEE;
    Packet {
        src: [1, 2, 3, 4, 5, 6],
        dst: [7, 8, 9, 10, 11, 12],
        msg_type: NAV_DATA,
        payload_len: 3,
        payload,
    }
}

#[test]
fn crc16_xmodem_check_value() {
    assert_eq!(crc16_xmodem(b"123456789"), 0x31C3);
}

#[test]
fn crc16_xmodem_of_nothing_is_zero() {
    assert_eq!(crc16_xmodem(&[]), 0);
}

#[test]
fn crc16_xmodem_single_bytes() {
    assert_eq!(crc16_xmodem(&[0x00]), 0x0000);
    assert_eq!(crc16_xmodem(&[0x01]), 0x1021);
    assert_eq!(crc16_xmodem(b"A"), 0x58E5);
}

#[test]
fn crc16_changes_with_one_byte() {
    let data = b"The quick brown fox jumps over the lazy dog";
    let base = crc16_xmodem(data);
    for i in 0..data.len() {
        let mut changed = data.to_vec();
        changed[i] ^= 0x01;
        assert_ne!(crc16_xmodem(&changed), base);
    }
}

#[test]
fn new_packet_takes_whole_payload() {
    let m = sample_message();
    let p = Packet::new(m);
    assert_eq!(p.src, m.source);
    assert_eq!(p.dst, m.destination);
    assert_eq!(p.msg_type, PING);
    assert_eq!(p.payload_len, MAX_PAYLOAD_LEN);
    assert_eq!(p.payload, m.message);
}

#[test]
fn encode_writes_frame_layout() {
    let p = small_packet();
    let mut buf = [0xFFu8; 32];
    let n = p.encode(&mut buf).unwrap();
    assert_eq!(n, HEADER_LEN + 3 + CRC_LEN);
    assert_eq!(&buf[0..2], &[0xA5, 0x5A]);
    assert_eq!(&buf[2..8], &[1, 2, 3, 4, 5, 6]);
    assert_eq!(&buf[8..14], &[7, 8, 9, 10, 11, 12]);
    assert_eq!(buf[14], NAV_DATA);
    assert_eq!(buf[15], 3);
    assert_eq!(&buf[16..19], &[0x10, 0x20, 0x30]);
    let crc = crc16_xmodem(&buf[..19]);
    assert_eq!(&buf[19..21], &crc.to_le_bytes());
    assert!(buf[21..].iter().all(|b| *b == 0xFF));
}

#[test]
fn encode_refuses_short_buffer() {
    let p = small_packet();
    let mut buf = [0x77u8; 20];
    assert_eq!(p.encode(&mut buf), Err(DecodeError::TooShort));
    assert!(buf.iter().all(|b| *b == 0x77));
}

#[test]
fn encode_fits_exact_buffer() {
    let p = small_packet();
    let mut buf = [0u8; 21];
    assert_eq!(p.encode(&mut buf), Ok(21));
}

#[test]
fn full_message_is_too_long_for_thirty_bytes() {
    let p = Packet::new(sample_message());
    let mut send_buf = [0u8; 30];
    assert_eq!(p.encode(&mut send_buf), Err(DecodeError::TooShort));
    assert_eq!(decode(&send_buf), Err(DecodeError::BadMagic));
}

#[test]
fn message_round_trip() {
    let m = sample_message();
    let p = Packet::new(m);
    let mut buf = [0u8; 256];
    let n = p.encode(&mut buf).unwrap();
    assert_eq!(n, HEADER_LEN + MAX_PAYLOAD_LEN + CRC_LEN);
    assert_eq!(decode(&buf[..n]), Ok(m));
    assert_eq!(decode(&buf), Ok(m));
}

#[test]
fn decode_of_short_payload_zero_fills() {
    let p = small_packet();
    let mut buf = [0u8; 21];
    p.encode(&mut buf).unwrap();
    let m = decode(&buf).unwrap();
    assert_eq!(m.source, p.src);
    assert_eq!(m.destination, p.dst);
    assert_eq!(m.msg_type, MsgType::NavData);
    assert_eq!(m.message_len, 3);
    assert_eq!(&m.message[..3], &[0x10, 0x20, 0x30]);
    assert!(m.message[3..].iter().all(|b| *b == 0));
    assert_eq!(m.time_stamp, TimeOfDay { secs: 0, frac: 0 });
}

#[test]
fn decode_unknown_type_is_no_type() {
    let mut p = small_packet();
    p.msg_type = 0x42;
    let mut buf = [0u8; 21];
    p.encode(&mut buf).unwrap();
    assert_eq!(decode(&buf).unwrap().msg_type, MsgType::NoType);
}

#[test]
fn decode_every_type_code() {
    let kinds = [
        MsgType::NoType,
        MsgType::NavData,
        MsgType::Message,
        MsgType::Ack,
        MsgType::Ping,
        MsgType::Pong,
    ];
    for (code, kind) in kinds.iter().enumerate() {
        let mut m = sample_message();
        m.msg_type = *kind;
        let p = Packet::new(m);
        assert_eq!(p.msg_type as usize, code);
        let mut buf = [0u8; 218];
        p.encode(&mut buf).unwrap();
        assert_eq!(decode(&buf).unwrap().msg_type, *kind);
    }
}

#[test]
fn decode_errors() {
    assert_eq!(decode(&[0xA5; 17]), Err(DecodeError::TooShort));
    let p = small_packet();
    let mut buf = [0u8; 21];
    p.encode(&mut buf).unwrap();

    let mut bad_magic = buf;
    bad_magic[1] = 0x5B;
    assert_eq!(decode(&bad_magic), Err(DecodeError::BadMagic));

    let mut too_long = buf;
    too_long[15] = 201;
    assert_eq!(decode(&too_long), Err(DecodeError::PayloadTooLong));

    let mut longer = buf;
    longer[15] = 4;
    assert_eq!(decode(&longer), Err(DecodeError::TooShort));

    let mut corrupted = buf;
    corrupted[17] ^= 0x80;
    assert_eq!(decode(&corrupted), Err(DecodeError::CrcMismatch));

    assert_eq!(decode(&buf[..20]), Err(DecodeError::TooShort));
}

#[test]
fn every_corrupted_byte_is_refused() {
    let p = small_packet();
    let mut buf = [0u8; 21];
    p.encode(&mut buf).unwrap();
    for i in 0..buf.len() {
        if i == 15 {
            continue;
        }
        for bit in 0..8 {
            let mut bad = buf;
            bad[i] ^= 1 << bit;
            let expected = if i < 2 { DecodeError::BadMagic } else { DecodeError::CrcMismatch };
            assert_eq!(decode(&bad), Err(expected));
        }
    }
}
