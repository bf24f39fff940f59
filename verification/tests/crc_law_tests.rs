use loranav::crc::crc16_xmodem;
use loranav::packet::{DecodeError, Packet};
use loranav::uart::{NmeaLineBuffer, PARSE_THRESHOLD, UART_BUFFER_SIZE};
use loranav::MAX_PAYLOAD_LEN;

#[test]
fn appending_crc_high_byte_first_leaves_zero() {
    for data in [&b"123456789"[..], &b""[..], &b"\x00\xff\x10"[..], &b"NMEA frame"[..]] {
        let c = crc16_xmodem(data);
        let mut ext = data.to_vec();
        ext.push((c >> 8) as u8);
        ext.push((c & 0xff) as u8);
        assert_eq!(crc16_xmodem(&ext), 0);
    }
}

#[test]
fn crc_is_linear_over_xor() {
    let a = b"The quick brown fox";
    let b = b"jumps over the lazy";
    let x: Vec<u8> = a.iter().zip(b.iter()).map(|(p, q)| p ^ q).collect();
    assert_eq!(crc16_xmodem(&x), crc16_xmodem(a) ^ crc16_xmodem(b));
}

#[test]
fn every_burst_within_sixteen_bits_is_detected() {
    let data: Vec<u8> = (0u8..12).map(|i| i.wrapping_mul(37).wrapping_add(5)).collect();
    let base = crc16_xmodem(&data);
    let bits = data.len() * 8;
    for start in 0..bits {
        for pattern in [0x0001u32, 0x8001, 0xffff, 0x1021, 0x8000, 0x5555] {
            let mut changed = data.clone();
            for t in 0..16 {
                if pattern >> (15 - t) & 1 == 1 {
                    let p = start + t;
                    if p < bits {
                        changed[p / 8] ^= 0x80 >> (p % 8);
                    }
                }
            }
            if changed != data {
                assert_ne!(crc16_xmodem(&changed), base);
            }
        }
    }
}

#[test]
fn oversized_payload_length_with_short_buffer_is_too_short() {
    let p = Packet {
        src: [0; 6],
        dst: [0; 6],
        msg_type: 0,
        payload_len: MAX_PAYLOAD_LEN + 50,
        payload: [0; MAX_PAYLOAD_LEN],
    };
    let mut buf = [0x33u8; 64];
    assert_eq!(p.encode(&mut buf), Err(DecodeError::TooShort));
    assert!(buf.iter().all(|b| *b == 0x33));
}

#[test]
fn nmea_stream_never_overflows() {
    let sentences: [&[u8]; 3] = [
        b"$GPGGA,092750.000,5321.6802,N,00630.3372,W,1,8,1.03,61.7,M,55.2,M,,*76\r\n",
        b"$GPRMC,092750.000,A,5321.6802,N,00630.3372,W,0.02,31.66,280511,,,A*43\r\n",
        b"$GNGNS,014035.00,4332.69262,S,17235.48549,E,RR,13,0.9,25.63,11.24,,*70\r\n",
    ];
    let mut stream: Vec<u8> = Vec::new();
    for i in 0..200 {
        stream.extend_from_slice(sentences[i % 3]);
    }
    let mut b = NmeaLineBuffer::new();
    let mut seen = 0;
    for chunk in stream.chunks(UART_BUFFER_SIZE) {
        assert!(b.fits(chunk));
        for line in b.push_read(chunk) {
            assert_eq!(line.as_slice(), sentences[seen % 3]);
            seen += 1;
        }
    }
    assert!(seen > 190);
    assert!(PARSE_THRESHOLD + UART_BUFFER_SIZE < 1024);
}
