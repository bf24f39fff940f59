use loranav::display::{adc_texts, satellites_text, static_labels};
use loranav::nmea::get_ascii_str;
use loranav::radio::{is_test_frame, Bandwidth, CodingRate, LoRaChannel, SpreadingFactor};
use loranav::uart::NmeaLineBuffer;
use loranav::{AdcValue, TimeOfDay};

#[test]
fn ascii_sentence_is_a_str() {
    let s = b"$GPGGA,123519,4807.038,N*47\r\n";
    assert_eq!(get_ascii_str(s), Ok("$GPGGA,123519,4807.038,N*47\r\n"));
    assert_eq!(get_ascii_str(b""), Ok(""));
}

#[test]
fn non_ascii_bytes_are_refused() {
    assert_eq!(get_ascii_str(&[b'$', 0xC3, 0xA9]), Err(()));
    assert_eq!(get_ascii_str(&[0x80]), Err(()));
    assert_eq!(get_ascii_str(&[0x7F]), Ok("\u{7f}"));
}

#[test]
fn line_buffer_waits_below_threshold() {
    let mut b = NmeaLineBuffer::new();
    let lines = b.push_read(b"$GPGGA,1*00\n$GPRMC");
    assert!(lines.is_empty());
}

#[test]
fn line_buffer_hands_out_complete_lines() {
    let mut b = NmeaLineBuffer::new();
    let mut all_lines: Vec<Vec<u8>> = Vec::new();
    let sentence = b"$GPGGA,092750.000,5321.6802,N,00630.3372,W,1,8,1.03,61.7,M,55.2,M,,*76\r\n";
    let mut stream: Vec<u8> = Vec::new();
    for _ in 0..12 {
        stream.extend_from_slice(sentence);
    }
    stream.extend_from_slice(b"$GPRMC,partial");
    for chunk in stream.chunks(64) {
        all_lines.extend(b.push_read(chunk));
    }
    assert!(!all_lines.is_empty());
    for line in &all_lines {
        assert_eq!(line.as_slice(), &sentence[..]);
    }
    let mut rest = b.push_read(&[0u8; 64]);
    assert!(rest.len() <= 12 - all_lines.len());
    all_lines.append(&mut rest);
}

#[test]
fn line_buffer_drops_zero_bytes_and_keeps_tail() {
    let mut b = NmeaLineBuffer::new();
    let mut chunk = [b'x'; 64];
    chunk[10] = 0;
    chunk[20] = b'\n';
    let mut lines = Vec::new();
    for _ in 0..12 {
        lines.extend(b.push_read(&chunk));
    }
    let mut expected_line = vec![b'x'; 20];
    expected_line[19] = b'\n';
    assert_eq!(lines.len(), 0);
    lines.extend(b.push_read(&chunk));
    // 13 reads of 63 non-zero bytes each: 819 pending, over the threshold.
    assert_eq!(lines.len(), 13);
    assert_eq!(lines[0], expected_line);
    let mut tail = b.push_read(&[0u8; 8]);
    assert!(tail.is_empty());
    tail.clear();
}

#[test]
fn static_labels_layout() {
    let items = static_labels();
    let expected: [(i32, i32, &[u8]); 5] = [
        (68, 0, b"lat:"),
        (68, 10, b"lon:"),
        (68, 20, b"sat:"),
        (0, 0, b"volt:"),
        (0, 10, b"temp:"),
    ];
    assert_eq!(items.len(), 5);
    for (item, (x, y, text)) in items.iter().zip(expected.iter()) {
        assert_eq!(item.x, *x);
        assert_eq!(item.y, *y);
        assert_eq!(item.text.as_slice(), *text);
    }
}

#[test]
fn adc_readings_as_decimal() {
    let items = adc_texts(&AdcValue { voltage: 3300, temp: 0 });
    assert_eq!(items.len(), 2);
    assert_eq!((items[0].x, items[0].y), (32, 0));
    assert_eq!(items[0].text.as_slice(), b"3300");
    assert_eq!((items[1].x, items[1].y), (32, 10));
    assert_eq!(items[1].text.as_slice(), b"0");
    let max = adc_texts(&AdcValue { voltage: 65535, temp: 1009 });
    assert_eq!(max[0].text.as_slice(), b"65535");
    assert_eq!(max[1].text.as_slice(), b"1009");
}

#[test]
fn satellites_as_decimal() {
    let item = satellites_text(12);
    assert_eq!((item.x, item.y), (94, 20));
    assert_eq!(item.text.as_slice(), b"12");
    assert_eq!(satellites_text(4_294_967_295).text.as_slice(), b"4294967295");
}

#[test]
fn adc_value_starts_at_zero() {
    assert_eq!(AdcValue::new(), AdcValue { voltage: 0, temp: 0 });
}

#[test]
fn midnight_is_zero() {
    assert_eq!(TimeOfDay::midnight(), TimeOfDay { secs: 0, frac: 0 });
}

#[test]
fn default_channel() {
    let c = LoRaChannel::default();
    assert_eq!(c.frequency_hz, 868_000_000);
    assert_eq!(c.spreading_factor, SpreadingFactor::_7);
    assert_eq!(c.bandwidth, Bandwidth::_125KHz);
    assert_eq!(c.coding_rate, CodingRate::_4_5);
}

#[test]
fn test_frame_recognised() {
    let frame = [1u8; 64];
    assert!(is_test_frame(64, &frame));
    assert!(!is_test_frame(63, &frame));
    let mut other = frame;
    other[40] = 2;
    assert!(!is_test_frame(64, &other));
    assert!(!is_test_frame(64, &[1u8; 63]));
}

#[test]
fn line_buffer_capacity_check() {
    let mut b = NmeaLineBuffer::new();
    let chunk = [b'x'; 64];
    for _ in 0..12 {
        assert!(b.fits(&chunk));
        assert!(b.push_read(&chunk).is_empty());
    }
    // 768 pending bytes, no line feed: the next read goes over the threshold and
    // nothing is complete, so all 832 stay pending.
    assert!(b.fits(&chunk));
    assert!(b.push_read(&chunk).is_empty());
    for _ in 0..2 {
        assert!(b.fits(&chunk));
        assert!(b.push_read(&chunk).is_empty());
    }
    // 960 pending: another 64 would fill the 1024-byte buffer.
    assert!(!b.fits(&chunk));
    assert!(b.fits(&[b'x'; 63]));
    assert!(b.fits(&[0u8; 64]));
}
