use bfjit::shims::{read_byte, write_byte, ReadAction, ReadEvent, CARRIAGE_RETURN};

#[test]
fn every_byte_is_written_off_windows() {
    for value in 0..=255u8 {
        assert_eq!(write_byte(value, false), Some(value));
    }
}

#[test]
fn windows_drops_bytes_from_128_on() {
    for value in 0..128u8 {
        assert_eq!(write_byte(value, true), Some(value));
    }
    for value in 128..=255u8 {
        assert_eq!(write_byte(value, true), None);
    }
}

#[test]
fn a_byte_read_is_stored() {
    for value in 0..=255u8 {
        assert_eq!(read_byte(ReadEvent::Byte(value), false), ReadAction::Store(value));
    }
    assert_eq!(read_byte(ReadEvent::Byte(b'x'), true), ReadAction::Store(b'x'));
    assert_eq!(read_byte(ReadEvent::Byte(b'\n'), true), ReadAction::Store(b'\n'));
}

#[test]
fn end_of_input_stores_zero() {
    assert_eq!(read_byte(ReadEvent::EndOfInput, false), ReadAction::Store(0));
    assert_eq!(read_byte(ReadEvent::EndOfInput, true), ReadAction::Store(0));
}

#[test]
fn a_failed_read_fails() {
    assert_eq!(read_byte(ReadEvent::Failed, false), ReadAction::Fail);
    assert_eq!(read_byte(ReadEvent::Failed, true), ReadAction::Fail);
}

#[test]
fn windows_skips_carriage_returns() {
    assert_eq!(CARRIAGE_RETURN, b'\r');
    assert_eq!(read_byte(ReadEvent::Byte(b'\r'), true), ReadAction::Retry);
    assert_eq!(read_byte(ReadEvent::Byte(b'\r'), false), ReadAction::Store(b'\r'));
}
