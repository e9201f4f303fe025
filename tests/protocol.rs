use membacking::EventType;
use membacking::Uuid;
use membacking::VmbusSerialPort;

#[test]
fn zero_uuid_is_zero() {
    assert!(Uuid::zero().is_zero());
    assert!(Uuid([0; 16]).is_zero());
}

#[test]
fn any_nonzero_byte_makes_uuid_nonzero() {
    for i in 0..16 {
        let mut bytes = [0u8; 16];
        bytes[i] = 0x80;
        assert!(!Uuid(bytes).is_zero());
    }
    assert!(!Uuid([0xff; 16]).is_zero());
}

#[test]
fn event_kinds_have_their_wire_values() {
    assert_eq!(EventType(EventType::MESSAGE), EventType(1));
    assert_eq!(EventType::CLOSE_PORT, 2);
    assert_eq!(EventType::CHANGE_PEER, 3);
    assert_eq!(EventType::ACKNOWLEDGE_CHANGE_PEER, 4);
    assert_eq!(EventType::ACKNOWLEDGE_PORT, 5);
    assert_eq!(EventType::FAIL_PORT, 6);
    assert_ne!(VmbusSerialPort::Com1, VmbusSerialPort::Com2);
}
