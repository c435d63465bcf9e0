use serialdebugger::err::{Error, ErrorKind};

#[test]
fn error_new_keeps_kind_and_message() {
    let e = Error::new(ErrorKind::UnknownDeviceManager("usb".to_string()), "Unknown Device type".to_string());
    assert!(matches!(e.kind, ErrorKind::UnknownDeviceManager(ref s) if s == "usb"));
    assert_eq!(e.message, "Unknown Device type");
}
