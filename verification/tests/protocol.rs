use fastboot_protocol::protocol::{FastBootCommand, FastBootResponse, FastBootResponseParseError};

fn parse_error(bytes: &[u8]) -> Option<FastBootResponseParseError> {
    FastBootResponse::from_bytes(bytes).err()
}

#[test]
fn commands_have_their_wire_form() {
    assert_eq!(FastBootCommand::GetVar("version").to_bytes(), b"getvar:version");
    assert_eq!(FastBootCommand::Download(0x1234abcd).to_bytes(), b"download:1234abcd");
    assert_eq!(FastBootCommand::Download(0x2f).to_bytes(), b"download:0000002f");
    assert_eq!(FastBootCommand::Download(u32::MAX).to_bytes(), b"download:ffffffff");
    assert_eq!(FastBootCommand::Flash("boot_a").to_bytes(), b"flash:boot_a");
    assert_eq!(FastBootCommand::Erase("userdata").to_bytes(), b"erase:userdata");
    assert_eq!(FastBootCommand::Continue.to_bytes(), b"continue");
    assert_eq!(FastBootCommand::Reboot.to_bytes(), b"reboot");
    assert_eq!(FastBootCommand::RebootTo("bootloader").to_bytes(), b"reboot-bootloader");
}

#[test]
fn command_text_is_sent_as_utf8() {
    assert_eq!(FastBootCommand::GetVar("\u{e9}").to_bytes(), b"getvar:\xc3\xa9");
}

#[test]
fn responses_of_every_kind_are_read() {
    assert!(matches!(
        FastBootResponse::from_bytes(b"OKAY0.4"),
        Ok(FastBootResponse::Okay(text)) if text == "0.4"
    ));
    assert!(matches!(
        FastBootResponse::from_bytes(b"INFOerasing"),
        Ok(FastBootResponse::Info(text)) if text == "erasing"
    ));
    assert!(matches!(
        FastBootResponse::from_bytes(b"TEXT.."),
        Ok(FastBootResponse::Text(text)) if text == ".."
    ));
    assert!(matches!(
        FastBootResponse::from_bytes(b"FAILno such partition"),
        Ok(FastBootResponse::Fail(text)) if text == "no such partition"
    ));
    assert!(matches!(
        FastBootResponse::from_bytes(b"DATA00001000"),
        Ok(FastBootResponse::Data(0x1000))
    ));
    assert!(matches!(
        FastBootResponse::from_bytes(b"OKAY"),
        Ok(FastBootResponse::Okay(text)) if text.is_empty()
    ));
}

#[test]
fn text_outside_ascii_is_read() {
    assert!(matches!(
        FastBootResponse::from_bytes("INFO\u{e9}t\u{e9}".as_bytes()),
        Ok(FastBootResponse::Info(text)) if text == "\u{e9}t\u{e9}"
    ));
}

#[test]
fn what_is_no_response_is_refused() {
    assert_eq!(parse_error(b""), Some(FastBootResponseParseError::UnknownReply));
    assert_eq!(parse_error(b"OKA"), Some(FastBootResponseParseError::UnknownReply));
    assert_eq!(parse_error(b"okay"), Some(FastBootResponseParseError::UnknownReply));
    assert_eq!(parse_error(b"NOPE1"), Some(FastBootResponseParseError::UnknownReply));
    assert_eq!(parse_error(b"INFO\xff"), Some(FastBootResponseParseError::ParsePayload));
    assert_eq!(parse_error(b"\xff\xff\xff\xff"), Some(FastBootResponseParseError::ParsePayload));
}

#[test]
fn data_length_is_a_number_of_32_bits() {
    assert_eq!(parse_error(b"DATA"), Some(FastBootResponseParseError::DataLength));
    assert_eq!(parse_error(b"DATA+"), Some(FastBootResponseParseError::DataLength));
    assert_eq!(parse_error(b"DATA0000100g"), Some(FastBootResponseParseError::DataLength));
    assert_eq!(parse_error(b"DATA100000000"), Some(FastBootResponseParseError::DataLength));
    assert!(matches!(
        FastBootResponse::from_bytes(b"DATAfFfFfFfF"),
        Ok(FastBootResponse::Data(u32::MAX))
    ));
    assert!(matches!(FastBootResponse::from_bytes(b"DATA+1f"), Ok(FastBootResponse::Data(31))));
    assert!(matches!(
        FastBootResponse::from_bytes(b"DATA0000000000000001"),
        Ok(FastBootResponse::Data(1))
    ));
}

#[test]
fn announced_size_reads_back() {
    for size in [0u32, 1, 15, 16, 4096, 0x7fff_ffff, u32::MAX] {
        let command = FastBootCommand::Download(size).to_bytes();
        let mut answer = b"DATA".to_vec();
        answer.extend_from_slice(&command["download:".len()..]);
        assert!(matches!(
            FastBootResponse::from_bytes(&answer),
            Ok(FastBootResponse::Data(read)) if read == size
        ));
    }
}
