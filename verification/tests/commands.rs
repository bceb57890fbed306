use fastboot_protocol::buffer::Completion;
use fastboot_protocol::client::{check_length, read_response, validate_command, Execution, Step};
use fastboot_protocol::device::NusbFastBoot;
use fastboot_protocol::error::NusbFastBootError;
use fastboot_protocol::protocol::{FastBootCommand, FastBootResponse, FastBootResponseParseError};
use nusb::transfer::{Buffer, TransferError};

fn client() -> NusbFastBoot {
    NusbFastBoot { ep_out: 0x01, max_out: 512, ep_in: 0x81, max_in: 64 }
}

fn sent(step: Step<Execution, String>) -> (Vec<u8>, Execution) {
    match step {
        Step::Out(buffer, next) => (buffer.to_vec(), next),
        _ => panic!("nothing sent"),
    }
}

fn listening(step: Step<Execution, String>) -> Execution {
    match step {
        Step::In(buffer, next) => {
            assert_eq!(buffer.requested_len(), 64);
            assert!(buffer.is_empty());
            next
        }
        _ => panic!("not listening"),
    }
}

fn outcome(step: Step<Execution, String>) -> Result<String, NusbFastBootError> {
    match step {
        Step::Done(outcome) => outcome,
        _ => panic!("not done"),
    }
}

fn done(len: usize) -> Completion {
    Completion { buffer: Buffer::new(0), actual_len: len, status: Ok(()) }
}

fn answer(bytes: &[u8]) -> Completion {
    Completion { buffer: Buffer::from(bytes), actual_len: bytes.len(), status: Ok(()) }
}

#[test]
fn valid_commands_are_1_to_64_printable_characters() {
    assert!(validate_command(" ").is_ok());
    assert!(validate_command("~").is_ok());
    assert!(validate_command(&"x".repeat(64)).is_ok());
    assert!(matches!(
        validate_command(&"\u{e9}".repeat(2)),
        Err(NusbFastBootError::InvalidCommand)
    ));
    assert!(matches!(validate_command("a\x7f"), Err(NusbFastBootError::InvalidCommand)));
    assert!(matches!(validate_command(""), Err(NusbFastBootError::InvalidCommand)));
}

#[test]
fn length_errors_tell_both_lengths() {
    assert!(matches!(
        check_length(4096, 2048),
        Err(NusbFastBootError::IncorrectLength { expected: 4096, actual: 2048 })
    ));
}

#[test]
fn command_is_sent_and_answered() {
    let (bytes, next) = sent(client().command("oem unlock"));
    assert_eq!(bytes, b"oem unlock");
    let next = listening(next.step(done(10)));
    let next = listening(next.step(answer(b"INFOunlocking")));
    let next = listening(next.step(answer(b"TEXT...")));
    assert_eq!(outcome(next.step(answer(b"OKAYdone"))).unwrap(), "done");
}

#[test]
fn invalid_command_is_not_sent() {
    assert!(matches!(
        outcome(client().command("reboot\n")),
        Err(NusbFastBootError::InvalidCommand)
    ));
    assert!(matches!(
        outcome(client().command(&"x".repeat(65))),
        Err(NusbFastBootError::InvalidCommand)
    ));
}

#[test]
fn command_that_is_sent_in_part_fails() {
    let (_, next) = sent(client().command("oem unlock"));
    assert!(matches!(
        outcome(next.step(done(9))),
        Err(NusbFastBootError::IncorrectLength { expected: 10, actual: 9 })
    ));
    let (_, next) = sent(client().command("oem unlock"));
    assert!(matches!(
        outcome(next.step(done(11))),
        Err(NusbFastBootError::IncorrectLength { expected: 10, actual: 11 })
    ));
}

#[test]
fn failed_transfers_end_a_command() {
    let (_, next) = sent(client().reboot());
    let stalled = Completion {
        buffer: Buffer::new(0),
        actual_len: 6,
        status: Err(TransferError::Stall),
    };
    assert!(matches!(
        outcome(next.step(stalled)),
        Err(NusbFastBootError::Transfer(TransferError::Stall))
    ));
    let (_, next) = sent(client().reboot());
    let next = listening(next.step(done(6)));
    let gone = Completion {
        buffer: Buffer::from(&b"OKAY"[..]),
        actual_len: 4,
        status: Err(TransferError::Disconnected),
    };
    assert!(matches!(
        outcome(next.step(gone)),
        Err(NusbFastBootError::Transfer(TransferError::Disconnected))
    ));
}

#[test]
fn device_can_refuse_a_command() {
    let (_, next) = sent(client().erase("boot"));
    let next = listening(next.step(done(10)));
    assert!(matches!(
        outcome(next.step(answer(b"FAILlocked"))),
        Err(NusbFastBootError::FastbootFailed(reason)) if reason == "locked"
    ));
}

#[test]
fn command_without_data_phase_takes_no_data() {
    let (_, next) = sent(client().continue_boot());
    let next = listening(next.step(done(8)));
    assert!(matches!(
        outcome(next.step(answer(b"DATA00000010"))),
        Err(NusbFastBootError::FastbootUnexpectedReply)
    ));
}

#[test]
fn answer_that_is_no_response_ends_a_command() {
    let next = listening(client().handle_responses());
    assert!(matches!(
        outcome(next.step(answer(b"WHAT"))),
        Err(NusbFastBootError::FastbootParseError(FastBootResponseParseError::UnknownReply))
    ));
}

#[test]
fn operations_send_their_commands() {
    let c = client();
    assert_eq!(sent(c.get_var("version")).0, b"getvar:version");
    assert_eq!(sent(c.flash("boot")).0, b"flash:boot");
    assert_eq!(sent(c.erase("boot")).0, b"erase:boot");
    assert_eq!(sent(c.continue_boot()).0, b"continue");
    assert_eq!(sent(c.reboot()).0, b"reboot");
    assert_eq!(sent(c.reboot_to("bootloader")).0, b"reboot-bootloader");
    assert_eq!(sent(c.execute(FastBootCommand::Download(16))).0, b"download:00000010");
}

#[test]
fn response_is_read_out_of_the_buffer() {
    assert!(matches!(
        read_response(&answer(b"OKAYyes")),
        Ok(FastBootResponse::Okay(text)) if text == "yes"
    ));
}

#[test]
fn errors_convert() {
    assert!(matches!(
        NusbFastBootError::from(TransferError::Fault),
        NusbFastBootError::Transfer(TransferError::Fault)
    ));
    assert!(matches!(
        NusbFastBootError::from(FastBootResponseParseError::DataLength),
        NusbFastBootError::FastbootParseError(FastBootResponseParseError::DataLength)
    ));
}
